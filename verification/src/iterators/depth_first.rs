//! The depth-first iterator: a lazy pre-order walk kept on an explicit
//! stack of single-level cursors, one per depth, so the traversal can be
//! resumed one pair at a time without recursion.
use vstd::prelude::*;

use crate::iterators::single::{copy_path, node_ref, value_at_mut, SingleIter};
use crate::model::{
    key_at, lemma_path_push, lemma_path_take, lemma_value_updated_paths, node_at, path_valid,
    value_updated,
};
use crate::{
    dfs_pairs, lemma_same_tree_reflexive, lemma_same_tree_transitive, lemma_same_value_update,
    same_tree, size_pairs, Tree,
};

verus! {

/// What the stacked sibling cursors still owe, top of the stack first:
/// every remaining sibling contributes its pair and its whole subtree.
pub open spec fn frames_remaining<'a, V>(stack: Seq<SingleIter<'a, V>>) -> Seq<(u64, V)>
    decreases stack.len(),
{
    if stack.len() == 0 {
        Seq::empty()
    } else {
        dfs_pairs(stack.last().remaining()) + frames_remaining(stack.drop_last())
    }
}

proof fn lemma_frames_remaining_push<'a, V>(stack: Seq<SingleIter<'a, V>>, it: SingleIter<'a, V>)
    ensures
        frames_remaining(stack.push(it)) == dfs_pairs(it.remaining()) + frames_remaining(stack),
{
    assert(stack.push(it).drop_last() =~= stack);
    assert(stack.push(it).last() == it);
}

/// The deepest stacked cursor that still owes a sibling; `-1` once every
/// cursor is spent.
pub open spec fn last_live_frame<'a, V>(stack: Seq<SingleIter<'a, V>>) -> int
    decreases stack.len(),
{
    if stack.len() == 0 {
        -1
    } else if stack.last().remaining().len() > 0 {
        stack.len() - 1
    } else {
        last_live_frame(stack.drop_last())
    }
}

proof fn lemma_last_live_at<'a, V>(stack: Seq<SingleIter<'a, V>>, j: int)
    requires
        0 <= j < stack.len(),
        stack[j].remaining().len() > 0,
        forall|l: int| j < l < stack.len() ==> (#[trigger] stack[l]).remaining().len() == 0,
    ensures
        last_live_frame(stack) == j,
    decreases stack.len(),
{
    if j < stack.len() - 1 {
        assert(forall|l: int|
            0 <= l < stack.drop_last().len() ==> stack.drop_last()[l] == stack[l]);
        lemma_last_live_at(stack.drop_last(), j);
    }
}

proof fn lemma_last_live_none<'a, V>(stack: Seq<SingleIter<'a, V>>)
    requires
        forall|l: int| 0 <= l < stack.len() ==> (#[trigger] stack[l]).remaining().len() == 0,
    ensures
        last_live_frame(stack) == -1,
    decreases stack.len(),
{
    if stack.len() > 0 {
        assert(forall|l: int|
            0 <= l < stack.drop_last().len() ==> stack.drop_last()[l] == stack[l]);
        lemma_last_live_none(stack.drop_last());
    }
}

/// The depth-first order is pre-order: the walk over a child sequence
/// falls apart into one contiguous block per child, in sequence order,
/// and each block is the child's own pair immediately followed by its
/// complete subtree — so a node comes out before all its descendants,
/// and a whole subtree finishes before the next sibling begins.
pub proof fn lemma_depth_first_pre_order<V>(s: Seq<(u64, Tree<V>)>, i: int)
    requires
        0 <= i < s.len(),
    ensures
        dfs_pairs(s) == dfs_pairs(s.take(i)) + (seq![(s[i].0, s[i].1.val())] + dfs_pairs(
            s[i].1.kids(),
        )) + dfs_pairs(s.skip(i + 1)),
    decreases i,
{
    if i == 0 {
        assert(s.take(0) =~= Seq::<(u64, Tree<V>)>::empty());
        assert(s.skip(1) =~= s.drop_first());
        assert(dfs_pairs(s) =~= dfs_pairs(s.take(0)) + (seq![(s[0].0, s[0].1.val())] + dfs_pairs(
            s[0].1.kids(),
        )) + dfs_pairs(s.skip(1)));
    } else {
        lemma_depth_first_pre_order(s.drop_first(), i - 1);
        assert(s.drop_first().take(i - 1) =~= s.take(i).drop_first());
        assert(s.take(i)[0] == s[0]);
        assert(s.drop_first().skip(i) =~= s.skip(i + 1));
        assert(s.drop_first()[i - 1] == s[i]);
        assert(dfs_pairs(s.take(i)) == seq![(s[0].0, s[0].1.val())] + dfs_pairs(s[0].1.kids())
            + dfs_pairs(s.take(i).drop_first()));
        assert(dfs_pairs(s) =~= dfs_pairs(s.take(i)) + (seq![(s[i].0, s[i].1.val())] + dfs_pairs(
            s[i].1.kids(),
        )) + dfs_pairs(s.skip(i + 1)));
    }
}

/// A walk yields one pair per node: nothing is skipped, nothing comes
/// round twice.
pub proof fn lemma_depth_first_counts_nodes<V>(s: Seq<(u64, Tree<V>)>)
    ensures
        dfs_pairs(s).len() == size_pairs(s),
    decreases s,
{
    if s.len() > 0 {
        lemma_depth_first_counts_nodes(s[0].1.kids());
        lemma_depth_first_counts_nodes(s.drop_first());
    }
}

/// A node without children has an empty walk.
pub proof fn lemma_depth_first_of_leaf<V>(s: Seq<(u64, Tree<V>)>)
    requires
        s.len() == 0,
    ensures
        dfs_pairs(s) == Seq::<(u64, V)>::empty(),
{
}

/// A resumable pre-order walk over a tree's strict descendants.
///
/// The stack holds one single-level cursor per depth: the siblings not
/// yet visited there. `current` caches the pair to hand out next.
pub struct DepthFirstIter<'a, V> {
    stack: Vec<SingleIter<'a, V>>,
    current: Option<(u64, &'a Tree<V>)>,
}

impl<'a, V> DepthFirstIter<'a, V> {
    /// The stacked sibling cursors, bottom first.
    pub closed spec fn frames(self) -> Seq<SingleIter<'a, V>> {
        self.stack@
    }

    /// The cached pair to hand out next.
    pub closed spec fn cur(self) -> Option<(u64, &'a Tree<V>)> {
        self.current
    }

    /// The pairs the walk has not produced yet, in pre-order: the cached
    /// node with its whole subtree first, then whatever the stack owes.
    pub open spec fn remaining(self) -> Seq<(u64, V)> {
        (match self.cur() {
            Some(p) => seq![(p.0, p.1.val())] + dfs_pairs(p.1.kids()),
            None => Seq::empty(),
        }) + frames_remaining(self.frames())
    }

    /// Once the cache is empty the walk is over and the stack is gone.
    pub open spec fn wf(self) -> bool {
        self.cur() is None ==> self.frames().len() == 0
    }

    pub(crate) fn new(tree: &'a Tree<V>) -> (it: Self)
        ensures
            it.wf(),
            it.remaining() == dfs_pairs(tree.kids()),
            tree.kids().len() == 0 ==> it.cur() is None && it.frames().len() == 0,
            tree.kids().len() > 0 ==> (it.cur() matches Some(q) && q.0 == tree.kids()[0].0
                && *q.1 == tree.kids()[0].1 && it.frames().len() == 1
                && it.frames()[0].remaining() == tree.kids().drop_first()),
    {
        let mut iter = tree.iter_single();
        match iter.next() {
            Some(p) => {
                let it = DepthFirstIter { stack: vec![iter], current: Some(p) };
                proof {
                    assert(it.frames() =~= Seq::<SingleIter<'a, V>>::empty().push(iter));
                    lemma_frames_remaining_push(Seq::<SingleIter<'a, V>>::empty(), iter);
                    assert(it.remaining() =~= dfs_pairs(tree.kids()));
                }
                it
            },
            None => {
                let it = DepthFirstIter { stack: Vec::new(), current: None };
                proof {
                    assert(it.remaining() =~= dfs_pairs(tree.kids()));
                }
                it
            },
        }
    }

    /// How many sibling cursors are stacked up.
    pub fn stack_len(&self) -> (n: usize)
        ensures
            n == self.frames().len(),
    {
        self.stack.len()
    }

    /// Whether a pair is cached for the next step.
    pub fn has_current(&self) -> (b: bool)
        ensures
            b == (self.cur() is Some),
    {
        self.current.is_some()
    }

    /// Tries to step down into the cached node's children; fails if there
    /// is no cached node or it has none.
    pub fn go_down_one_level(&mut self) -> (r: Result<(), ()>)
        ensures
            match old(self).cur() {
                None => r is Err && *final(self) == *old(self),
                Some(p) => if p.1.kids().len() > 0 {
                    &&& r is Ok
                    &&& final(self).cur() matches Some(q) && q.0 == p.1.kids()[0].0 && *q.1
                        == p.1.kids()[0].1
                    &&& final(self).frames().len() == old(self).frames().len() + 1
                    &&& final(self).frames().drop_last() == old(self).frames()
                    &&& final(self).frames().last().remaining() == p.1.kids().drop_first()
                } else {
                    &&& r is Err
                    &&& final(self).cur() is None
                    &&& final(self).frames() == old(self).frames()
                },
            },
    {
        match self.current {
            None => Err(()),
            Some((_, t)) => {
                let mut next_iter = t.iter_single();
                let first = next_iter.next();
                match first {
                    None => {
                        self.current = None;
                        Err(())
                    },
                    Some(q) => {
                        self.current = Some(q);
                        self.stack.push(next_iter);
                        proof {
                            assert(self.frames() =~= old(self).frames().push(next_iter));
                            assert(self.frames().drop_last() =~= old(self).frames());
                        }
                        Ok(())
                    },
                }
            },
        }
    }

    /// Tries to move the top cursor to the next sibling; fails if the
    /// stack is empty or that cursor is spent.
    pub fn go_to_next_sibling(&mut self) -> (r: Result<(), ()>)
        ensures
            if old(self).frames().len() == 0 {
                r is Err && final(self).frames() == old(self).frames() && final(self).cur() == old(self).cur()
            } else {
                {
                    let fr = old(self).frames().last();
                    if fr.remaining().len() > 0 {
                        &&& r is Ok
                        &&& final(self).cur() matches Some(q) && q.0 == fr.remaining()[0].0
                            && *q.1 == fr.remaining()[0].1
                        &&& final(self).frames().len() == old(self).frames().len()
                        &&& final(self).frames().drop_last() == old(self).frames().drop_last()
                        &&& final(self).frames().last().remaining() == fr.remaining().drop_first()
                    } else {
                        &&& r is Err
                        &&& final(self).cur() is None
                        &&& final(self).frames() == old(self).frames()
                    }
                }
            },
    {
        match self.stack.pop() {
            None => Err(()),
            Some(mut it) => {
                let r = it.next();
                self.stack.push(it);
                proof {
                    assert(self.frames() =~= old(self).frames().drop_last().push(it));
                    assert(self.frames().drop_last() =~= old(self).frames().drop_last());
                    if old(self).frames().last().remaining().len() == 0 {
                        assert(self.frames() =~= old(self).frames());
                    }
                }
                match r {
                    None => {
                        self.current = None;
                        Err(())
                    },
                    Some(q) => {
                        self.current = Some(q);
                        Ok(())
                    },
                }
            },
        }
    }

    /// Tries to discard the top cursor, walking back up one level; fails
    /// at the root.
    pub fn go_up_one_level(&mut self) -> (r: Result<(), ()>)
        ensures
            if old(self).frames().len() == 0 {
                r is Err && final(self).frames() == old(self).frames() && final(self).cur() == old(self).cur()
            } else {
                r is Ok && final(self).frames() == old(self).frames().drop_last() && final(self).cur() == old(self).cur()
            },
    {
        match self.stack.pop() {
            Some(_) => {
                proof {
                    assert(self.frames() =~= old(self).frames().drop_last());
                }
                Ok(())
            },
            None => Err(()),
        }
    }

    /// Moves the cached pair to the next node in pre-order: down into the
    /// first child where there is one, else on to the next sibling,
    /// climbing back up as far as needed.
    fn advance_to_next_node(&mut self)
        requires
            old(self).wf(),
        ensures
            final(self).wf(),
            final(self).remaining() == match old(self).cur() {
                Some(p) => dfs_pairs(p.1.kids()) + frames_remaining(old(self).frames()),
                None => Seq::<(u64, V)>::empty(),
            },
            match old(self).cur() {
                None => final(self).cur() is None && final(self).frames().len() == 0,
                Some(p) => if p.1.kids().len() > 0 {
                    &&& final(self).cur() matches Some(q) && q.0 == p.1.kids()[0].0 && *q.1
                        == p.1.kids()[0].1
                    &&& final(self).frames().len() == old(self).frames().len() + 1
                    &&& final(self).frames().drop_last() == old(self).frames()
                    &&& final(self).frames().last().remaining() == p.1.kids().drop_first()
                } else {
                    {
                        let j = last_live_frame(old(self).frames());
                        if j >= 0 {
                            &&& final(self).cur() matches Some(q) && q.0 == old(
                                self,
                            ).frames()[j].remaining()[0].0 && *q.1 == old(
                                self,
                            ).frames()[j].remaining()[0].1
                            &&& final(self).frames().len() == j + 1
                            &&& final(self).frames().take(j) == old(self).frames().take(j)
                            &&& final(self).frames().last().remaining() == old(
                                self,
                            ).frames()[j].remaining().drop_first()
                        } else {
                            final(self).cur() is None && final(self).frames().len() == 0
                        }
                    }
                },
            },
    {
        let ghost target: Seq<(u64, V)> = match old(self).cur() {
            Some(p) => dfs_pairs(p.1.kids()) + frames_remaining(old(self).frames()),
            None => Seq::empty(),
        };
        if self.go_down_one_level().is_ok() {
            proof {
                let p = old(self).cur()->0;
                let kids = p.1.kids();
                let q = self.cur()->0;
                assert(frames_remaining(self.frames()) == dfs_pairs(kids.drop_first())
                    + frames_remaining(old(self).frames()));
                assert(self.remaining() =~= seq![(q.0, q.1.val())] + dfs_pairs(q.1.kids()) + (
                dfs_pairs(kids.drop_first()) + frames_remaining(old(self).frames())));
                assert(dfs_pairs(kids) == seq![(kids[0].0, kids[0].1.val())] + dfs_pairs(
                    kids[0].1.kids(),
                ) + dfs_pairs(kids.drop_first()));
                assert(self.remaining() =~= target);
            }
            return ;
        }
        proof {
            assert(self.cur() is None);
            assert(frames_remaining(self.frames()) =~= target);
            assert(old(self).frames().take(old(self).frames().len() as int) =~= old(
                self,
            ).frames());
        }
        loop
            invariant
                self.cur() is None,
                frames_remaining(self.frames()) == target,
                target == match old(self).cur() {
                    Some(p) => dfs_pairs(p.1.kids()) + frames_remaining(old(self).frames()),
                    None => Seq::<(u64, V)>::empty(),
                },
                self.frames().len() <= old(self).frames().len(),
                self.frames() == old(self).frames().take(self.frames().len() as int),
                forall|l: int|
                    self.frames().len() <= l < old(self).frames().len() ==> (#[trigger] old(
                        self,
                    ).frames()[l]).remaining().len() == 0,
                old(self).cur() matches Some(p) ==> p.1.kids().len() == 0,
            decreases self.frames().len(),
        {
            let ghost pre = *self;
            if self.go_to_next_sibling().is_ok() {
                proof {
                    let fr = pre.frames().last();
                    let q = self.cur()->0;
                    assert(frames_remaining(self.frames()) == dfs_pairs(
                        fr.remaining().drop_first(),
                    ) + frames_remaining(pre.frames().drop_last()));
                    assert(frames_remaining(pre.frames()) == dfs_pairs(fr.remaining())
                        + frames_remaining(pre.frames().drop_last()));
                    assert(dfs_pairs(fr.remaining()) == seq![
                        (fr.remaining()[0].0, fr.remaining()[0].1.val()),
                    ] + dfs_pairs(fr.remaining()[0].1.kids()) + dfs_pairs(
                        fr.remaining().drop_first(),
                    ));
                    assert(self.remaining() =~= target);
                    let k = pre.frames().len() as int;
                    assert(fr == old(self).frames()[k - 1]);
                    lemma_last_live_at(old(self).frames(), k - 1);
                    assert(self.frames().take(k - 1) =~= self.frames().drop_last());
                    assert(pre.frames().drop_last() =~= old(self).frames().take(k - 1));
                }
                return ;
            }
            proof {
                if pre.frames().len() > 0 {
                    assert(frames_remaining(self.frames()) == dfs_pairs(
                        pre.frames().last().remaining(),
                    ) + frames_remaining(pre.frames().drop_last()));
                    assert(frames_remaining(self.frames()) == target);
                }
            }
            let ghost mid = *self;
            if self.go_up_one_level().is_err() {
                proof {
                    assert(self.remaining() =~= Seq::<(u64, V)>::empty());
                    assert(frames_remaining(self.frames()) == target);
                    assert(self.remaining() =~= target);
                    lemma_last_live_none(old(self).frames());
                }
                return ;
            }
            proof {
                let k = mid.frames().len() as int;
                assert(mid.frames().last().remaining().len() == 0);
                assert(dfs_pairs(mid.frames().last().remaining()) =~= Seq::<(u64, V)>::empty());
                assert(frames_remaining(mid.frames()) == dfs_pairs(
                    mid.frames().last().remaining(),
                ) + frames_remaining(mid.frames().drop_last()));
                assert(frames_remaining(self.frames()) =~= frames_remaining(mid.frames()));
                assert(mid.frames().last() == old(self).frames()[k - 1]);
                assert(self.frames() =~= old(self).frames().take(k - 1));
            }
        }
    }

    /// Produces the next `(key, value)` pair of the pre-order walk, or
    /// nothing once every descendant has been visited.
    pub fn next(&mut self) -> (r: Option<(u64, &'a V)>)
        requires
            old(self).wf(),
        ensures
            final(self).wf(),
            old(self).remaining().len() > 0 ==> (r matches Some(p) && p.0 == old(self).remaining()[0].0 && *p.1 == old(self).remaining()[0].1 && final(self).remaining()
                == old(self).remaining().drop_first()),
            old(self).remaining().len() == 0 ==> (r is None && final(self).remaining() == old(self).remaining()),
    {
        let next_value = self.current;
        self.advance_to_next_node();
        match next_value {
            Some((k, t)) => {
                proof {
                    assert(old(self).remaining() == seq![(k, t.val())] + dfs_pairs(t.kids())
                        + frames_remaining(old(self).frames()));
                    assert(old(self).remaining().drop_first() =~= dfs_pairs(t.kids())
                        + frames_remaining(old(self).frames()));
                }
                Some((k, &t.value))
            },
            None => {
                proof {
                    assert(old(self).remaining() =~= Seq::<(u64, V)>::empty());
                }
                None
            },
        }
    }
}

/// The path one step on in pre-order: down to the first child where
/// there is one, else across to the next sibling, climbing as far as
/// needed; nothing once the walk is over.
pub open spec fn dfs_next_path<V>(t: Tree<V>, p: Seq<usize>) -> Option<Seq<usize>> {
    if node_at(t, p).kids().len() > 0 {
        Some(p.push(0))
    } else {
        dfs_up_path(t, p)
    }
}

/// The nearest next sibling on the way back up: the path with its last
/// step moved one sibling on, at the deepest depth where one exists.
pub open spec fn dfs_up_path<V>(t: Tree<V>, p: Seq<usize>) -> Option<Seq<usize>>
    decreases p.len(),
{
    if p.len() == 0 {
        None
    } else if p.last() + 1 < node_at(t, p.drop_last()).kids().len() {
        Some(p.drop_last().push((p.last() + 1) as usize))
    } else {
        dfs_up_path(t, p.drop_last())
    }
}

/// What a pre-order walk still owes once it stands at the node named by
/// `p`, beyond that node's own subtree: at every depth on the way back
/// up, the siblings after the taken turn, each with its whole subtree.
pub open spec fn path_frames_rest<V>(t: Tree<V>, p: Seq<usize>) -> Seq<(u64, V)>
    decreases p.len(),
{
    if p.len() == 0 {
        Seq::empty()
    } else {
        dfs_pairs(node_at(t, p.drop_last()).kids().skip(p.last() + 1)) + path_frames_rest(
            t,
            p.drop_last(),
        )
    }
}

/// Everything a pre-order walk still owes once it stands at the node
/// named by `p`: that node's pair, its whole subtree, then the rest.
pub open spec fn pre_order_rest<V>(t: Tree<V>, p: Seq<usize>) -> Seq<(u64, V)> {
    seq![(key_at(t, p), node_at(t, p).val())] + dfs_pairs(node_at(t, p).kids())
        + path_frames_rest(t, p)
}

proof fn lemma_up_path_rest<V>(t: Tree<V>, p: Seq<usize>)
    requires
        path_valid(t, p),
        p.len() > 0,
    ensures
        path_frames_rest(t, p) == match dfs_up_path(t, p) {
            Some(q) => pre_order_rest(t, q),
            None => Seq::<(u64, V)>::empty(),
        },
        dfs_up_path(t, p) matches Some(q) ==> path_valid(t, q) && q.len() > 0,
    decreases p.len(),
{
    let parent = node_at(t, p.drop_last());
    let last = p.last();
    lemma_path_take(t, p, p.len() - 1);
    assert(p.take(p.len() - 1) =~= p.drop_last());
    assert(p[p.len() - 1] == last);
    if last + 1 < parent.kids().len() {
        Tree::lemma_kids_len_bounded(parent);
        let q = p.drop_last().push((last + 1) as usize);
        lemma_path_push(t, p.drop_last(), (last + 1) as usize);
        let tail = parent.kids().skip(last + 1);
        assert(tail[0] == parent.kids()[last + 1]);
        assert(tail.drop_first() =~= parent.kids().skip(last + 2));
        assert(dfs_pairs(tail) == seq![(tail[0].0, tail[0].1.val())] + dfs_pairs(tail[0].1.kids())
            + dfs_pairs(tail.drop_first()));
        assert(q.drop_last() =~= p.drop_last());
        assert(q.last() == last + 1);
        assert(path_frames_rest(t, p) =~= pre_order_rest(t, q));
    } else {
        assert(parent.kids().skip(last + 1) =~= Seq::<(u64, Tree<V>)>::empty());
        assert(dfs_pairs(Seq::<(u64, Tree<V>)>::empty()) == Seq::<(u64, V)>::empty());
        assert(path_frames_rest(t, Seq::<usize>::empty()) == Seq::<(u64, V)>::empty());
        if p.len() == 1 {
            assert(p.drop_last() =~= Seq::<usize>::empty());
            assert(dfs_up_path(t, p) == dfs_up_path(t, p.drop_last()));
            assert(path_frames_rest(t, p) =~= Seq::<(u64, V)>::empty());
        } else {
            lemma_up_path_rest(t, p.drop_last());
            assert(path_frames_rest(t, p) =~= path_frames_rest(t, p.drop_last()));
        }
    }
}

/// Following `dfs_next_path` steps through the pre-order flattening one
/// pair at a time: what is owed at a node is that node's pair, then all
/// that is owed at its successor.
pub proof fn lemma_pre_order_step<V>(t: Tree<V>, p: Seq<usize>)
    requires
        path_valid(t, p),
        p.len() > 0,
    ensures
        pre_order_rest(t, p) == seq![(key_at(t, p), node_at(t, p).val())] + match dfs_next_path(
            t,
            p,
        ) {
            Some(q) => pre_order_rest(t, q),
            None => Seq::<(u64, V)>::empty(),
        },
        dfs_next_path(t, p) matches Some(q) ==> path_valid(t, q) && q.len() > 0,
{
    let here = node_at(t, p);
    if here.kids().len() > 0 {
        let q = p.push(0);
        lemma_path_push(t, p, 0);
        assert(q.drop_last() =~= p);
        assert(q.last() == 0);
        assert(here.kids().skip(1) =~= here.kids().drop_first());
        assert(dfs_pairs(here.kids()) == seq![(here.kids()[0].0, here.kids()[0].1.val())]
            + dfs_pairs(here.kids()[0].1.kids()) + dfs_pairs(here.kids().drop_first()));
        assert(pre_order_rest(t, p) =~= seq![(key_at(t, p), here.val())] + pre_order_rest(t, q));
    } else {
        lemma_up_path_rest(t, p);
        assert(dfs_pairs(here.kids()) =~= Seq::<(u64, V)>::empty());
        match dfs_up_path(t, p) {
            Some(q) => {
                assert(pre_order_rest(t, p) =~= seq![(key_at(t, p), here.val())] + pre_order_rest(
                    t,
                    q,
                ));
            },
            None => {
                assert(pre_order_rest(t, p) =~= seq![(key_at(t, p), here.val())]);
            },
        }
    }
}

/// The pre-order walk by successor paths starts on the whole flattening:
/// what is owed at the very first node is the entire depth-first order.
pub proof fn lemma_pre_order_start<V>(t: Tree<V>)
    requires
        t.kids().len() > 0,
    ensures
        path_valid(t, seq![0usize]),
        pre_order_rest(t, seq![0usize]) == dfs_pairs(t.kids()),
{
    let p = seq![0usize];
    lemma_path_push(t, Seq::<usize>::empty(), 0);
    assert(Seq::<usize>::empty().push(0usize) =~= p);
    assert(p.drop_last() =~= Seq::<usize>::empty());
    assert(p.last() == 0);
    assert(t.kids().skip(1) =~= t.kids().drop_first());
    assert(dfs_pairs(t.kids()) == seq![(t.kids()[0].0, t.kids()[0].1.val())] + dfs_pairs(
        t.kids()[0].1.kids(),
    ) + dfs_pairs(t.kids().drop_first()));
    assert(path_frames_rest(t, Seq::<usize>::empty()) == Seq::<(u64, V)>::empty());
    assert(node_at(t, Seq::<usize>::empty()) == t);
    assert(pre_order_rest(t, p) =~= dfs_pairs(t.kids()));
}

proof fn lemma_update_spine<V>(t: Tree<V>, t1: Tree<V>, p: Seq<usize>, v: V, d: int)
    requires
        path_valid(t, p),
        value_updated(t, t1, p, v),
        0 <= d <= p.len(),
    ensures
        value_updated(node_at(t, p.take(d)), node_at(t1, p.take(d)), p.skip(d), v),
    decreases d,
{
    if d == 0 {
        assert(p.take(0) =~= Seq::<usize>::empty());
        assert(p.skip(0) =~= p);
    } else {
        lemma_update_spine(t, t1, p, v, d - 1);
        lemma_path_take(t, p, d - 1);
        let m = node_at(t, p.take(d - 1));
        let m1 = node_at(t1, p.take(d - 1));
        assert(p.skip(d - 1)[0] == p[d - 1]);
        assert(p.skip(d - 1).drop_first() =~= p.skip(d));
        assert(value_updated(
            m.kids()[p[d - 1] as int].1,
            m1.kids()[p[d - 1] as int].1,
            p.skip(d),
            v,
        ));
        assert(node_at(t, p.take(d)) == m.kids()[p[d - 1] as int].1);
        lemma_path_take(t, p, d);
        lemma_value_updated_paths(t, t1, p, v, p.take(d - 1));
        lemma_value_updated_paths(t, t1, p, v, p.take(d));
        assert(node_at(t1, p.take(d)) == m1.kids()[p[d - 1] as int].1) by {
            assert(p.take(d).drop_last() =~= p.take(d - 1));
            lemma_path_take(t1, p.take(d), d - 1);
            assert(p.take(d).take(d - 1) =~= p.take(d - 1));
            assert(p.take(d).take(d) =~= p.take(d));
            assert(p.take(d)[d - 1] == p[d - 1]);
        }
    }
}

proof fn lemma_update_frames_rest<V>(t: Tree<V>, t1: Tree<V>, p: Seq<usize>, v: V, d: int)
    requires
        path_valid(t, p),
        value_updated(t, t1, p, v),
        0 <= d <= p.len(),
    ensures
        path_frames_rest(t1, p.take(d)) == path_frames_rest(t, p.take(d)),
    decreases d,
{
    if d == 0 {
        assert(p.take(0) =~= Seq::<usize>::empty());
    } else {
        lemma_update_frames_rest(t, t1, p, v, d - 1);
        lemma_update_spine(t, t1, p, v, d - 1);
        let r = p.take(d);
        assert(r.drop_last() =~= p.take(d - 1));
        assert(r.last() == p[d - 1]);
        let m = node_at(t, p.take(d - 1));
        let m1 = node_at(t1, p.take(d - 1));
        assert(p.skip(d - 1).len() > 0 && p.skip(d - 1)[0] == p[d - 1]);
        assert(m1.kids().skip(p[d - 1] + 1) =~= m.kids().skip(p[d - 1] + 1)) by {
            assert(m1.kids().len() == m.kids().len());
            assert(forall|j: int|
                0 <= j < m.kids().len() && j != p[d - 1] ==> m1.kids()[j] == m.kids()[j]);
        }
    }
}

/// Writing through the value handed out at `p` never touches what the
/// walk still owes: the successor node, and everything owed from it on,
/// reads the same before and after the write.
pub proof fn lemma_pre_order_rest_after_update<V>(t: Tree<V>, t1: Tree<V>, p: Seq<usize>, v: V)
    requires
        path_valid(t, p),
        p.len() > 0,
        value_updated(t, t1, p, v),
    ensures
        dfs_next_path(t, p) matches Some(q) ==> path_valid(t1, q) && pre_order_rest(t1, q)
            == pre_order_rest(t, q),
{
    let here = node_at(t, p);
    lemma_update_spine(t, t1, p, v, p.len() as int);
    assert(p.take(p.len() as int) =~= p);
    assert(p.skip(p.len() as int) =~= Seq::<usize>::empty());
    let here1 = node_at(t1, p);
    assert(here1.kids() == here.kids());
    lemma_value_updated_paths(t, t1, p, v, p);
    if here.kids().len() > 0 {
        let q = p.push(0);
        lemma_path_push(t, p, 0);
        lemma_path_push(t1, p, 0);
        assert(node_at(t1, q) == node_at(t, q));
        assert(key_at(t1, q) == key_at(t, q));
        assert(path_frames_rest(t1, q) == path_frames_rest(t, q)) by {
            assert(q.drop_last() =~= p);
            assert(q.last() == 0);
            lemma_update_frames_rest(t, t1, p, v, p.len() as int);
            assert(here1.kids().skip(1) == here.kids().skip(1));
        }
    } else {
        lemma_up_rest_after_update(t, t1, p, v, p.len() as int);
    }
}

proof fn lemma_up_rest_after_update<V>(t: Tree<V>, t1: Tree<V>, p: Seq<usize>, v: V, d: int)
    requires
        path_valid(t, p),
        value_updated(t, t1, p, v),
        1 <= d <= p.len(),
    ensures
        dfs_up_path(t, p.take(d)) matches Some(q) ==> path_valid(t1, q) && pre_order_rest(t1, q)
            == pre_order_rest(t, q),
    decreases d,
{
    let r = p.take(d);
    assert(r.drop_last() =~= p.take(d - 1));
    assert(r.last() == p[d - 1]);
    lemma_path_take(t, p, d - 1);
    lemma_update_spine(t, t1, p, v, d - 1);
    let m = node_at(t, p.take(d - 1));
    let m1 = node_at(t1, p.take(d - 1));
    assert(p.skip(d - 1).len() > 0 && p.skip(d - 1)[0] == p[d - 1]);
    assert(m1.kids().len() == m.kids().len());
    assert(forall|j: int|
        0 <= j < m.kids().len() && j != p[d - 1] ==> m1.kids()[j] == m.kids()[j]);
    if p[d - 1] + 1 < m.kids().len() {
        Tree::lemma_kids_len_bounded(m);
        let i = (p[d - 1] + 1) as usize;
        let q = p.take(d - 1).push(i);
        lemma_value_updated_paths(t, t1, p, v, p.take(d - 1));
        lemma_path_push(t, p.take(d - 1), i);
        lemma_path_push(t1, p.take(d - 1), i);
        assert(m1.kids()[i as int] == m.kids()[i as int]);
        assert(node_at(t1, q) == node_at(t, q));
        assert(key_at(t1, q) == key_at(t, q));
        assert(path_frames_rest(t1, q) == path_frames_rest(t, q)) by {
            assert(q.drop_last() =~= p.take(d - 1));
            assert(q.last() == i);
            lemma_update_frames_rest(t, t1, p, v, d - 1);
            assert(m1.kids().skip(i + 1) =~= m.kids().skip(i + 1));
        }
    } else {
        if d > 1 {
            lemma_up_rest_after_update(t, t1, p, v, d - 1);
        }
    }
}

/// A resumable pre-order walk that hands out exclusive references to the
/// values. It holds no borrow: the cursor names the current node by its
/// path of child indices, and each step takes the tree anew, so the
/// exclusive borrow of the whole tree never outlives a call.
pub struct DepthFirstIterMut {
    path: Vec<usize>,
    live: bool,
}

impl DepthFirstIterMut {
    /// The path of child indices to the node the walk will hand out next.
    pub closed spec fn cur_path(self) -> Seq<usize> {
        self.path@
    }

    /// Whether the walk still has a node to hand out.
    pub closed spec fn is_live(self) -> bool {
        self.live
    }

    /// A live cursor points at a real node of the tree.
    pub open spec fn inv<V>(self, t: Tree<V>) -> bool {
        self.is_live() ==> self.cur_path().len() > 0 && path_valid(t, self.cur_path())
    }

    pub(crate) fn new<V>(tree: &Tree<V>) -> (it: DepthFirstIterMut)
        ensures
            it.inv(*tree),
            tree.kids().len() > 0 ==> it.is_live() && it.cur_path() == seq![0usize],
            tree.kids().len() == 0 ==> !it.is_live(),
    {
        if tree.children.len() == 0 {
            DepthFirstIterMut { path: Vec::new(), live: false }
        } else {
            let mut path: Vec<usize> = Vec::new();
            path.push(0);
            proof {
                lemma_path_push(*tree, Seq::<usize>::empty(), 0);
                assert(path@ =~= Seq::<usize>::empty().push(0usize));
                assert(path@ =~= seq![0usize]);
            }
            DepthFirstIterMut { path, live: true }
        }
    }

    /// Moves the cursor to the next node in pre-order, or retires it once
    /// the walk is over.
    fn advance_to_next_node<V>(&mut self, tree: &Tree<V>)
        requires
            old(self).is_live(),
            old(self).cur_path().len() > 0,
            path_valid(*tree, old(self).cur_path()),
        ensures
            match dfs_next_path(*tree, old(self).cur_path()) {
                Some(q) => final(self).is_live() && final(self).cur_path() == q && path_valid(
                    *tree,
                    q,
                ) && q.len() > 0,
                None => !final(self).is_live(),
            },
    {
        let ghost p0 = self.path@;
        let len = self.path.len();
        proof {
            assert(p0.take(len as int) =~= p0);
        }
        let here = node_ref(tree, &self.path, len);
        if here.children.len() > 0 {
            self.path.push(0);
            proof {
                lemma_path_push(*tree, p0, 0);
            }
            return ;
        }
        loop
            invariant
                self.is_live(),
                p0 == old(self).cur_path(),
                path_valid(*tree, self.cur_path()),
                dfs_up_path(*tree, self.cur_path()) == dfs_next_path(*tree, p0),
            decreases self.cur_path().len(),
        {
            let ghost p = self.path@;
            let d = self.path.len();
            if d == 0 {
                self.live = false;
                return ;
            }
            proof {
                lemma_path_take(*tree, p, d - 1);
                assert(p.take(d - 1) =~= p.drop_last());
            }
            let parent = node_ref(tree, &self.path, d - 1);
            let last = self.path[d - 1];
            proof {
                assert(p[d - 1] == p.last());
            }
            if last < parent.children.len() - 1 {
                self.path.pop();
                self.path.push(last + 1);
                proof {
                    assert(self.path@ =~= p.drop_last().push((last + 1) as usize));
                    lemma_path_push(*tree, p.drop_last(), (last + 1) as usize);
                }
                return ;
            }
            self.path.pop();
            proof {
                assert(self.path@ =~= p.drop_last());
            }
        }
    }

    /// Produces the next node of the pre-order walk: its key and an
    /// exclusive reference to its value. Whatever the caller writes
    /// through the reference lands in that one node; the shape of the
    /// tree and every other value stay as they are.
    pub fn next<'x, V>(&mut self, tree: &'x mut Tree<V>) -> (r: Option<(u64, &'x mut V)>)
        requires
            old(self).inv(*old(tree)),
        ensures
            !old(self).is_live() ==> (r is None && *final(tree) == *old(tree) && *final(self)
                == *old(self)),
            old(self).is_live() ==> (r matches Some(y) && {
                let p = old(self).cur_path();
                let t0 = *old(tree);
                &&& y.0 == key_at(t0, p)
                &&& *y.1 == node_at(t0, p).val()
                &&& value_updated(t0, *final(tree), p, *final(y.1))
                &&& match dfs_next_path(t0, p) {
                    Some(q) => final(self).is_live() && final(self).cur_path() == q,
                    None => !final(self).is_live(),
                }
                &&& final(self).inv(*final(tree))
            }),
    {
        if !self.live {
            return None;
        }
        let ghost t0 = *tree;
        let ghost p0 = self.path@;
        let d = self.path.len();
        proof {
            lemma_path_take(t0, p0, d - 1);
            assert(p0.take(d - 1) =~= p0.drop_last());
        }
        let parent = node_ref(&*tree, &self.path, d - 1);
        let last = self.path[d - 1];
        proof {
            assert(p0[d - 1] == p0.last());
        }
        let k = parent.children[last].0;
        let cur_path = copy_path(&self.path);
        self.advance_to_next_node(&*tree);
        proof {
            assert(cur_path@.skip(0) =~= p0);
        }
        let v = value_at_mut(tree, &cur_path, 0);
        proof {
            assert forall|t1: Tree<V>, w: V, q: Seq<usize>|
                #![trigger value_updated(t0, t1, p0, w), path_valid(t0, q)]
                value_updated(t0, t1, p0, w) && path_valid(t0, q) implies path_valid(t1, q) by {
                lemma_value_updated_paths(t0, t1, p0, w, q);
            }
        }
        Some((k, v))
    }
}

impl<V> Tree<V> {
    /// A lazy pre-order walk over every strict descendant of this node: a
    /// node's pair comes out first, then its whole subtree, child by
    /// child in key order, before any of its later siblings.
    pub fn iter_depth_first(&self) -> (it: DepthFirstIter<'_, V>)
        ensures
            it.wf(),
            it.remaining() == dfs_pairs(self.kids()),
            self.kids().len() == 0 ==> it.cur() is None && it.frames().len() == 0,
            self.kids().len() > 0 ==> (it.cur() matches Some(q) && q.0 == self.kids()[0].0
                && *q.1 == self.kids()[0].1 && it.frames().len() == 1
                && it.frames()[0].remaining() == self.kids().drop_first()),
    {
        DepthFirstIter::new(self)
    }

    /// Runs one whole mutating pre-order walk over the tree, handing each
    /// value out exclusively in turn without writing, and returns the keys
    /// in visit order: every proper descendant is visited exactly once —
    /// the keys are exactly those of the depth-first order, one per node —
    /// and the tree's whole content is left as it was.
    pub fn visit_depth_first_mut(&mut self) -> (keys: Vec<u64>)
        ensures
            keys@.len() == dfs_pairs(old(self).kids()).len(),
            keys@.len() == size_pairs(old(self).kids()),
            forall|j: int|
                0 <= j < keys@.len() ==> keys@[j] == dfs_pairs(old(self).kids())[j].0,
            same_tree(*old(self), *final(self)),
    {
        let ghost t0 = *old(self);
        let mut keys: Vec<u64> = Vec::new();
        let mut it = self.iter_depth_first_mut();
        proof {
            if t0.kids().len() > 0 {
                lemma_pre_order_start(t0);
            }
            lemma_depth_first_counts_nodes(t0.kids());
            lemma_same_tree_reflexive(t0);
        }
        loop
            invariant
                t0 == *old(self),
                it.inv(*self),
                same_tree(t0, *self),
                keys@.len() <= dfs_pairs(t0.kids()).len(),
                forall|j: int|
                    0 <= j < keys@.len() ==> keys@[j] == dfs_pairs(t0.kids())[j].0,
                it.is_live() ==> it.cur_path().len() > 0 && path_valid(*self, it.cur_path())
                    && pre_order_rest(*self, it.cur_path()) == dfs_pairs(t0.kids()).skip(
                    keys@.len() as int,
                ),
                !it.is_live() ==> keys@.len() == dfs_pairs(t0.kids()).len(),
            decreases dfs_pairs(t0.kids()).len() - keys@.len(),
        {
            let ghost t_pre = *self;
            let ghost p = it.cur_path();
            let ghost live = it.is_live();
            let r = it.next(self);
            match r {
                None => {
                    proof {
                        assert(!live);
                        lemma_depth_first_counts_nodes(t0.kids());
                    }
                    return keys;
                },
                Some((k, v)) => {
                    proof {
                        assert(live);
                        lemma_pre_order_step(t_pre, p);
                        assert(pre_order_rest(t_pre, p)[0] == (k, *v));
                        assert(dfs_pairs(t0.kids()).skip(keys@.len() as int)[0] == dfs_pairs(
                            t0.kids(),
                        )[keys@.len() as int]);
                    }
                    keys.push(k);
                    proof {
                        lemma_same_value_update(t_pre, *self, p);
                        lemma_same_tree_transitive(t0, t_pre, *self);
                        match dfs_next_path(t_pre, p) {
                            Some(q) => {
                                lemma_pre_order_rest_after_update(t_pre, *self, p, *v);
                                assert(pre_order_rest(*self, q) == pre_order_rest(t_pre, q));
                                assert(pre_order_rest(t_pre, p).drop_first() =~= pre_order_rest(
                                    t_pre,
                                    q,
                                ));
                                assert(dfs_pairs(t0.kids()).skip(keys@.len() as int - 1)
                                    .drop_first() =~= dfs_pairs(t0.kids()).skip(
                                    keys@.len() as int,
                                ));
                            },
                            None => {
                                assert(pre_order_rest(t_pre, p) =~= seq![(k, *v)]);
                            },
                        }
                    }
                },
            }
        }
    }

    /// A resumable pre-order walk that hands the values out exclusively,
    /// one per step, each step taking the tree anew.
    pub fn iter_depth_first_mut(&mut self) -> (it: DepthFirstIterMut)
        ensures
            *final(self) == *old(self),
            it.inv(*old(self)),
            old(self).kids().len() > 0 ==> it.is_live() && it.cur_path() == seq![0usize],
            old(self).kids().len() == 0 ==> !it.is_live(),
    {
        DepthFirstIterMut::new(&*self)
    }
}

} // verus!
