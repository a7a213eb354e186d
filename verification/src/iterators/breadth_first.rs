//! The breadth-first iterator: a lazy level-order walk kept on an
//! explicit first-in-first-out queue of single-level cursors, so whole
//! levels come out before anything deeper.
use vstd::prelude::*;

use crate::iterators::single::{copy_path, node_ref, value_at_mut, SingleIter};
use crate::model::{
    key_at, lemma_path_push, lemma_value_updated_paths, node_at, path_valid, value_updated,
};
use crate::{
    lemma_same_tree_at_paths, lemma_same_tree_reflexive, lemma_same_tree_transitive,
    lemma_same_value_update, same_tree, size_pairs, Tree,
};

verus! {

/// How many nodes a queue of sibling groups holds in all, the groups'
/// subtrees included.
pub open spec fn size_groups<V>(q: Seq<Seq<(u64, Tree<V>)>>) -> nat
    decreases q.len(),
{
    if q.len() == 0 {
        0
    } else {
        size_pairs(q[0]) + size_groups(q.drop_first())
    }
}

proof fn lemma_size_groups_push<V>(q: Seq<Seq<(u64, Tree<V>)>>, g: Seq<(u64, Tree<V>)>)
    ensures
        size_groups(q.push(g)) == size_groups(q) + size_pairs(g),
    decreases q.len(),
{
    if q.len() == 0 {
        assert(q.push(g)[0] == g);
        assert(q.push(g).drop_first() =~= q);
    } else {
        assert(q.push(g).drop_first() =~= q.drop_first().push(g));
        lemma_size_groups_push(q.drop_first(), g);
    }
}

/// What a queue of sibling groups yields, worked off front to back: the
/// front group's next entry comes out, and that entry's own children are
/// queued at the very back — so each whole level is produced before any
/// node of the next one.
pub open spec fn bfs_groups<V>(q: Seq<Seq<(u64, Tree<V>)>>) -> Seq<(u64, V)>
    decreases size_groups(q), q.len(),
    via bfs_groups_decreases::<V>
{
    if q.len() == 0 {
        Seq::empty()
    } else if q[0].len() == 0 {
        bfs_groups(q.drop_first())
    } else {
        seq![(q[0][0].0, q[0][0].1.val())] + bfs_groups(
            q.update(0, q[0].drop_first()).push(q[0][0].1.kids()),
        )
    }
}

#[via_fn]
proof fn bfs_groups_decreases<V>(q: Seq<Seq<(u64, Tree<V>)>>) {
    if q.len() != 0 {
        if q[0].len() != 0 {
            let p = q[0][0];
            let shifted = q.update(0, q[0].drop_first());
            lemma_size_groups_push(shifted, p.1.kids());
            assert(shifted.drop_first() =~= q.drop_first());
            assert(size_groups(shifted) == size_pairs(q[0].drop_first()) + size_groups(
                q.drop_first(),
            ));
            assert(size_pairs(q[0]) == 1 + size_pairs(p.1.kids()) + size_pairs(
                q[0].drop_first(),
            ));
        }
    }
}

/// The `(key, value)` pairs of one sibling group, in order.
pub open spec fn group_pairs<V>(g: Seq<(u64, Tree<V>)>) -> Seq<(u64, V)> {
    g.map_values(|p: (u64, Tree<V>)| (p.0, p.1.val()))
}

/// The pairs of a queue of sibling groups, group by group.
pub open spec fn flat_pairs<V>(q: Seq<Seq<(u64, Tree<V>)>>) -> Seq<(u64, V)>
    decreases q.len(),
{
    if q.len() == 0 {
        Seq::empty()
    } else {
        group_pairs(q[0]) + flat_pairs(q.drop_first())
    }
}

/// Each entry of one sibling group replaced by its own children group.
pub open spec fn child_groups_of<V>(g: Seq<(u64, Tree<V>)>) -> Seq<Seq<(u64, Tree<V>)>> {
    g.map_values(|p: (u64, Tree<V>)| p.1.kids())
}

/// The children groups of every entry of every group, in order: the next
/// level down of a queue of sibling groups.
pub open spec fn next_level<V>(q: Seq<Seq<(u64, Tree<V>)>>) -> Seq<Seq<(u64, Tree<V>)>>
    decreases q.len(),
{
    if q.len() == 0 {
        Seq::empty()
    } else {
        child_groups_of(q[0]) + next_level(q.drop_first())
    }
}

/// Strict level order: every pair of the present level, in group order
/// and key order within each group, and only then — level under level —
/// the pairs of the children of exactly those nodes.
pub open spec fn level_order<V>(q: Seq<Seq<(u64, Tree<V>)>>) -> Seq<(u64, V)>
    decreases size_groups(q), q.len(),
    via level_order_decreases::<V>
{
    if q.len() == 0 {
        Seq::empty()
    } else {
        flat_pairs(q) + level_order(next_level(q))
    }
}

proof fn lemma_size_groups_concat<V>(a: Seq<Seq<(u64, Tree<V>)>>, b: Seq<Seq<(u64, Tree<V>)>>)
    ensures
        size_groups(a + b) == size_groups(a) + size_groups(b),
    decreases a.len(),
{
    if a.len() == 0 {
        assert(a + b =~= b);
    } else {
        assert((a + b)[0] == a[0]);
        assert((a + b).drop_first() =~= a.drop_first() + b);
        lemma_size_groups_concat(a.drop_first(), b);
    }
}

/// A group's entries weigh one node more than their children groups.
proof fn lemma_size_child_groups<V>(g: Seq<(u64, Tree<V>)>)
    ensures
        size_pairs(g) == size_groups(child_groups_of(g)) + g.len(),
    decreases g.len(),
{
    if g.len() == 0 {
        assert(child_groups_of(g) =~= Seq::<Seq<(u64, Tree<V>)>>::empty());
    } else {
        lemma_size_child_groups(g.drop_first());
        assert(child_groups_of(g)[0] == g[0].1.kids());
        assert(child_groups_of(g).drop_first() =~= child_groups_of(g.drop_first()));
    }
}

/// The next level down weighs exactly one node per present entry less.
proof fn lemma_size_next_level<V>(q: Seq<Seq<(u64, Tree<V>)>>)
    ensures
        size_groups(q) == size_groups(next_level(q)) + entry_count(q),
    decreases q.len(),
{
    if q.len() > 0 {
        lemma_size_next_level(q.drop_first());
        lemma_size_child_groups(q[0]);
        lemma_size_groups_concat(child_groups_of(q[0]), next_level(q.drop_first()));
    }
}

/// How many entries a queue of sibling groups holds.
pub open spec fn entry_count<V>(q: Seq<Seq<(u64, Tree<V>)>>) -> nat
    decreases q.len(),
{
    if q.len() == 0 {
        0
    } else {
        q[0].len() + entry_count(q.drop_first())
    }
}

#[via_fn]
proof fn level_order_decreases<V>(q: Seq<Seq<(u64, Tree<V>)>>) {
    if q.len() != 0 {
        lemma_size_next_level(q);
        if entry_count(q) == 0 {
            assert(next_level(q).len() == 0) by {
                lemma_next_level_of_empties(q);
            }
        }
    }
}

proof fn lemma_next_level_of_empties<V>(q: Seq<Seq<(u64, Tree<V>)>>)
    requires
        entry_count(q) == 0,
    ensures
        next_level(q).len() == 0,
    decreases q.len(),
{
    if q.len() > 0 {
        assert(q[0].len() == 0);
        assert(child_groups_of(q[0]) =~= Seq::<Seq<(u64, Tree<V>)>>::empty());
        lemma_next_level_of_empties(q.drop_first());
        assert(next_level(q) =~= next_level(q.drop_first()));
    }
}

/// Working off the front group first: its pairs come out, and its
/// entries' children groups take their place at the very back.
proof fn lemma_bfs_rotate<V>(g: Seq<(u64, Tree<V>)>, x: Seq<Seq<(u64, Tree<V>)>>)
    ensures
        bfs_groups(seq![g] + x) == group_pairs(g) + bfs_groups(x + child_groups_of(g)),
    decreases g.len(),
{
    let q = seq![g] + x;
    assert(q[0] == g);
    if g.len() == 0 {
        assert(q.drop_first() =~= x);
        assert(child_groups_of(g) =~= Seq::<Seq<(u64, Tree<V>)>>::empty());
        assert(x + child_groups_of(g) =~= x);
        assert(group_pairs(g) =~= Seq::<(u64, V)>::empty());
        assert(group_pairs(g) + bfs_groups(x) =~= bfs_groups(x));
    } else {
        let p = g[0];
        let q2 = q.update(0, g.drop_first()).push(p.1.kids());
        assert(bfs_groups(q) == seq![(p.0, p.1.val())] + bfs_groups(q2));
        assert(q2 =~= seq![g.drop_first()] + (x + seq![p.1.kids()]));
        lemma_bfs_rotate(g.drop_first(), x + seq![p.1.kids()]);
        assert((x + seq![p.1.kids()]) + child_groups_of(g.drop_first()) =~= x + child_groups_of(
            g,
        )) by {
            assert(child_groups_of(g)[0] == p.1.kids());
            assert(child_groups_of(g).drop_first() =~= child_groups_of(g.drop_first()));
        }
        assert(group_pairs(g) =~= seq![(p.0, p.1.val())] + group_pairs(g.drop_first()));
        assert(bfs_groups(q) =~= group_pairs(g) + bfs_groups(x + child_groups_of(g)));
    }
}

/// Appended groups wait their turn: the queue's own pairs come out
/// first, then the walk goes on with the tail and the queue's children.
proof fn lemma_bfs_level_step<V>(q: Seq<Seq<(u64, Tree<V>)>>, tail: Seq<Seq<(u64, Tree<V>)>>)
    ensures
        bfs_groups(q + tail) == flat_pairs(q) + bfs_groups(tail + next_level(q)),
    decreases q.len(),
{
    if q.len() == 0 {
        assert(q + tail =~= tail);
        assert(tail + next_level(q) =~= tail);
        assert(flat_pairs(q) + bfs_groups(tail) =~= bfs_groups(tail));
    } else {
        let g = q[0];
        assert(q + tail =~= seq![g] + (q.drop_first() + tail));
        lemma_bfs_rotate(g, q.drop_first() + tail);
        assert((q.drop_first() + tail) + child_groups_of(g) =~= q.drop_first() + (tail
            + child_groups_of(g)));
        lemma_bfs_level_step(q.drop_first(), tail + child_groups_of(g));
        assert((tail + child_groups_of(g)) + next_level(q.drop_first()) =~= tail + next_level(
            q,
        )) by {
            assert(next_level(q) =~= child_groups_of(g) + next_level(q.drop_first()));
        }
        assert(bfs_groups(q + tail) =~= flat_pairs(q) + bfs_groups(tail + next_level(q))) by {
            assert(flat_pairs(q) == group_pairs(g) + flat_pairs(q.drop_first()));
        }
    }
}

/// The breadth-first order is strict level order: all pairs of one depth
/// come out, in group order and key order within each group, before any
/// pair one level deeper.
pub proof fn lemma_breadth_first_level_order<V>(q: Seq<Seq<(u64, Tree<V>)>>)
    ensures
        bfs_groups(q) == level_order(q),
    decreases size_groups(q), q.len(),
{
    if q.len() > 0 {
        assert(q + Seq::<Seq<(u64, Tree<V>)>>::empty() =~= q);
        assert(Seq::<Seq<(u64, Tree<V>)>>::empty() + next_level(q) =~= next_level(q));
        lemma_bfs_level_step(q, Seq::<Seq<(u64, Tree<V>)>>::empty());
        lemma_size_next_level(q);
        if entry_count(q) == 0 {
            lemma_next_level_of_empties(q);
        }
        lemma_breadth_first_level_order(next_level(q));
    }
}

/// A walk yields one pair per node: nothing is skipped, nothing comes
/// round twice.
pub proof fn lemma_breadth_first_counts_nodes<V>(q: Seq<Seq<(u64, Tree<V>)>>)
    ensures
        bfs_groups(q).len() == size_groups(q),
    decreases size_groups(q), q.len(),
{
    if q.len() != 0 {
        if q[0].len() == 0 {
            lemma_breadth_first_counts_nodes(q.drop_first());
        } else {
            let p = q[0][0];
            let shifted = q.update(0, q[0].drop_first());
            let q2 = shifted.push(p.1.kids());
            lemma_size_groups_push(shifted, p.1.kids());
            assert(shifted.drop_first() =~= q.drop_first());
            lemma_breadth_first_counts_nodes(q2);
        }
    }
}

/// A node without children has an empty walk.
pub proof fn lemma_breadth_first_of_leaf<V>(g: Seq<(u64, Tree<V>)>)
    requires
        g.len() == 0,
    ensures
        bfs_groups(seq![g]) == Seq::<(u64, V)>::empty(),
{
    assert(seq![g].drop_first() =~= Seq::<Seq<(u64, Tree<V>)>>::empty());
    assert(bfs_groups(seq![g]) == bfs_groups(Seq::<Seq<(u64, Tree<V>)>>::empty()));
}

/// A resumable level-order walk over a tree's strict descendants.
///
/// `current` is the sibling group being drained; the queue holds, oldest
/// first, the child groups of every node already produced.
pub struct BreadthFirstIter<'a, V> {
    queue: Vec<SingleIter<'a, V>>,
    current: SingleIter<'a, V>,
}

impl<'a, V> BreadthFirstIter<'a, V> {
    /// The sibling group being drained.
    pub closed spec fn cur(self) -> SingleIter<'a, V> {
        self.current
    }

    /// The queued sibling groups, oldest first.
    pub closed spec fn pending(self) -> Seq<SingleIter<'a, V>> {
        self.queue@
    }

    /// The walk's whole state as a queue of sibling groups.
    pub open spec fn groups(self) -> Seq<Seq<(u64, Tree<V>)>> {
        seq![self.cur().remaining()] + self.pending().map_values(
            |it: SingleIter<'a, V>| it.remaining(),
        )
    }

    /// The pairs the walk has not produced yet, in level order.
    pub open spec fn remaining(self) -> Seq<(u64, V)> {
        bfs_groups(self.groups())
    }

    pub(crate) fn new(tree: &'a Tree<V>) -> (it: Self)
        ensures
            it.remaining() == bfs_groups(seq![tree.kids()]),
    {
        let it = BreadthFirstIter { queue: Vec::new(), current: tree.iter_single() };
        proof {
            assert(it.groups() =~= seq![tree.kids()]);
        }
        it
    }

    /// Produces the next `(key, value)` pair of the level-order walk, or
    /// nothing once every descendant has been visited.
    pub fn next(&mut self) -> (r: Option<(u64, &'a V)>)
        ensures
            old(self).remaining().len() > 0 ==> (r matches Some(p) && p.0 == old(
                self,
            ).remaining()[0].0 && *p.1 == old(self).remaining()[0].1 && final(self).remaining()
                == old(self).remaining().drop_first()),
            old(self).remaining().len() == 0 ==> (r is None && final(self).remaining() == old(
                self,
            ).remaining()),
    {
        let ghost target: Seq<(u64, V)> = old(self).remaining();
        loop
            invariant
                self.remaining() == target,
                target == old(self).remaining(),
            decreases self.pending().len(),
        {
            let ghost pre = *self;
            let n = self.current.next();
            match n {
                Some((k, t)) => {
                    let ghost g = pre.cur().remaining();
                    self.queue.push(t.iter_single());
                    proof {
                        assert(self.groups() =~= pre.groups().update(0, g.drop_first()).push(
                            t.kids(),
                        ));
                        assert(pre.groups()[0] == g && g.len() > 0 && g[0] == (k, *t));
                        assert(bfs_groups(pre.groups()) == seq![(k, t.val())] + bfs_groups(
                            self.groups(),
                        ));
                        assert(target[0] == (k, t.val()));
                        assert(self.remaining() =~= target.drop_first());
                    }
                    return Some((k, &t.value));
                },
                None => {
                    proof {
                        assert(self.groups() =~= pre.groups());
                    }
                    if self.queue.len() == 0 {
                        proof {
                            assert(self.groups()[0].len() == 0);
                            assert(self.groups().drop_first() =~= Seq::<
                                Seq<(u64, Tree<V>)>,
                            >::empty());
                            assert(self.remaining() == bfs_groups(
                                Seq::<Seq<(u64, Tree<V>)>>::empty(),
                            ));
                            assert(target =~= Seq::<(u64, V)>::empty());
                        }
                        return None;
                    }
                    let ghost mid = *self;
                    let it = self.queue.remove(0);
                    self.current = it;
                    proof {
                        assert(mid.groups()[0].len() == 0);
                        assert(self.groups() =~= mid.groups().drop_first());
                    }
                },
            }
        }
    }
}

/// One step of the level-order walk over named nodes: the current group
/// (the children of the node at `cur`, from index `pos`) yields its next
/// entry and that entry's path joins the back of the queue; a drained
/// group is dropped for the one at the front of the queue; with nothing
/// left anywhere, the walk is over.
pub open spec fn bfs_mut_step<V>(
    t: Tree<V>,
    cur: Seq<usize>,
    pos: usize,
    queue: Seq<Seq<usize>>,
) -> Option<(Seq<usize>, (Seq<usize>, usize, Seq<Seq<usize>>))>
    decreases queue.len(),
{
    if pos < node_at(t, cur).kids().len() {
        Some((cur.push(pos), (cur, (pos + 1) as usize, queue.push(cur.push(pos)))))
    } else if queue.len() == 0 {
        None
    } else {
        bfs_mut_step(t, queue[0], 0, queue.drop_first())
    }
}

/// The sibling groups a walk over named nodes stands for: the children
/// of the node at `cur` from index `pos` on, then the children of each
/// queued node.
pub open spec fn groups_at<V>(
    t: Tree<V>,
    cur: Seq<usize>,
    pos: usize,
    queue: Seq<Seq<usize>>,
) -> Seq<Seq<(u64, Tree<V>)>> {
    seq![node_at(t, cur).kids().skip(pos as int)] + queue.map_values(
        |p: Seq<usize>| node_at(t, p).kids(),
    )
}

/// `bfs_mut_step` walks the same level order as the borrowing iterator:
/// what the named groups still owe is the stepped-to node's pair, then
/// all that the successor state owes.
pub proof fn lemma_level_order_step<V>(
    t: Tree<V>,
    cur: Seq<usize>,
    pos: usize,
    queue: Seq<Seq<usize>>,
)
    requires
        path_valid(t, cur),
        pos <= node_at(t, cur).kids().len(),
        forall|i: int| 0 <= i < queue.len() ==> path_valid(t, #[trigger] queue[i]),
    ensures
        bfs_groups(groups_at(t, cur, pos, queue)) == match bfs_mut_step(t, cur, pos, queue) {
            Some(step) => seq![(key_at(t, step.0), node_at(t, step.0).val())] + bfs_groups(
                groups_at(t, step.1.0, step.1.1, step.1.2),
            ),
            None => Seq::<(u64, V)>::empty(),
        },
        bfs_mut_step(t, cur, pos, queue) matches Some(step) ==> path_valid(t, step.0)
            && step.0.len() > 0 && path_valid(t, step.1.0) && step.1.1 <= node_at(
            t,
            step.1.0,
        ).kids().len() && forall|i: int|
            0 <= i < step.1.2.len() ==> path_valid(t, #[trigger] step.1.2[i]),
    decreases queue.len(),
{
    let kids = node_at(t, cur).kids();
    let q = groups_at(t, cur, pos, queue);
    assert(q[0] == kids.skip(pos as int));
    if pos < kids.len() {
        Tree::lemma_kids_len_bounded(node_at(t, cur));
        let target = cur.push(pos);
        lemma_path_push(t, cur, pos);
        let g = kids.skip(pos as int);
        assert(g[0] == kids[pos as int]);
        assert(g.len() > 0);
        let q2 = q.update(0, g.drop_first()).push(kids[pos as int].1.kids());
        assert(bfs_groups(q) == seq![(g[0].0, g[0].1.val())] + bfs_groups(q2));
        assert(q2 =~= groups_at(t, cur, (pos + 1) as usize, queue.push(target))) by {
            assert(g.drop_first() =~= kids.skip(pos + 1));
            assert(node_at(t, target) == kids[pos as int].1);
            assert(queue.push(target).map_values(|p: Seq<usize>| node_at(t, p).kids())
                =~= queue.map_values(|p: Seq<usize>| node_at(t, p).kids()).push(
                node_at(t, target).kids(),
            ));
        }
        assert(key_at(t, target) == g[0].0 && node_at(t, target).val() == g[0].1.val());
        assert(forall|i: int|
            0 <= i < queue.push(target).len() ==> path_valid(
                t,
                #[trigger] queue.push(target)[i],
            ));
    } else {
        assert(kids.skip(pos as int) =~= Seq::<(u64, Tree<V>)>::empty());
        if queue.len() == 0 {
            assert(q.drop_first() =~= Seq::<Seq<(u64, Tree<V>)>>::empty());
            assert(bfs_groups(q) == bfs_groups(Seq::<Seq<(u64, Tree<V>)>>::empty()));
        } else {
            Tree::lemma_kids_len_bounded(node_at(t, queue[0]));
            lemma_level_order_step(t, queue[0], 0, queue.drop_first());
            assert(q.drop_first() =~= groups_at(t, queue[0], 0, queue.drop_first())) by {
                assert(node_at(t, queue[0]).kids().skip(0) =~= node_at(t, queue[0]).kids());
                assert(queue.drop_first().map_values(|p: Seq<usize>| node_at(t, p).kids())
                    =~= queue.map_values(|p: Seq<usize>| node_at(t, p).kids()).drop_first());
            }
            assert(bfs_groups(q) == bfs_groups(q.drop_first()));
        }
    }
}

/// Entry-for-entry content equality of two sibling groups.
pub open spec fn same_group<V>(g1: Seq<(u64, Tree<V>)>, g2: Seq<(u64, Tree<V>)>) -> bool {
    g1.len() == g2.len() && forall|j: int|
        0 <= j < g1.len() ==> (#[trigger] g2[j]).0 == g1[j].0 && same_tree(g1[j].1, g2[j].1)
}

/// Group-for-group content equality of two queues of sibling groups.
pub open spec fn same_groups<V>(q1: Seq<Seq<(u64, Tree<V>)>>, q2: Seq<Seq<(u64, Tree<V>)>>) -> bool {
    q1.len() == q2.len() && forall|i: int| 0 <= i < q1.len() ==> same_group(#[trigger] q1[i], q2[i])
}

/// The level-order output reads only keys and values, so content-equal
/// queues of groups yield the same pairs.
pub proof fn lemma_bfs_groups_congruent<V>(q1: Seq<Seq<(u64, Tree<V>)>>, q2: Seq<Seq<(u64, Tree<V>)>>)
    requires
        same_groups(q1, q2),
    ensures
        bfs_groups(q1) == bfs_groups(q2),
    decreases size_groups(q1), q1.len(),
{
    if q1.len() == 0 {
    } else if q1[0].len() == 0 {
        assert(q2[0].len() == 0);
        assert(same_groups(q1.drop_first(), q2.drop_first())) by {
            assert(forall|i: int|
                0 <= i < q1.drop_first().len() ==> q1.drop_first()[i] == q1[i + 1]
                    && q2.drop_first()[i] == q2[i + 1]);
        }
        lemma_bfs_groups_congruent(q1.drop_first(), q2.drop_first());
    } else {
        let p1 = q1[0][0];
        let p2 = q2[0][0];
        assert(p2.0 == p1.0 && same_tree(p1.1, p2.1));
        let n1 = q1.update(0, q1[0].drop_first()).push(p1.1.kids());
        let n2 = q2.update(0, q2[0].drop_first()).push(p2.1.kids());
        assert(same_groups(n1, n2)) by {
            assert(same_group(q1[0].drop_first(), q2[0].drop_first())) by {
                assert(forall|j: int|
                    0 <= j < q1[0].drop_first().len() ==> q1[0].drop_first()[j] == q1[0][j + 1]
                        && q2[0].drop_first()[j] == q2[0][j + 1]);
            }
            assert(same_group(p1.1.kids(), p2.1.kids()));
            assert(forall|i: int|
                0 <= i < n1.len() ==> n1[i] == (if i == 0 {
                    q1[0].drop_first()
                } else if i < q1.len() {
                    q1[i]
                } else {
                    p1.1.kids()
                }) && n2[i] == (if i == 0 {
                    q2[0].drop_first()
                } else if i < q2.len() {
                    q2[i]
                } else {
                    p2.1.kids()
                }));
        }
        let shifted = q1.update(0, q1[0].drop_first());
        lemma_size_groups_push(shifted, p1.1.kids());
        assert(shifted.drop_first() =~= q1.drop_first());
        assert(size_groups(shifted) == size_pairs(q1[0].drop_first()) + size_groups(
            q1.drop_first(),
        ));
        assert(size_pairs(q1[0]) == 1 + size_pairs(p1.1.kids()) + size_pairs(
            q1[0].drop_first(),
        ));
        lemma_bfs_groups_congruent(n1, n2);
    }
}

/// A resumable level-order walk that hands out exclusive references to
/// the values. It holds no borrow: groups are named by the path to their
/// parent node, and each step takes the tree anew, so the exclusive
/// borrow of the whole tree never outlives a call.
pub struct BreadthFirstIterMut {
    group: Vec<usize>,
    pos: usize,
    queue: Vec<Vec<usize>>,
}

impl BreadthFirstIterMut {
    /// The path to the node whose children are being drained.
    pub closed spec fn cur_group(self) -> Seq<usize> {
        self.group@
    }

    /// How many of that node's children have been produced.
    pub closed spec fn at(self) -> usize {
        self.pos
    }

    /// The paths to the queued nodes, whose children come later.
    pub closed spec fn queued(self) -> Seq<Seq<usize>> {
        self.queue@.map_values(|p: Vec<usize>| p@)
    }

    /// Every named node is a real node of the tree.
    pub open spec fn inv<V>(self, t: Tree<V>) -> bool {
        path_valid(t, self.cur_group()) && forall|i: int|
            0 <= i < self.queued().len() ==> path_valid(t, #[trigger] self.queued()[i])
    }

    pub(crate) fn new() -> (it: BreadthFirstIterMut)
        ensures
            it.cur_group() == Seq::<usize>::empty(),
            it.at() == 0,
            it.queued() == Seq::<Seq<usize>>::empty(),
    {
        let it = BreadthFirstIterMut { group: Vec::new(), pos: 0, queue: Vec::new() };
        proof {
            assert(it.queued() =~= Seq::<Seq<usize>>::empty());
        }
        it
    }

    /// Produces the next node of the level-order walk: its key and an
    /// exclusive reference to its value. Whatever the caller writes
    /// through the reference lands in that one node; the shape of the
    /// tree and every other value stay as they are.
    pub fn next<'x, V>(&mut self, tree: &'x mut Tree<V>) -> (r: Option<(u64, &'x mut V)>)
        requires
            old(self).inv(*old(tree)),
        ensures
            match bfs_mut_step(*old(tree), old(self).cur_group(), old(self).at(), old(self).queued()) {
                None => {
                    &&& r is None
                    &&& *final(tree) == *old(tree)
                    &&& final(self).inv(*final(tree))
                    &&& bfs_mut_step(
                        *old(tree),
                        final(self).cur_group(),
                        final(self).at(),
                        final(self).queued(),
                    ) is None
                },
                Some(step) => (r matches Some(y) && {
                    let t0 = *old(tree);
                    &&& y.0 == key_at(t0, step.0)
                    &&& *y.1 == node_at(t0, step.0).val()
                    &&& value_updated(t0, *final(tree), step.0, *final(y.1))
                    &&& final(self).cur_group() == step.1.0
                    &&& final(self).at() == step.1.1
                    &&& final(self).queued() == step.1.2
                    &&& final(self).inv(*final(tree))
                }),
            },
    {
        let ghost t0 = *old(tree);
        loop
            invariant
                t0 == *old(tree),
                *tree == t0,
                self.inv(t0),
                bfs_mut_step(t0, self.cur_group(), self.at(), self.queued()) == bfs_mut_step(
                    t0,
                    old(self).cur_group(),
                    old(self).at(),
                    old(self).queued(),
                ),
            decreases self.queue@.len(),
        {
            let glen = self.group.len();
            proof {
                assert(self.group@.take(glen as int) =~= self.group@);
            }
            let node = node_ref(&*tree, &self.group, glen);
            if self.pos < node.children.len() {
                let ghost pre = *self;
                let i = self.pos;
                let k = node.children[i].0;
                let mut target = copy_path(&self.group);
                target.push(i);
                let entry = copy_path(&target);
                self.queue.push(entry);
                self.pos = i + 1;
                proof {
                    assert(target@ =~= pre.cur_group().push(i));
                    lemma_path_push(t0, pre.cur_group(), i);
                    assert(self.queued() =~= pre.queued().push(target@));
                    assert(key_at(t0, target@) == k);
                    assert(target@.skip(0) =~= target@);
                }
                let v = value_at_mut(tree, &target, 0);
                proof {
                    assert forall|t1: Tree<V>, w: V, q: Seq<usize>|
                        #![trigger value_updated(t0, t1, target@, w), path_valid(t0, q)]
                        value_updated(t0, t1, target@, w) && path_valid(t0, q)
                        implies path_valid(t1, q) by {
                        lemma_value_updated_paths(t0, t1, target@, w, q);
                    }
                }
                return Some((k, v));
            }
            if self.queue.len() == 0 {
                return None;
            }
            let ghost pre = *self;
            let next_group = self.queue.remove(0);
            self.group = next_group;
            self.pos = 0;
            proof {
                assert(self.queued() =~= pre.queued().drop_first());
                assert(self.cur_group() == pre.queued()[0]);
            }
        }
    }
}

impl<V> Tree<V> {
    /// A lazy level-order walk over every strict descendant of this node:
    /// all nodes of one depth come out, oldest sibling group first and in
    /// key order within each group, before any node one level deeper.
    pub fn iter_breadth_first(&self) -> (it: BreadthFirstIter<'_, V>)
        ensures
            it.remaining() == bfs_groups(seq![self.kids()]),
            it.remaining() == level_order(seq![self.kids()]),
    {
        proof {
            lemma_breadth_first_level_order(seq![self.kids()]);
        }
        BreadthFirstIter::new(self)
    }

    /// Runs one whole mutating level-order walk over the tree, handing
    /// each value out exclusively in turn without writing, and returns
    /// the keys in visit order: every proper descendant is visited
    /// exactly once — the keys are exactly those of the level order, one
    /// per node — and the tree's whole content is left as it was.
    pub fn visit_breadth_first_mut(&mut self) -> (keys: Vec<u64>)
        ensures
            keys@.len() == bfs_groups(seq![old(self).kids()]).len(),
            keys@.len() == size_pairs(old(self).kids()),
            forall|j: int|
                0 <= j < keys@.len() ==> keys@[j] == bfs_groups(seq![old(self).kids()])[j].0,
            same_tree(*old(self), *final(self)),
    {
        let ghost t0 = *old(self);
        let mut keys: Vec<u64> = Vec::new();
        let mut it = self.iter_breadth_first_mut();
        proof {
            assert(groups_at(t0, Seq::<usize>::empty(), 0, Seq::<Seq<usize>>::empty())
                =~= seq![t0.kids()]) by {
                assert(t0.kids().skip(0) =~= t0.kids());
                assert(Seq::<Seq<usize>>::empty().map_values(
                    |p: Seq<usize>| node_at(t0, p).kids(),
                ) =~= Seq::<Seq<(u64, Tree<V>)>>::empty());
            }
            lemma_same_tree_reflexive(t0);
        }
        loop
            invariant
                t0 == *old(self),
                it.inv(*self),
                it.at() <= node_at(*self, it.cur_group()).kids().len(),
                same_tree(t0, *self),
                keys@.len() <= bfs_groups(seq![t0.kids()]).len(),
                forall|j: int|
                    0 <= j < keys@.len() ==> keys@[j] == bfs_groups(seq![t0.kids()])[j].0,
                bfs_groups(groups_at(*self, it.cur_group(), it.at(), it.queued())) == bfs_groups(
                    seq![t0.kids()],
                ).skip(keys@.len() as int),
            decreases bfs_groups(seq![t0.kids()]).len() - keys@.len(),
        {
            let ghost t_pre = *self;
            let ghost cur = it.cur_group();
            let ghost pos = it.at();
            let ghost queued = it.queued();
            proof {
                lemma_level_order_step(t_pre, cur, pos, queued);
            }
            let r = it.next(self);
            match r {
                None => {
                    proof {
                        lemma_breadth_first_counts_nodes(seq![t0.kids()]);
                        assert(size_groups(seq![t0.kids()]) == size_pairs(t0.kids())) by {
                            assert(seq![t0.kids()][0] == t0.kids());
                            assert(seq![t0.kids()].drop_first() =~= Seq::<
                                Seq<(u64, Tree<V>)>,
                            >::empty());
                            assert(size_groups(Seq::<Seq<(u64, Tree<V>)>>::empty()) == 0);
                        }
                    }
                    return keys;
                },
                Some((k, v)) => {
                    let ghost step = bfs_mut_step(t_pre, cur, pos, queued)->0;
                    proof {
                        assert(bfs_groups(groups_at(t_pre, cur, pos, queued))[0] == (k, *v));
                    }
                    keys.push(k);
                    proof {
                        let t_now = *self;
                        lemma_same_value_update(t_pre, t_now, step.0);
                        lemma_same_tree_transitive(t0, t_pre, t_now);
                        let g1 = groups_at(t_pre, step.1.0, step.1.1, step.1.2);
                        let g2 = groups_at(t_now, step.1.0, step.1.1, step.1.2);
                        assert(same_groups(g1, g2)) by {
                            lemma_same_tree_at_paths(t_pre, t_now, step.1.0);
                            let a = node_at(t_pre, step.1.0);
                            let b = node_at(t_now, step.1.0);
                            assert(same_group(
                                a.kids().skip(step.1.1 as int),
                                b.kids().skip(step.1.1 as int),
                            )) by {
                                assert(forall|j: int|
                                    0 <= j < a.kids().skip(step.1.1 as int).len()
                                        ==> a.kids().skip(step.1.1 as int)[j] == a.kids()[j
                                        + step.1.1] && b.kids().skip(step.1.1 as int)[j]
                                        == b.kids()[j + step.1.1]);
                            }
                            assert forall|i: int| 0 <= i < step.1.2.len() implies same_group(
                                node_at(t_pre, #[trigger] step.1.2[i]).kids(),
                                node_at(t_now, step.1.2[i]).kids(),
                            ) by {
                                lemma_same_tree_at_paths(t_pre, t_now, step.1.2[i]);
                            }
                            assert(forall|i: int|
                                0 <= i < g1.len() ==> g1[i] == (if i == 0 {
                                    a.kids().skip(step.1.1 as int)
                                } else {
                                    node_at(t_pre, step.1.2[i - 1]).kids()
                                }) && g2[i] == (if i == 0 {
                                    b.kids().skip(step.1.1 as int)
                                } else {
                                    node_at(t_now, step.1.2[i - 1]).kids()
                                }));
                        }
                        lemma_bfs_groups_congruent(g1, g2);
                        lemma_same_tree_at_paths(t_pre, t_now, step.1.0);
                        assert(bfs_groups(seq![t0.kids()]).skip(keys@.len() as int - 1)
                            .drop_first() =~= bfs_groups(seq![t0.kids()]).skip(
                            keys@.len() as int,
                        ));
                    }
                },
            }
        }
    }

    /// A resumable level-order walk that hands the values out
    /// exclusively, one per step, each step taking the tree anew.
    pub fn iter_breadth_first_mut(&mut self) -> (it: BreadthFirstIterMut)
        ensures
            *final(self) == *old(self),
            it.cur_group() == Seq::<usize>::empty(),
            it.at() == 0,
            it.queued() == Seq::<Seq<usize>>::empty(),
            it.inv(*old(self)),
    {
        BreadthFirstIterMut::new()
    }
}

} // verus!
