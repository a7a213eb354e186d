//! The single-level iterator: a lazy walk over one node's direct
//! children, in key order. Both deeper traversals are built from it.
use vstd::prelude::*;

use crate::model::{lemma_path_take, node_at, path_valid, value_updated};
use crate::Tree;

verus! {

/// A cursor over the direct children of one node.
pub struct SingleIter<'a, V> {
    node: &'a Tree<V>,
    pos: usize,
}

impl<'a, V> SingleIter<'a, V> {
    /// The children the cursor has not yet produced, in order.
    pub closed spec fn remaining(self) -> Seq<(u64, Tree<V>)> {
        if self.pos as int <= self.node.kids().len() {
            self.node.kids().skip(self.pos as int)
        } else {
            Seq::empty()
        }
    }

    pub(crate) fn new(node: &'a Tree<V>) -> (it: SingleIter<'a, V>)
        ensures
            it.remaining() == node.kids(),
    {
        proof {
            assert(node.kids().skip(0) =~= node.kids());
        }
        SingleIter { node, pos: 0 }
    }

    /// Produces the next `(key, child)` pair, or nothing once every child
    /// has been seen.
    pub fn next(&mut self) -> (r: Option<(u64, &'a Tree<V>)>)
        ensures
            old(self).remaining().len() > 0 ==> (r matches Some(p) && p.0 == old(
                self,
            ).remaining()[0].0 && *p.1 == old(self).remaining()[0].1 && final(self).remaining()
                == old(self).remaining().drop_first()),
            old(self).remaining().len() == 0 ==> (r is None && *final(self) == *old(self)),
    {
        if self.pos < self.node.children.len() {
            let p = &self.node.children[self.pos];
            self.pos += 1;
            proof {
                assert(self.node.kids().skip(self.pos as int) =~= old(self).remaining().drop_first());
            }
            Some((p.0, &p.1))
        } else {
            None
        }
    }
}

/// A cursor over the direct children of one node, for walks that hand
/// out exclusive references. It holds no borrow itself: each step takes
/// the tree anew, so the splitting of one exclusive borrow into value and
/// children never outlives a call.
pub struct SingleIterMut {
    pos: usize,
}

impl SingleIterMut {
    /// How many children the cursor has already produced.
    pub closed spec fn at(self) -> int {
        self.pos as int
    }

    pub(crate) fn new() -> (it: SingleIterMut)
        ensures
            it.at() == 0,
    {
        SingleIterMut { pos: 0 }
    }

    /// Produces the next child exclusively, or nothing once every child
    /// has been seen. Whatever the caller writes through the reference
    /// lands in that child's slot; the rest of the tree stays as it is.
    pub fn next<'x, V>(&mut self, tree: &'x mut Tree<V>) -> (r: Option<(u64, &'x mut Tree<V>)>)
        ensures
            old(self).at() < old(tree).kids().len() ==> (r matches Some((k, c)) && {
                &&& k == old(tree).kids()[old(self).at()].0
                &&& *c == old(tree).kids()[old(self).at()].1
                &&& final(tree).val() == old(tree).val()
                &&& final(tree).kids() == old(tree).kids().update(old(self).at(), (k, *final(c)))
                &&& final(self).at() == old(self).at() + 1
            }),
            old(self).at() >= old(tree).kids().len() ==> (r is None && *final(tree) == *old(tree)
                && *final(self) == *old(self)),
    {
        if self.pos < tree.children.len() {
            let i = self.pos;
            self.pos = i + 1;
            let k = tree.children[i].0;
            Some((k, &mut tree.children[i].1))
        } else {
            None
        }
    }
}

/// Copies a path of child indices.
pub(crate) fn copy_path(path: &Vec<usize>) -> (r: Vec<usize>)
    ensures
        r@ == path@,
{
    let mut r: Vec<usize> = Vec::new();
    let n = path.len();
    let mut i: usize = 0;
    while i < n
        invariant
            i <= n,
            n == path@.len(),
            r@ == path@.take(i as int),
        decreases n - i,
    {
        r.push(path[i]);
        proof {
            assert(r@ =~= path@.take(i + 1));
        }
        i += 1;
    }
    proof {
        assert(path@.take(n as int) =~= path@);
    }
    r
}

/// Walks a prefix of the path down from `tree`, sharing the borrow.
pub(crate) fn node_ref<'x, V>(tree: &'x Tree<V>, path: &Vec<usize>, upto: usize) -> (r: &'x Tree<
    V,
>)
    requires
        upto <= path@.len(),
        path_valid(*tree, path@.take(upto as int)),
    ensures
        *r == node_at(*tree, path@.take(upto as int)),
{
    let ghost p = path@.take(upto as int);
    let mut cur: &Tree<V> = tree;
    let mut d: usize = 0;
    proof {
        assert(p.take(0) =~= Seq::<usize>::empty());
    }
    while d < upto
        invariant
            d <= upto,
            upto <= path@.len(),
            p == path@.take(upto as int),
            path_valid(*tree, p),
            *cur == node_at(*tree, p.take(d as int)),
        decreases upto - d,
    {
        proof {
            lemma_path_take(*tree, p, d as int);
            assert(p[d as int] == path@[d as int]);
        }
        let i = path[d];
        let next: &Tree<V> = &cur.children[i].1;
        proof {
            lemma_path_take(*tree, p, d + 1);
        }
        cur = next;
        d += 1;
    }
    proof {
        assert(p.take(upto as int) =~= p);
    }
    cur
}

/// Walks the whole path down from `tree` and hands out the node's value
/// exclusively. Whatever the caller writes through the reference lands in
/// that one node; everything else stays as it is.
pub(crate) fn value_at_mut<'x, V>(tree: &'x mut Tree<V>, path: &Vec<usize>, depth: usize) -> (v:
    &'x mut V)
    requires
        depth <= path@.len(),
        path_valid(*old(tree), path@.skip(depth as int)),
    ensures
        *v == node_at(*old(tree), path@.skip(depth as int)).val(),
        value_updated(*old(tree), *final(tree), path@.skip(depth as int), *final(v)),
    decreases path@.len() - depth,
{
    if depth == path.len() {
        proof {
            assert(path@.skip(depth as int) =~= Seq::<usize>::empty());
        }
        &mut tree.value
    } else {
        let ghost sfx = path@.skip(depth as int);
        proof {
            assert(sfx[0] == path@[depth as int]);
            assert(sfx.drop_first() =~= path@.skip(depth as int + 1));
        }
        let i = path[depth];
        let v = value_at_mut(&mut tree.children[i].1, path, depth + 1);
        v
    }
}

impl<V> Tree<V> {
    /// A lazy walk over this node's direct children, in key order,
    /// without descending into them.
    pub fn iter_single(&self) -> (it: SingleIter<'_, V>)
        ensures
            it.remaining() == self.kids(),
    {
        SingleIter::new(self)
    }

    /// A lazy walk over this node's direct children that hands each out
    /// exclusively; the cursor holds no borrow, each step takes the tree.
    pub fn iter_single_mut(&mut self) -> (it: SingleIterMut)
        ensures
            *final(self) == *old(self),
            it.at() == 0,
    {
        SingleIterMut::new()
    }
}

} // verus!
