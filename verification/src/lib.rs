//! A keyed tree container: every node holds one value and an ordered
//! association of `u64` keys to child subtrees. Children are kept in a
//! vector sorted by key, which fixes the iteration order that the
//! traversals rely on.
use vstd::prelude::*;

pub mod entry;
pub mod iterators;
pub mod model;

pub use crate::entry::{Entry, OccupiedEntry, VacantEntry};
pub use crate::iterators::breadth_first::{BreadthFirstIter, BreadthFirstIterMut};
pub use crate::iterators::depth_first::{DepthFirstIter, DepthFirstIterMut};
pub use crate::iterators::single::{SingleIter, SingleIterMut};

use crate::model::{
    assoc_get, assoc_remove, assoc_set, filter_by, has_key, key_seq, lemma_assoc_get_first,
    lemma_assoc_get_some, lemma_assoc_remove_at, lemma_assoc_remove_absent,
    lemma_assoc_set_inserts, lemma_assoc_set_members, lemma_assoc_set_replaces,
    lemma_assoc_set_sorted, lemma_filter_by_flags, lemma_filter_by_snoc, lemma_remove_sorted,
    sorted_keys,
};

verus! {

/// The pre-order depth-first traversal of a child sequence: each entry
/// contributes its own `(key, value)` pair, then its whole subtree, and
/// only then does the next sibling follow.
pub open spec fn dfs_pairs<V>(s: Seq<(u64, Tree<V>)>) -> Seq<(u64, V)>
    decreases s,
{
    if s.len() == 0 {
        Seq::empty()
    } else {
        seq![(s[0].0, s[0].1.val())] + dfs_pairs(s[0].1.kids()) + dfs_pairs(s.drop_first())
    }
}

/// How many nodes the subtrees of a child sequence hold in all.
pub open spec fn size_pairs<V>(s: Seq<(u64, Tree<V>)>) -> nat
    decreases s,
{
    if s.len() == 0 {
        0
    } else {
        1 + size_pairs(s[0].1.kids()) + size_pairs(s.drop_first())
    }
}

/// One tree node: a value plus the ordered children.
///
/// The children vector is sorted strictly by key; every public operation
/// preserves that, so a tree built through this interface is always
/// `well_formed`.
#[derive(Debug)]
pub struct Tree<V> {
    pub(crate) value: V,
    pub(crate) children: Vec<(u64, Tree<V>)>,
}

impl<V> Tree<V> {
    /// The node's value, as a spec-level projection.
    pub closed spec fn val(self) -> V {
        self.value
    }

    /// The ordered child sequence, as a spec-level projection.
    pub closed spec fn kids(self) -> Seq<(u64, Tree<V>)> {
        self.children@
    }

    /// Keys sorted strictly at this node and in every subtree.
    pub open spec fn well_formed(self) -> bool
        decreases self,
    {
        sorted_keys(self.kids()) && forall|i: int|
            #![trigger self.kids()[i]]
            0 <= i < self.kids().len() ==> self.kids()[i].1.well_formed()
    }

    /// A child sequence is backed by a vector, so its length fits the
    /// machine.
    pub proof fn lemma_kids_len_bounded(t: Tree<V>)
        ensures
            t.kids().len() <= usize::MAX,
    {
        vstd::std_specs::vec::axiom_spec_len(&t.children);
    }

    /// Well-formedness is about the children alone: the node's own value
    /// plays no part in it.
    pub proof fn lemma_well_formed_same_kids(a: Tree<V>, b: Tree<V>)
        requires
            a.kids() == b.kids(),
        ensures
            a.well_formed() == b.well_formed(),
    {
    }

    /// Rebinding a key to a well-formed subtree keeps the whole node
    /// well-formed.
    pub proof fn lemma_well_formed_set_child(p: Tree<V>, key: u64, t: Tree<V>, q: Tree<V>)
        requires
            p.well_formed(),
            t.well_formed(),
            q.kids() == assoc_set(p.kids(), key, t),
        ensures
            q.well_formed(),
    {
        lemma_assoc_set_sorted(p.kids(), key, t);
        lemma_assoc_set_members(p.kids(), key, t);
        assert forall|j: int| 0 <= j < q.kids().len() implies q.kids()[j].1.well_formed() by {
            if q.kids()[j] != (key, t) {
                let l = choose|l: int| 0 <= l < p.kids().len() && q.kids()[j] == p.kids()[l];
                assert(p.kids()[l].1.well_formed());
            }
        }
    }

    /// A fresh leaf: the given value, no children.
    pub fn new(value: V) -> (tree: Tree<V>)
        ensures
            tree.val() == value,
            tree.kids() == Seq::<(u64, Tree<V>)>::empty(),
            tree.well_formed(),
    {
        Tree { value, children: Vec::new() }
    }

    /// A shared reference to the node's value.
    pub fn value(&self) -> (v: &V)
        ensures
            *v == self.val(),
    {
        &self.value
    }

    /// An exclusive reference to the node's value; the children stay as
    /// they are whatever the caller writes through it.
    pub fn value_mut(&mut self) -> (v: &mut V)
        ensures
            *v == old(self).val(),
            final(self).val() == *final(v),
            final(self).kids() == old(self).kids(),
    {
        &mut self.value
    }

    /// Replaces the node's value and hands the previous one back.
    pub fn set_value(&mut self, value: V) -> (prev: V)
        ensures
            prev == old(self).val(),
            final(self).val() == value,
            final(self).kids() == old(self).kids(),
    {
        let mut value = value;
        core::mem::swap(&mut self.value, &mut value);
        value
    }

    /// How many direct children the node has.
    pub fn child_count(&mut self) -> (n: usize)
        ensures
            n == old(self).kids().len(),
            *final(self) == *old(self),
    {
        self.children.len()
    }

    /// Whether the node has no children.
    pub fn is_childless(&self) -> (b: bool)
        ensures
            b == (self.kids().len() == 0),
    {
        self.children.len() == 0
    }

    /// Drops all children, and with them their entire subtrees.
    pub fn clear(&mut self)
        ensures
            final(self).val() == old(self).val(),
            final(self).kids() == Seq::<(u64, Tree<V>)>::empty(),
    {
        self.children.clear();
    }

    /// The index of the first child carrying the key, if any.
    fn find_child_index(&self, key: u64) -> (r: Option<usize>)
        ensures
            match r {
                Some(i) => i < self.kids().len() && self.kids()[i as int].0 == key && forall|j: int|
                    0 <= j < i ==> self.kids()[j].0 != key,
                None => !has_key(self.kids(), key),
            },
    {
        let n = self.children.len();
        let mut i: usize = 0;
        while i < n
            invariant
                i <= n,
                n == self.kids().len(),
                forall|j: int| 0 <= j < i ==> self.kids()[j].0 != key,
            decreases n - i,
        {
            if self.children[i].0 == key {
                return Some(i);
            }
            i += 1;
        }
        None
    }

    /// Whether a direct child carries the key.
    pub fn contains_key(&self, key: u64) -> (b: bool)
        ensures
            b == has_key(self.kids(), key),
    {
        self.find_child_index(key).is_some()
    }

    /// The child subtree under the key, if any.
    pub fn get_child(&self, key: u64) -> (r: Option<&Tree<V>>)
        ensures
            match r {
                Some(c) => assoc_get(self.kids(), key) == Some(*c),
                None => !has_key(self.kids(), key),
            },
    {
        proof {
            lemma_assoc_get_some(self.kids(), key);
        }
        match self.find_child_index(key) {
            Some(i) => {
                proof {
                    lemma_assoc_get_first(self.kids(), key, i as int);
                }
                Some(&self.children[i].1)
            },
            None => None,
        }
    }

    /// The key together with the child subtree under it, if any.
    pub fn get_key_value(&self, key: u64) -> (r: Option<(u64, &Tree<V>)>)
        ensures
            match r {
                Some(p) => p.0 == key && assoc_get(self.kids(), key) == Some(*p.1),
                None => !has_key(self.kids(), key),
            },
    {
        proof {
            lemma_assoc_get_some(self.kids(), key);
        }
        match self.find_child_index(key) {
            Some(i) => {
                proof {
                    lemma_assoc_get_first(self.kids(), key, i as int);
                }
                Some((key, &self.children[i].1))
            },
            None => None,
        }
    }

    /// An exclusive reference to the child subtree under the key, if any.
    /// The rest of the tree stays as it is whatever the caller writes
    /// through it.
    pub fn get_child_mut(&mut self, key: u64) -> (r: Option<&mut Tree<V>>)
        requires
            old(self).well_formed(),
        ensures
            match r {
                Some(c) => {
                    &&& assoc_get(old(self).kids(), key) == Some(*c)
                    &&& c.well_formed()
                    &&& final(self).val() == old(self).val()
                    &&& final(self).kids() == assoc_set(old(self).kids(), key, *final(c))
                    &&& final(c).well_formed() ==> final(self).well_formed()
                },
                None => !has_key(old(self).kids(), key) && *final(self) == *old(self),
            },
    {
        proof {
            lemma_assoc_get_some(self.kids(), key);
        }
        match self.find_child_index(key) {
            Some(i) => {
                proof {
                    lemma_assoc_get_first(self.kids(), key, i as int);
                }
                let c = &mut self.children[i].1;
                proof {
                    lemma_assoc_set_replaces(old(self).kids(), key, *final(c), i as int);
                    lemma_assoc_set_sorted(old(self).kids(), key, *final(c));
                }
                Some(c)
            },
            None => None,
        }
    }

    /// Binds the key to the given value. An existing child keeps its whole
    /// subtree: only its value is swapped out and handed back. An absent
    /// key gets a fresh childless leaf. Either way the child now under the
    /// key is also returned, exclusively borrowed.
    pub fn add_child(&mut self, key: u64, value: V) -> (r: (Option<V>, &mut Tree<V>))
        requires
            old(self).well_formed(),
        ensures
            final(self).val() == old(self).val(),
            final(self).kids() == assoc_set(old(self).kids(), key, *final(r.1)),
            final(r.1).well_formed() ==> final(self).well_formed(),
            r.1.val() == value,
            r.1.well_formed(),
            match assoc_get(old(self).kids(), key) {
                Some(c) => r.0 == Some(c.val()) && r.1.kids() == c.kids(),
                None => r.0 is None && r.1.kids() == Seq::<(u64, Tree<V>)>::empty(),
            },
    {
        let mut value = value;
        let n = self.children.len();
        let mut i: usize = 0;
        while i < n && self.children[i].0 < key
            invariant
                i <= n,
                n == self.kids().len(),
                forall|j: int| 0 <= j < i ==> self.kids()[j].0 < key,
            decreases n - i,
        {
            i += 1;
        }
        if i < n && self.children[i].0 == key {
            proof {
                lemma_assoc_get_first(self.kids(), key, i as int);
            }
            let child = &mut self.children[i].1;
            core::mem::swap(&mut value, &mut child.value);
            proof {
                lemma_assoc_set_replaces(old(self).kids(), key, *final(child), i as int);
                lemma_assoc_set_sorted(old(self).kids(), key, *final(child));
                Tree::lemma_well_formed_same_kids(
                    *child,
                    old(self).kids()[i as int].1,
                );
            }
            (Some(value), child)
        } else {
            proof {
                assert(forall|j: int|
                    i <= j < old(self).kids().len() ==> old(self).kids()[i as int].0 <= old(
                        self,
                    ).kids()[j].0);
                assert(!has_key(old(self).kids(), key));
                lemma_assoc_get_some(old(self).kids(), key);
            }
            let leaf = Tree { value, children: Vec::new() };
            self.children.insert(i, (key, leaf));
            let child = &mut self.children[i].1;
            proof {
                lemma_assoc_set_inserts(old(self).kids(), key, *final(child), i as int);
                lemma_assoc_set_sorted(old(self).kids(), key, *final(child));
                assert(old(self).kids().insert(i as int, (key, *final(child))) =~= old(
                    self,
                ).kids().insert(i as int, (key, *child)).update(i as int, (key, *final(child))));
            }
            (None, child)
        }
    }

    /// Detaches and returns the child under the key, with its entire
    /// subtree; absent keys leave the tree untouched.
    pub fn remove(&mut self, key: u64) -> (r: Option<Tree<V>>)
        ensures
            final(self).val() == old(self).val(),
            final(self).kids() == assoc_remove(old(self).kids(), key),
            match r {
                Some(c) => assoc_get(old(self).kids(), key) == Some(c),
                None => !has_key(old(self).kids(), key),
            },
            old(self).well_formed() ==> final(self).well_formed(),
    {
        proof {
            lemma_assoc_get_some(self.kids(), key);
        }
        match self.find_child_index(key) {
            Some(i) => {
                proof {
                    lemma_assoc_get_first(self.kids(), key, i as int);
                    lemma_assoc_remove_at(self.kids(), key, i as int);
                    if old(self).well_formed() {
                        lemma_remove_sorted(self.kids(), i as int);
                        assert(forall|j: int|
                            0 <= j < self.kids().remove(i as int).len()
                                ==> self.kids().remove(i as int)[j] == if j < i {
                                self.kids()[j]
                            } else {
                                self.kids()[j + 1]
                            });
                    }
                }
                let p = self.children.remove(i);
                Some(p.1)
            },
            None => {
                proof {
                    lemma_assoc_remove_absent(self.kids(), key);
                }
                None
            },
        }
    }

    /// Like `remove`, but hands the key back together with the subtree.
    pub fn remove_entry(&mut self, key: u64) -> (r: Option<(u64, Tree<V>)>)
        ensures
            final(self).val() == old(self).val(),
            final(self).kids() == assoc_remove(old(self).kids(), key),
            match r {
                Some(p) => p.0 == key && assoc_get(old(self).kids(), key) == Some(p.1),
                None => !has_key(old(self).kids(), key),
            },
            old(self).well_formed() ==> final(self).well_formed(),
    {
        match self.remove(key) {
            Some(c) => Some((key, c)),
            None => None,
        }
    }

    /// The keys of the direct children, in order.
    pub fn children_keys(&self) -> (r: Vec<u64>)
        ensures
            r@ == key_seq(self.kids()),
    {
        let n = self.children.len();
        let mut r: Vec<u64> = Vec::new();
        let mut i: usize = 0;
        while i < n
            invariant
                i <= n,
                n == self.kids().len(),
                r@.len() == i,
                forall|j: int| 0 <= j < i ==> r@[j] == self.kids()[j].0,
            decreases n - i,
        {
            r.push(self.children[i].0);
            i += 1;
        }
        proof {
            assert(r@ =~= key_seq(self.kids()));
        }
        r
    }

    /// The direct children, in key order.
    pub fn children(&self) -> (r: Vec<&Tree<V>>)
        ensures
            r@.len() == self.kids().len(),
            forall|j: int| 0 <= j < r@.len() ==> *r@[j] == self.kids()[j].1,
    {
        let n = self.children.len();
        let mut r: Vec<&Tree<V>> = Vec::new();
        let mut i: usize = 0;
        while i < n
            invariant
                i <= n,
                n == self.kids().len(),
                r@.len() == i,
                forall|j: int| 0 <= j < i ==> *r@[j] == self.kids()[j].1,
            decreases n - i,
        {
            r.push(&self.children[i].1);
            i += 1;
        }
        r
    }

    /// An exclusive reference to the child at the given position in key
    /// order.
    pub fn children_mut(&mut self, index: usize) -> (c: &mut Tree<V>)
        requires
            index < old(self).kids().len(),
        ensures
            *c == old(self).kids()[index as int].1,
            final(self).val() == old(self).val(),
            final(self).kids() == old(self).kids().update(
                index as int,
                (old(self).kids()[index as int].0, *final(c)),
            ),
    {
        &mut self.children[index].1
    }

    /// Keeps exactly the children the predicate approves, asking once per
    /// child in key order; a dropped child takes its whole subtree with
    /// it.
    pub fn retain<F: Fn(&u64, &Tree<V>) -> bool>(&mut self, f: F)
        requires
            forall|k: &u64, c: &Tree<V>| #[trigger] f.requires((k, c)),
        ensures
            final(self).val() == old(self).val(),
            exists|keep: Seq<bool>|
                {
                    &&& keep.len() == old(self).kids().len()
                    &&& final(self).kids() == filter_by(old(self).kids(), keep)
                    &&& forall|i: int|
                        0 <= i < keep.len() ==> #[trigger] f.ensures(
                            (&old(self).kids()[i].0, &old(self).kids()[i].1),
                            keep[i],
                        )
                },
            old(self).well_formed() ==> final(self).well_formed(),
    {
        let ghost kids0 = self.kids();
        let mut rest: Vec<(u64, Tree<V>)> = Vec::new();
        core::mem::swap(&mut self.children, &mut rest);
        let mut kept: Vec<(u64, Tree<V>)> = Vec::new();
        let ghost mut keep: Seq<bool> = Seq::empty();
        let ghost n = kids0.len();
        while rest.len() > 0
            invariant
                forall|k: &u64, c: &Tree<V>| #[trigger] f.requires((k, c)),
                keep.len() + rest@.len() == n,
                n == kids0.len(),
                rest@ == kids0.skip(keep.len() as int),
                self.kids() == Seq::<(u64, Tree<V>)>::empty(),
                self.val() == old(self).val(),
                kids0 == old(self).kids(),
                kept@ == filter_by(kids0.take(keep.len() as int), keep),
                forall|j: int|
                    0 <= j < keep.len() ==> #[trigger] f.ensures(
                        (&kids0[j].0, &kids0[j].1),
                        keep[j],
                    ),
                forall|j: int|
                    0 <= j < kept@.len() ==> exists|l: int|
                        0 <= l < keep.len() && #[trigger] kept@[j] == kids0[l],
                old(self).well_formed() ==> sorted_keys(kept@) && forall|j: int|
                    0 <= j < kept@.len() ==> (#[trigger] kept@[j]).1.well_formed(),
            decreases rest@.len(),
        {
            let ghost i = keep.len() as int;
            let p = rest.remove(0);
            proof {
                assert(p == kids0[i]);
                assert(rest@ =~= kids0.skip(i + 1));
            }
            let b = f(&p.0, &p.1);
            proof {
                lemma_filter_by_flags(kids0.take(i), keep, keep.push(b));
                lemma_filter_by_snoc(kids0, keep.push(b), i);
                keep = keep.push(b);
            }
            if b {
                kept.push(p);
            }
        }
        proof {
            assert(kids0.take(n as int) =~= kids0);
        }
        core::mem::swap(&mut self.children, &mut kept);
    }

    /// Consumes the node and hands out its direct children as ordered
    /// `(key, subtree)` pairs; the node's own value is dropped.
    pub fn into_iter(self) -> (r: Vec<(u64, Tree<V>)>)
        ensures
            r@ == self.kids(),
    {
        self.children
    }

    /// Consumes the node and hands out the keys of its direct children.
    pub fn into_keys(self) -> (r: Vec<u64>)
        ensures
            r@ == key_seq(self.kids()),
    {
        self.children_keys()
    }

    /// Consumes the node and hands out its direct child subtrees in key
    /// order.
    pub fn into_values(self) -> (r: Vec<Tree<V>>)
        ensures
            r@.len() == self.kids().len(),
            forall|j: int| 0 <= j < r@.len() ==> r@[j] == self.kids()[j].1,
    {
        let mut children = self.children;
        let ghost kids0 = children@;
        let mut r: Vec<Tree<V>> = Vec::new();
        while children.len() > 0
            invariant
                r@.len() + children@.len() == kids0.len(),
                children@ =~= kids0.skip(r@.len() as int),
                forall|j: int| 0 <= j < r@.len() ==> r@[j] == kids0[j].1,
            decreases children@.len(),
        {
            let p = children.remove(0);
            r.push(p.1);
        }
        r
    }
}

/// Content equality: the same value, the same keys in the same
/// arrangement, and the same values everywhere below. (Two trees of
/// equal content need not be spec-equal, since a vector is more than
/// its view.)
pub open spec fn same_tree<V>(a: Tree<V>, b: Tree<V>) -> bool
    decreases a,
{
    &&& b.val() == a.val()
    &&& b.kids().len() == a.kids().len()
    &&& forall|j: int|
        0 <= j < a.kids().len() ==> (#[trigger] b.kids()[j]).0 == a.kids()[j].0 && same_tree(
            a.kids()[j].1,
            b.kids()[j].1,
        )
}

/// Content equality is reflexive.
pub proof fn lemma_same_tree_reflexive<V>(a: Tree<V>)
    ensures
        same_tree(a, a),
    decreases a,
{
    assert forall|j: int| 0 <= j < a.kids().len() implies same_tree(
        a.kids()[j].1,
        #[trigger] a.kids()[j].1,
    ) by {
        lemma_same_tree_reflexive(a.kids()[j].1);
    }
}

/// Content equality chains.
pub proof fn lemma_same_tree_transitive<V>(a: Tree<V>, b: Tree<V>, c: Tree<V>)
    requires
        same_tree(a, b),
        same_tree(b, c),
    ensures
        same_tree(a, c),
    decreases a,
{
    assert forall|j: int| 0 <= j < a.kids().len() implies (#[trigger] c.kids()[j]).0
        == a.kids()[j].0 && same_tree(a.kids()[j].1, c.kids()[j].1) by {
        lemma_same_tree_transitive(a.kids()[j].1, b.kids()[j].1, c.kids()[j].1);
    }
}

/// Putting a node's own value back changes nothing: an update that
/// writes the value the node already holds leaves the whole content as
/// it was.
pub proof fn lemma_same_value_update<V>(t: Tree<V>, t1: Tree<V>, p: Seq<usize>)
    requires
        model::path_valid(t, p),
        model::value_updated(t, t1, p, model::node_at(t, p).val()),
    ensures
        same_tree(t, t1),
    decreases p.len(),
{
    if p.len() == 0 {
        lemma_same_tree_reflexive(t);
        assert(same_tree(t, t1)) by {
            assert(t1.kids() == t.kids());
            assert(forall|j: int|
                0 <= j < t.kids().len() ==> (#[trigger] t1.kids()[j]) == t.kids()[j]);
            assert forall|j: int| 0 <= j < t.kids().len() implies same_tree(
                t.kids()[j].1,
                #[trigger] t1.kids()[j].1,
            ) by {
                lemma_same_tree_reflexive(t.kids()[j].1);
            }
        }
    } else {
        let i = p[0] as int;
        lemma_same_value_update(t.kids()[i].1, t1.kids()[i].1, p.drop_first());
        assert forall|j: int| 0 <= j < t.kids().len() implies (#[trigger] t1.kids()[j]).0
            == t.kids()[j].0 && same_tree(t.kids()[j].1, t1.kids()[j].1) by {
            if j != i {
                assert(t1.kids()[j] == t.kids()[j]);
                lemma_same_tree_reflexive(t.kids()[j].1);
            }
        }
    }
}

/// Content equality holds node for node: every path valid in one tree
/// is valid in the other and leads to a content-equal node under the
/// same key.
pub proof fn lemma_same_tree_at_paths<V>(a: Tree<V>, b: Tree<V>, p: Seq<usize>)
    requires
        same_tree(a, b),
        model::path_valid(a, p),
    ensures
        model::path_valid(b, p),
        same_tree(model::node_at(a, p), model::node_at(b, p)),
        p.len() > 0 ==> model::key_at(b, p) == model::key_at(a, p),
    decreases p.len(),
{
    if p.len() == 0 {
    } else {
        let i = p[0] as int;
        lemma_same_tree_at_paths(a.kids()[i].1, b.kids()[i].1, p.drop_first());
        if p.len() == 1 {
            assert(p.drop_last() =~= Seq::<usize>::empty());
        } else {
            assert(p.drop_last()[0] == p[0]);
            assert(p.drop_last().drop_first() =~= p.drop_first().drop_last());
            assert(p.drop_last().len() > 0);
            assert(p.drop_first().last() == p.last());
        }
    }
}

/// How a cloned tree relates to its source: the same keys in the same
/// arrangement, every value a possible output of `V::clone` on its
/// counterpart.
pub open spec fn cloned_tree<V: Clone>(a: Tree<V>, b: Tree<V>) -> bool
    decreases a,
{
    &&& vstd::pervasive::cloned::<V>(a.val(), b.val())
    &&& b.kids().len() == a.kids().len()
    &&& forall|j: int|
        0 <= j < a.kids().len() ==> (#[trigger] b.kids()[j]).0 == a.kids()[j].0 && cloned_tree(
            a.kids()[j].1,
            b.kids()[j].1,
        )
}

fn clone_tree<V: Clone>(t: &Tree<V>) -> (r: Tree<V>)
    ensures
        cloned_tree(*t, r),
    decreases *t,
{
    let value = t.value.clone();
    let mut children: Vec<(u64, Tree<V>)> = Vec::new();
    let n = t.children.len();
    let mut i: usize = 0;
    while i < n
        invariant
            i <= n,
            n == t.kids().len(),
            vstd::pervasive::cloned::<V>(t.val(), value),
            children@.len() == i,
            forall|j: int|
                0 <= j < i ==> (#[trigger] children@[j]).0 == t.kids()[j].0 && cloned_tree(
                    t.kids()[j].1,
                    children@[j].1,
                ),
        decreases n - i,
    {
        let k = t.children[i].0;
        let c = clone_tree(&t.children[i].1);
        children.push((k, c));
        i += 1;
    }
    Tree { value, children }
}

impl<V: Clone> Clone for Tree<V> {
    /// Clones the whole tree: the keys and the arrangement carry over
    /// exactly, each value through `V::clone`.
    fn clone(&self) -> (r: Self)
        ensures
            cloned_tree(*self, r),
    {
        clone_tree(self)
    }
}

} // verus!
