//! The upsert handle: a single lookup yields either an `Occupied` or a
//! `Vacant` entry, which scopes an exclusive borrow of the parent node and
//! is consumed by exactly one resolving operation.
use vstd::prelude::*;

use crate::model::{
    assoc_get, assoc_remove, assoc_set, has_key, key_insert_pos, lemma_assoc_get_first,
    lemma_assoc_get_some, lemma_assoc_remove_at, lemma_assoc_set_inserts,
    lemma_assoc_set_replaces, lemma_assoc_set_sorted, lemma_key_insert_pos, lemma_key_insert_pos_unique,
    lemma_remove_sorted,
};
use crate::Tree;

verus! {

/// A handle on a child slot that holds a subtree.
pub struct OccupiedEntry<'a, V> {
    pub(crate) parent: &'a mut Tree<V>,
    pub(crate) index: usize,
}

/// A handle on the gap where a missing key would go.
pub struct VacantEntry<'a, V> {
    pub(crate) parent: &'a mut Tree<V>,
    pub(crate) key: u64,
    pub(crate) index: usize,
}

/// The result of a lookup-or-create request on a parent node.
pub enum Entry<'a, V> {
    Occupied(OccupiedEntry<'a, V>),
    Vacant(VacantEntry<'a, V>),
}

impl<'a, V> OccupiedEntry<'a, V> {
    /// The exclusive borrow of the parent node the entry scopes.
    pub closed spec fn parent_ref(self) -> &'a mut Tree<V> {
        self.parent
    }

    /// The parent node as it stands while the entry is held.
    pub closed spec fn parent_now(self) -> Tree<V> {
        mut_ref_current(self.parent)
    }

    /// The index of the entry's slot in the parent's child sequence.
    pub closed spec fn slot(self) -> int {
        self.index as int
    }

    /// The key the entry is bound to.
    pub open spec fn spec_key(self) -> u64 {
        self.parent_now().kids()[self.slot()].0
    }

    /// The child subtree in the entry's slot.
    pub open spec fn child_now(self) -> Tree<V> {
        self.parent_now().kids()[self.slot()].1
    }

    /// The handle points at a real slot of a well-formed parent.
    pub open spec fn wf(self) -> bool {
        0 <= self.slot() < self.parent_now().kids().len() && self.parent_now().well_formed()
    }
}

impl<'a, V> VacantEntry<'a, V> {
    /// The exclusive borrow of the parent node the entry scopes.
    pub closed spec fn parent_ref(self) -> &'a mut Tree<V> {
        self.parent
    }

    /// The parent node as it stands while the entry is held.
    pub closed spec fn parent_now(self) -> Tree<V> {
        mut_ref_current(self.parent)
    }

    /// The position at which the key would be inserted in key order.
    pub closed spec fn slot(self) -> int {
        self.index as int
    }

    /// The key the entry is bound to.
    pub closed spec fn spec_key(self) -> u64 {
        self.key
    }

    /// The key is absent and the slot is its ordered insertion point in a
    /// well-formed parent.
    pub open spec fn wf(self) -> bool {
        &&& !has_key(self.parent_now().kids(), self.spec_key())
        &&& self.slot() == key_insert_pos(self.parent_now().kids(), self.spec_key())
        &&& self.parent_now().well_formed()
    }
}

impl<'a, V> Entry<'a, V> {
    /// The parent node as it stands while the entry is held.
    pub open spec fn parent_now(self) -> Tree<V> {
        match self {
            Entry::Occupied(e) => e.parent_now(),
            Entry::Vacant(e) => e.parent_now(),
        }
    }

    /// The key the entry is bound to.
    pub open spec fn spec_key(self) -> u64 {
        match self {
            Entry::Occupied(e) => e.spec_key(),
            Entry::Vacant(e) => e.spec_key(),
        }
    }

    /// Both variants point at a coherent slot of a well-formed parent.
    pub open spec fn wf(self) -> bool {
        match self {
            Entry::Occupied(e) => e.wf(),
            Entry::Vacant(e) => e.wf(),
        }
    }
}

impl<'a, V> OccupiedEntry<'a, V> {
    /// The key the entry is bound to.
    pub fn key(&self) -> (k: u64)
        requires
            self.wf(),
        ensures
            k == self.spec_key(),
    {
        self.parent.children[self.index].0
    }

    /// A shared reference to the child in the slot.
    pub fn get(&self) -> (c: &Tree<V>)
        requires
            self.wf(),
        ensures
            *c == self.child_now(),
    {
        &self.parent.children[self.index].1
    }

    /// An exclusive reference to the child in the slot; the entry stays
    /// usable afterwards.
    pub fn get_mut(&mut self) -> (c: &mut Tree<V>)
        requires
            old(self).wf(),
        ensures
            *c == old(self).child_now(),
            final(self).slot() == old(self).slot(),
            final(self).parent_now().val() == old(self).parent_now().val(),
            final(self).parent_now().kids() == assoc_set(
                old(self).parent_now().kids(),
                old(self).spec_key(),
                *final(c),
            ),
            final(self).spec_key() == old(self).spec_key(),
            mut_ref_future(final(self).parent_ref()) == mut_ref_future(old(self).parent_ref()),
            final(c).well_formed() ==> final(self).wf(),
    {
        let i = self.index;
        proof {
            let s = old(self).parent_now().kids();
            let k = old(self).spec_key();
            assert forall|t: Tree<V>| #[trigger] assoc_set(s, k, t) == s.update(
                i as int,
                (k, t),
            ) by {
                lemma_assoc_set_replaces(s, k, t, i as int);
                assert(assoc_set(s, k, t) =~= s.update(i as int, (k, t)));
            }
            assert forall|t: Tree<V>, q: Tree<V>|
                #![trigger q.kids(), assoc_set(s, k, t)]
                t.well_formed() && q.kids() == assoc_set(s, k, t) implies q.well_formed() by {
                Tree::lemma_well_formed_set_child(old(self).parent_now(), k, t, q);
            }
        }
        &mut self.parent.children[i].1
    }

    /// Consumes the entry, handing out the child for the rest of the
    /// parent borrow's lifetime.
    pub fn into_mut(self) -> (c: &'a mut Tree<V>)
        requires
            self.wf(),
        ensures
            *c == self.child_now(),
            c.well_formed(),
            mut_ref_future(self.parent_ref()).val() == self.parent_now().val(),
            mut_ref_future(self.parent_ref()).kids() == assoc_set(
                self.parent_now().kids(),
                self.spec_key(),
                *final(c),
            ),
            final(c).well_formed() ==> mut_ref_future(self.parent_ref()).well_formed(),
    {
        proof {
            let s = self.parent_now().kids();
            let k = self.spec_key();
            let i = self.slot();
            assert forall|t: Tree<V>| #[trigger] assoc_set(s, k, t) == s.update(i, (k, t)) by {
                lemma_assoc_set_replaces(s, k, t, i);
                assert(assoc_set(s, k, t) =~= s.update(i, (k, t)));
            }
            assert forall|t: Tree<V>, q: Tree<V>|
                #![trigger q.kids(), assoc_set(s, k, t)]
                t.well_formed() && q.kids() == assoc_set(s, k, t) implies q.well_formed() by {
                Tree::lemma_well_formed_set_child(self.parent_now(), k, t, q);
            }
        }
        let OccupiedEntry { parent, index } = self;
        &mut parent.children[index].1
    }

    /// Swaps the given value into the child, leaving the child's own
    /// children intact, and hands back the displaced value together with
    /// the child.
    pub fn insert(&mut self, value: V) -> (r: (V, &mut Tree<V>))
        requires
            old(self).wf(),
        ensures
            r.0 == old(self).child_now().val(),
            r.1.val() == value,
            r.1.kids() == old(self).child_now().kids(),
            r.1.well_formed(),
            final(self).slot() == old(self).slot(),
            final(self).parent_now().val() == old(self).parent_now().val(),
            final(self).parent_now().kids() == assoc_set(
                old(self).parent_now().kids(),
                old(self).spec_key(),
                *final(r.1),
            ),
            final(self).spec_key() == old(self).spec_key(),
            mut_ref_future(final(self).parent_ref()) == mut_ref_future(old(self).parent_ref()),
            final(r.1).well_formed() ==> final(self).wf(),
    {
        let mut value = value;
        let child = self.get_mut();
        core::mem::swap(&mut value, &mut child.value);
        proof {
            Tree::lemma_well_formed_same_kids(*child, old(self).child_now());
        }
        (value, child)
    }

    /// Replaces the whole child subtree and hands the previous one back.
    pub fn insert_tree(&mut self, tree: Tree<V>) -> (prev: Tree<V>)
        requires
            old(self).wf(),
        ensures
            prev == old(self).child_now(),
            final(self).slot() == old(self).slot(),
            final(self).parent_now().val() == old(self).parent_now().val(),
            final(self).parent_now().kids() == assoc_set(
                old(self).parent_now().kids(),
                old(self).spec_key(),
                tree,
            ),
            final(self).spec_key() == old(self).spec_key(),
            mut_ref_future(final(self).parent_ref()) == mut_ref_future(old(self).parent_ref()),
            tree.well_formed() ==> final(self).wf(),
    {
        let mut tree = tree;
        let child = self.get_mut();
        core::mem::swap(&mut tree, child);
        tree
    }

    /// Consumes the entry, detaching the child and handing back both the
    /// key and the whole subtree.
    pub fn remove_entry(self) -> (r: (u64, Tree<V>))
        requires
            self.wf(),
        ensures
            r.0 == self.spec_key(),
            r.1 == self.child_now(),
            mut_ref_future(self.parent_ref()).val() == self.parent_now().val(),
            mut_ref_future(self.parent_ref()).kids() == assoc_remove(
                self.parent_now().kids(),
                self.spec_key(),
            ),
            mut_ref_future(self.parent_ref()).well_formed(),
    {
        proof {
            lemma_assoc_remove_at(self.parent_now().kids(), self.spec_key(), self.slot());
            lemma_remove_sorted(self.parent_now().kids(), self.slot());
            assert(forall|j: int|
                0 <= j < self.parent_now().kids().remove(self.slot()).len() ==> self.parent_now()
                    .kids().remove(self.slot())[j] == if j < self.slot() {
                    self.parent_now().kids()[j]
                } else {
                    self.parent_now().kids()[j + 1]
                });
        }
        let OccupiedEntry { parent, index } = self;
        let key = parent.children[index].0;
        let p = parent.children.remove(index);
        (key, p.1)
    }

    /// Consumes the entry, detaching the child and handing the subtree
    /// back.
    pub fn remove(self) -> (c: Tree<V>)
        requires
            self.wf(),
        ensures
            c == self.child_now(),
            mut_ref_future(self.parent_ref()).val() == self.parent_now().val(),
            mut_ref_future(self.parent_ref()).kids() == assoc_remove(
                self.parent_now().kids(),
                self.spec_key(),
            ),
            mut_ref_future(self.parent_ref()).well_formed(),
    {
        self.remove_entry().1
    }
}

impl<'a, V> VacantEntry<'a, V> {
    /// The key the entry is bound to.
    pub fn key(&self) -> (k: u64)
        ensures
            k == self.spec_key(),
    {
        self.key
    }

    /// Consumes the entry without inserting, handing the key back and
    /// leaving the parent untouched.
    pub fn into_key(self) -> (k: u64)
        ensures
            k == self.spec_key(),
            mut_ref_future(self.parent_ref()) == self.parent_now(),
    {
        self.key
    }

    /// Inserts a fresh childless leaf with the given value in the slot and
    /// hands it out for the rest of the parent borrow's lifetime.
    pub fn insert(self, value: V) -> (c: &'a mut Tree<V>)
        requires
            self.wf(),
        ensures
            c.val() == value,
            c.kids() == Seq::<(u64, Tree<V>)>::empty(),
            c.well_formed(),
            mut_ref_future(self.parent_ref()).val() == self.parent_now().val(),
            mut_ref_future(self.parent_ref()).kids() == assoc_set(
                self.parent_now().kids(),
                self.spec_key(),
                *final(c),
            ),
            final(c).well_formed() ==> mut_ref_future(self.parent_ref()).well_formed(),
    {
        self.insert_tree(Tree::new(value))
    }

    /// Inserts a whole pre-built subtree in the slot and hands it out for
    /// the rest of the parent borrow's lifetime.
    pub fn insert_tree(self, tree: Tree<V>) -> (c: &'a mut Tree<V>)
        requires
            self.wf(),
        ensures
            *c == tree,
            mut_ref_future(self.parent_ref()).val() == self.parent_now().val(),
            mut_ref_future(self.parent_ref()).kids() == assoc_set(
                self.parent_now().kids(),
                self.spec_key(),
                *final(c),
            ),
            final(c).well_formed() ==> mut_ref_future(self.parent_ref()).well_formed(),
    {
        proof {
            let s = self.parent_now().kids();
            let k = self.spec_key();
            let i = self.slot();
            lemma_key_insert_pos(s, k);
            assert forall|t: Tree<V>| #[trigger] assoc_set(s, k, t) == s.insert(
                i,
                (k, tree),
            ).update(i, (k, t)) by {
                lemma_assoc_set_inserts(s, k, t, i);
                assert(s.insert(i, (k, t)) =~= s.insert(i, (k, tree)).update(i, (k, t)));
                assert(assoc_set(s, k, t) =~= s.insert(i, (k, t)));
            }
            assert forall|t: Tree<V>, q: Tree<V>|
                #![trigger q.kids(), assoc_set(s, k, t)]
                t.well_formed() && q.kids() == assoc_set(s, k, t) implies q.well_formed() by {
                Tree::lemma_well_formed_set_child(self.parent_now(), k, t, q);
            }
        }
        let VacantEntry { parent, key, index } = self;
        parent.children.insert(index, (key, tree));
        &mut parent.children[index].1
    }
}

impl<'a, V> Entry<'a, V> {
    /// The key the entry is bound to.
    pub fn key(&self) -> (k: u64)
        requires
            self.wf(),
        ensures
            k == self.spec_key(),
    {
        match self {
            Entry::Occupied(e) => e.key(),
            Entry::Vacant(e) => e.key(),
        }
    }

    /// Resolves the entry: an occupied slot hands out its child unchanged,
    /// a vacant one is filled with a fresh leaf holding the given value.
    pub fn or_insert(self, default: V) -> (c: &'a mut Tree<V>)
        requires
            self.wf(),
        ensures
            self matches Entry::Occupied(o) ==> *c == o.child_now(),
            self matches Entry::Vacant(v) ==> c.val() == default && c.kids() == Seq::<(
                u64,
                Tree<V>,
            )>::empty(),
            c.well_formed(),
            self matches Entry::Occupied(o) ==> mut_ref_future(o.parent_ref()).val() == o.parent_now().val()
                && mut_ref_future(o.parent_ref()).kids() == assoc_set(
                o.parent_now().kids(),
                o.spec_key(),
                *final(c),
            ) && (final(c).well_formed() ==> mut_ref_future(o.parent_ref()).well_formed()),
            self matches Entry::Vacant(v) ==> mut_ref_future(v.parent_ref()).val() == v.parent_now().val()
                && mut_ref_future(v.parent_ref()).kids() == assoc_set(
                v.parent_now().kids(),
                v.spec_key(),
                *final(c),
            ) && (final(c).well_formed() ==> mut_ref_future(v.parent_ref()).well_formed()),
    {
        match self {
            Entry::Occupied(e) => e.into_mut(),
            Entry::Vacant(e) => e.insert(default),
        }
    }

    /// Resolves the entry: an occupied slot hands out its child unchanged
    /// without running the closure, a vacant one is filled with a fresh
    /// leaf holding whatever the closure produces.
    pub fn or_insert_with<F: FnOnce() -> V>(self, default: F) -> (c: &'a mut Tree<V>)
        requires
            self.wf(),
            self matches Entry::Vacant(v) ==> default.requires(()),
        ensures
            self matches Entry::Occupied(o) ==> *c == o.child_now(),
            self matches Entry::Vacant(v) ==> default.ensures((), c.val()) && c.kids() == Seq::<(
                u64,
                Tree<V>,
            )>::empty(),
            c.well_formed(),
            self matches Entry::Occupied(o) ==> mut_ref_future(o.parent_ref()).val() == o.parent_now().val()
                && mut_ref_future(o.parent_ref()).kids() == assoc_set(
                o.parent_now().kids(),
                o.spec_key(),
                *final(c),
            ) && (final(c).well_formed() ==> mut_ref_future(o.parent_ref()).well_formed()),
            self matches Entry::Vacant(v) ==> mut_ref_future(v.parent_ref()).val() == v.parent_now().val()
                && mut_ref_future(v.parent_ref()).kids() == assoc_set(
                v.parent_now().kids(),
                v.spec_key(),
                *final(c),
            ) && (final(c).well_formed() ==> mut_ref_future(v.parent_ref()).well_formed()),
    {
        match self {
            Entry::Occupied(e) => e.into_mut(),
            Entry::Vacant(e) => e.insert(default()),
        }
    }

    /// Resolves the entry: an occupied slot hands out its child unchanged
    /// without running the closure, a vacant one is filled with a fresh
    /// leaf holding what the closure derives from the key.
    pub fn or_insert_with_key<F: FnOnce(u64) -> V>(self, default: F) -> (c: &'a mut Tree<V>)
        requires
            self.wf(),
            self matches Entry::Vacant(v) ==> default.requires((v.spec_key(),)),
        ensures
            self matches Entry::Occupied(o) ==> *c == o.child_now(),
            self matches Entry::Vacant(v) ==> default.ensures((v.spec_key(),), c.val())
                && c.kids() == Seq::<(u64, Tree<V>)>::empty(),
            c.well_formed(),
            self matches Entry::Occupied(o) ==> mut_ref_future(o.parent_ref()).val() == o.parent_now().val()
                && mut_ref_future(o.parent_ref()).kids() == assoc_set(
                o.parent_now().kids(),
                o.spec_key(),
                *final(c),
            ) && (final(c).well_formed() ==> mut_ref_future(o.parent_ref()).well_formed()),
            self matches Entry::Vacant(v) ==> mut_ref_future(v.parent_ref()).val() == v.parent_now().val()
                && mut_ref_future(v.parent_ref()).kids() == assoc_set(
                v.parent_now().kids(),
                v.spec_key(),
                *final(c),
            ) && (final(c).well_formed() ==> mut_ref_future(v.parent_ref()).well_formed()),
    {
        match self {
            Entry::Occupied(e) => e.into_mut(),
            Entry::Vacant(e) => {
                let key = e.key();
                let value = default(key);
                e.insert(value)
            },
        }
    }

    /// Runs the closure on the child of an occupied entry, in place, and
    /// hands the entry back for further chaining; a vacant entry passes
    /// through untouched.
    pub fn and_modify<F: FnOnce(&mut Tree<V>)>(self, f: F) -> (r: Entry<'a, V>)
        requires
            self.wf(),
            self matches Entry::Occupied(o) ==> forall|m: &mut Tree<V>|
                mut_ref_current(m) == o.child_now() ==> call_requires(f, (m,)),
        ensures
            self matches Entry::Vacant(v) ==> r == self,
            self matches Entry::Occupied(o) ==> (r matches Entry::Occupied(o2) && {
                &&& o2.slot() == o.slot()
                &&& o2.parent_now().val() == o.parent_now().val()
                &&& mut_ref_future(o2.parent_ref()) == mut_ref_future(o.parent_ref())
                &&& exists|m: &mut Tree<V>|
                    {
                        &&& mut_ref_current(m) == o.child_now()
                        &&& #[trigger] call_ensures(f, (m,), ())
                        &&& o2.parent_now().kids() == assoc_set(
                            o.parent_now().kids(),
                            o.spec_key(),
                            mut_ref_future(m),
                        )
                        &&& mut_ref_future(m).well_formed() ==> o2.wf()
                    }
            }),
    {
        match self {
            Entry::Occupied(e) => {
                proof {
                    let s = e.parent_now().kids();
                    let k = e.spec_key();
                    let i = e.slot();
                    assert forall|t: Tree<V>| #[trigger] assoc_set(s, k, t) == s.update(
                        i,
                        (k, t),
                    ) by {
                        lemma_assoc_set_replaces(s, k, t, i);
                        assert(assoc_set(s, k, t) =~= s.update(i, (k, t)));
                    }
                    assert forall|t: Tree<V>, q: Tree<V>|
                        #![trigger q.kids(), assoc_set(s, k, t)]
                        t.well_formed() && q.kids() == assoc_set(s, k, t)
                        implies q.well_formed() by {
                        Tree::lemma_well_formed_set_child(e.parent_now(), k, t, q);
                    }
                }
                let OccupiedEntry { parent, index } = e;
                let child = &mut parent.children[index].1;
                let ghost m = child;
                f(child);
                Entry::Occupied(OccupiedEntry { parent, index })
            },
            Entry::Vacant(e) => Entry::Vacant(e),
        }
    }

    /// Resolves the entry: an occupied slot hands out its child unchanged,
    /// a vacant one receives the whole pre-built subtree.
    pub fn or_insert_tree(self, default: Tree<V>) -> (c: &'a mut Tree<V>)
        requires
            self.wf(),
            default.well_formed(),
        ensures
            self matches Entry::Occupied(o) ==> *c == o.child_now(),
            self matches Entry::Vacant(v) ==> *c == default,
            c.well_formed(),
            self matches Entry::Occupied(o) ==> mut_ref_future(o.parent_ref()).val() == o.parent_now().val()
                && mut_ref_future(o.parent_ref()).kids() == assoc_set(
                o.parent_now().kids(),
                o.spec_key(),
                *final(c),
            ) && (final(c).well_formed() ==> mut_ref_future(o.parent_ref()).well_formed()),
            self matches Entry::Vacant(v) ==> mut_ref_future(v.parent_ref()).val() == v.parent_now().val()
                && mut_ref_future(v.parent_ref()).kids() == assoc_set(
                v.parent_now().kids(),
                v.spec_key(),
                *final(c),
            ) && (final(c).well_formed() ==> mut_ref_future(v.parent_ref()).well_formed()),
    {
        match self {
            Entry::Occupied(e) => e.into_mut(),
            Entry::Vacant(e) => e.insert_tree(default),
        }
    }
}

impl<V> Tree<V> {
    /// Looks the key up among the direct children and hands back the
    /// matching upsert handle: `Occupied` with the child's slot where the
    /// key is present, `Vacant` with its ordered insertion point where it
    /// is not.
    pub fn entry(&mut self, key: u64) -> (e: Entry<'_, V>)
        requires
            old(self).well_formed(),
        ensures
            e.wf(),
            e.spec_key() == key,
            e.parent_now() == *old(self),
            *final(self) == match e {
                Entry::Occupied(o) => mut_ref_future(o.parent_ref()),
                Entry::Vacant(v) => mut_ref_future(v.parent_ref()),
            },
            e matches Entry::Occupied(o) <==> has_key(old(self).kids(), key),
            e matches Entry::Occupied(o) ==> Some(o.child_now()) == assoc_get(
                old(self).kids(),
                key,
            ),
    {
        let n = self.children.len();
        let mut i: usize = 0;
        while i < n && self.children[i].0 < key
            invariant
                i <= n,
                n == self.kids().len(),
                forall|j: int| 0 <= j < i ==> self.kids()[j].0 < key,
            decreases n - i,
        {
            i += 1;
        }
        if i < n && self.children[i].0 == key {
            proof {
                lemma_assoc_get_first(self.kids(), key, i as int);
            }
            Entry::Occupied(OccupiedEntry { parent: self, index: i })
        } else {
            proof {
                assert(forall|j: int|
                    i <= j < old(self).kids().len() ==> old(self).kids()[i as int].0 <= old(
                        self,
                    ).kids()[j].0);
                assert(!has_key(old(self).kids(), key));
                lemma_key_insert_pos_unique(old(self).kids(), key, i as int);
            }
            Entry::Vacant(VacantEntry { parent: self, key, index: i })
        }
    }
}

} // verus!
