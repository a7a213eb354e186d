//! The mathematical model of a tree: association-list reasoning over the
//! ordered child sequence, and the traversal orders as spec functions.
use vstd::prelude::*;

use crate::Tree;

verus! {

/// The keys of a child sequence, in order.
pub open spec fn key_seq<V>(s: Seq<(u64, Tree<V>)>) -> Seq<u64> {
    s.map_values(|p: (u64, Tree<V>)| p.0)
}

/// Keys are strictly increasing: unique and in ascending order.
pub open spec fn sorted_keys<V>(s: Seq<(u64, Tree<V>)>) -> bool {
    forall|i: int, j: int| 0 <= i < j < s.len() ==> s[i].0 < s[j].0
}

/// Whether some entry of the child sequence carries the key.
pub open spec fn has_key<V>(s: Seq<(u64, Tree<V>)>, key: u64) -> bool {
    exists|i: int| 0 <= i < s.len() && s[i].0 == key
}

/// The first entry carrying the key, scanned left to right.
pub open spec fn assoc_get<V>(s: Seq<(u64, Tree<V>)>, key: u64) -> Option<Tree<V>>
    decreases s.len(),
{
    if s.len() == 0 {
        None
    } else if s[0].0 == key {
        Some(s[0].1)
    } else {
        assoc_get(s.drop_first(), key)
    }
}

/// The child sequence with the key bound to `t`: an existing binding is
/// replaced in place, a new one is inserted before the first larger key.
pub open spec fn assoc_set<V>(s: Seq<(u64, Tree<V>)>, key: u64, t: Tree<V>) -> Seq<(u64, Tree<V>)>
    decreases s.len(),
{
    if s.len() == 0 {
        seq![(key, t)]
    } else if key < s[0].0 {
        seq![(key, t)] + s
    } else if key == s[0].0 {
        seq![(key, t)] + s.drop_first()
    } else {
        seq![s[0]] + assoc_set(s.drop_first(), key, t)
    }
}

/// The child sequence with the first binding of the key removed.
pub open spec fn assoc_remove<V>(s: Seq<(u64, Tree<V>)>, key: u64) -> Seq<(u64, Tree<V>)>
    decreases s.len(),
{
    if s.len() == 0 {
        s
    } else if s[0].0 == key {
        s.drop_first()
    } else {
        seq![s[0]] + assoc_remove(s.drop_first(), key)
    }
}

/// `assoc_get` answers exactly the keys that occur in the sequence.
pub proof fn lemma_assoc_get_some<V>(s: Seq<(u64, Tree<V>)>, key: u64)
    ensures
        assoc_get(s, key) is Some <==> has_key(s, key),
        assoc_get(s, key) matches Some(t) ==> exists|i: int|
            0 <= i < s.len() && s[i].0 == key && s[i].1 == t,
    decreases s.len(),
{
    if s.len() != 0 && s[0].0 != key {
        lemma_assoc_get_some(s.drop_first(), key);
        if has_key(s, key) {
            let i = choose|i: int| 0 <= i < s.len() && s[i].0 == key;
            assert(s.drop_first()[i - 1].0 == key);
        }
        if assoc_get(s, key) is Some {
            let t = assoc_get(s, key)->0;
            let i = choose|i: int|
                0 <= i < s.drop_first().len() && s.drop_first()[i].0 == key && s.drop_first()[i].1
                    == t;
            assert(s[i + 1].0 == key && s[i + 1].1 == t);
        }
    }
}

/// `assoc_get` finds the first entry with the key.
pub proof fn lemma_assoc_get_first<V>(s: Seq<(u64, Tree<V>)>, key: u64, i: int)
    requires
        0 <= i < s.len(),
        s[i].0 == key,
        forall|j: int| 0 <= j < i ==> s[j].0 != key,
    ensures
        assoc_get(s, key) == Some(s[i].1),
    decreases i,
{
    if i > 0 {
        lemma_assoc_get_first(s.drop_first(), key, i - 1);
    }
}

/// Where the first entry with the key sits at index `i`, `assoc_set`
/// replaces that entry in place.
pub proof fn lemma_assoc_set_replaces<V>(s: Seq<(u64, Tree<V>)>, key: u64, t: Tree<V>, i: int)
    requires
        0 <= i < s.len(),
        s[i].0 == key,
        forall|j: int| 0 <= j < i ==> s[j].0 < key,
    ensures
        assoc_set(s, key, t) =~= s.update(i, (key, t)),
    decreases i,
{
    if i > 0 {
        lemma_assoc_set_replaces(s.drop_first(), key, t, i - 1);
        assert(s.drop_first().update(i - 1, (key, t)) =~= s.update(i, (key, t)).drop_first());
    }
}

/// Where every key before index `i` is smaller and the key at `i` (if any)
/// is larger, `assoc_set` inserts the new entry at `i`.
pub proof fn lemma_assoc_set_inserts<V>(s: Seq<(u64, Tree<V>)>, key: u64, t: Tree<V>, i: int)
    requires
        0 <= i <= s.len(),
        forall|j: int| 0 <= j < i ==> s[j].0 < key,
        i < s.len() ==> key < s[i].0,
    ensures
        assoc_set(s, key, t) =~= s.insert(i, (key, t)),
    decreases i,
{
    if i > 0 {
        lemma_assoc_set_inserts(s.drop_first(), key, t, i - 1);
        assert(s.drop_first().insert(i - 1, (key, t)) =~= s.insert(i, (key, t)).drop_first());
    } else {
        if s.len() == 0 {
            assert(seq![(key, t)] =~= s.insert(0, (key, t)));
        } else {
            assert(seq![(key, t)] + s =~= s.insert(0, (key, t)));
        }
    }
}

/// Where the first entry with the key sits at index `i`, `assoc_remove`
/// takes exactly that entry out.
pub proof fn lemma_assoc_remove_at<V>(s: Seq<(u64, Tree<V>)>, key: u64, i: int)
    requires
        0 <= i < s.len(),
        s[i].0 == key,
        forall|j: int| 0 <= j < i ==> s[j].0 != key,
    ensures
        assoc_remove(s, key) =~= s.remove(i),
    decreases i,
{
    if i > 0 {
        lemma_assoc_remove_at(s.drop_first(), key, i - 1);
        assert(s.drop_first().remove(i - 1) =~= s.remove(i).drop_first());
    }
}

/// Without the key, `assoc_remove` leaves the sequence as it is.
pub proof fn lemma_assoc_remove_absent<V>(s: Seq<(u64, Tree<V>)>, key: u64)
    requires
        !has_key(s, key),
    ensures
        assoc_remove(s, key) =~= s,
    decreases s.len(),
{
    if s.len() > 0 {
        assert(s[0].0 != key);
        assert(forall|i: int|
            0 <= i < s.drop_first().len() ==> s.drop_first()[i] == s[i + 1]);
        lemma_assoc_remove_absent(s.drop_first(), key);
    }
}

/// Replacing or inserting a binding keeps the keys sorted.
pub proof fn lemma_assoc_set_sorted<V>(s: Seq<(u64, Tree<V>)>, key: u64, t: Tree<V>)
    requires
        sorted_keys(s),
    ensures
        sorted_keys(assoc_set(s, key, t)),
        key_seq(assoc_set(s, key, t)) =~= if has_key(s, key) {
            key_seq(s)
        } else {
            key_seq(s).insert(key_insert_pos(s, key), key)
        },
    decreases s.len(),
{
    let pos = key_insert_pos(s, key);
    lemma_key_insert_pos(s, key);
    if has_key(s, key) {
        let i = choose|i: int| 0 <= i < s.len() && s[i].0 == key;
        assert(forall|j: int| 0 <= j < i ==> s[j].0 < key);
        lemma_assoc_set_replaces(s, key, t, i);
        let u = s.update(i, (key, t));
        assert(forall|j: int| 0 <= j < u.len() ==> u[j].0 == s[j].0);
        assert(key_seq(u) =~= key_seq(s));
    } else {
        assert(pos < s.len() ==> key < s[pos].0);
        lemma_assoc_set_inserts(s, key, t, pos);
        let s2 = s.insert(pos, (key, t));
        assert forall|i: int, j: int| 0 <= i < j < s2.len() implies s2[i].0 < s2[j].0 by {
            if i < pos && j > pos {
                assert(s2[i] == s[i] && s2[j] == s[j - 1]);
            }
        }
        assert(key_seq(s2) =~= key_seq(s).insert(pos, key)) by {
            assert(forall|j: int| 0 <= j < pos ==> s2[j] == s[j]);
            assert(forall|j: int| pos < j < s2.len() ==> s2[j] == s[j - 1]);
        }
    }
}

/// The index of the first entry whose key is not smaller: where a missing
/// key would be inserted to keep the keys sorted.
pub open spec fn key_insert_pos<V>(s: Seq<(u64, Tree<V>)>, key: u64) -> int
    decreases s.len(),
{
    if s.len() == 0 {
        0
    } else if s[0].0 >= key {
        0
    } else {
        1 + key_insert_pos(s.drop_first(), key)
    }
}

/// Any index that splits the sequence after the smaller keys is
/// `key_insert_pos`.
pub proof fn lemma_key_insert_pos_unique<V>(s: Seq<(u64, Tree<V>)>, key: u64, i: int)
    requires
        0 <= i <= s.len(),
        forall|j: int| 0 <= j < i ==> s[j].0 < key,
        i < s.len() ==> s[i].0 >= key,
    ensures
        key_insert_pos(s, key) == i,
    decreases i,
{
    if i > 0 {
        lemma_key_insert_pos_unique(s.drop_first(), key, i - 1);
    }
}

/// `key_insert_pos` splits the sequence after the entries with smaller keys.
pub proof fn lemma_key_insert_pos<V>(s: Seq<(u64, Tree<V>)>, key: u64)
    ensures
        0 <= key_insert_pos(s, key) <= s.len(),
        forall|j: int| 0 <= j < key_insert_pos(s, key) ==> s[j].0 < key,
        key_insert_pos(s, key) < s.len() ==> key <= s[key_insert_pos(s, key)].0,
    decreases s.len(),
{
    if s.len() > 0 && s[0].0 < key {
        lemma_key_insert_pos(s.drop_first(), key);
        assert(forall|j: int| 0 < j < key_insert_pos(s, key) ==> s[j] == s.drop_first()[j - 1]);
    }
}

/// Every entry of `assoc_set(s, key, t)` is either the new binding or one
/// of the old entries.
pub proof fn lemma_assoc_set_members<V>(s: Seq<(u64, Tree<V>)>, key: u64, t: Tree<V>)
    ensures
        forall|j: int|
            0 <= j < assoc_set(s, key, t).len() ==> (assoc_set(s, key, t)[j] == (key, t)
                || exists|l: int| 0 <= l < s.len() && assoc_set(s, key, t)[j] == s[l]),
    decreases s.len(),
{
    if s.len() == 0 {
    } else if key <= s[0].0 {
        assert(forall|l: int|
            0 <= l < s.len() ==> s.drop_first()[l - 1] == s[l] || l == 0);
    } else {
        lemma_assoc_set_members(s.drop_first(), key, t);
        let u = assoc_set(s, key, t);
        assert forall|j: int| 0 <= j < u.len() implies (u[j] == (key, t) || exists|l: int|
            0 <= l < s.len() && u[j] == s[l]) by {
            if j == 0 {
                assert(u[0] == s[0]);
            } else {
                assert(u[j] == assoc_set(s.drop_first(), key, t)[j - 1]);
                if assoc_set(s.drop_first(), key, t)[j - 1] != (key, t) {
                    let l = choose|l: int|
                        0 <= l < s.drop_first().len() && assoc_set(s.drop_first(), key, t)[j - 1]
                            == s.drop_first()[l];
                    assert(u[j] == s[l + 1]);
                }
            }
        }
    }
}

/// Removing an entry keeps the keys sorted.
pub proof fn lemma_remove_sorted<V>(s: Seq<(u64, Tree<V>)>, i: int)
    requires
        sorted_keys(s),
        0 <= i < s.len(),
    ensures
        sorted_keys(s.remove(i)),
{
    assert forall|a: int, b: int|
        0 <= a < b < s.remove(i).len() implies s.remove(i)[a].0 < s.remove(i)[b].0 by {
        if a < i && b >= i {
            assert(s.remove(i)[a] == s[a] && s.remove(i)[b] == s[b + 1]);
        }
    }
}

/// The entries whose flag is set, keeping their order.
pub open spec fn filter_by<V>(s: Seq<(u64, Tree<V>)>, keep: Seq<bool>) -> Seq<(u64, Tree<V>)>
    decreases s.len(),
{
    if s.len() == 0 {
        Seq::empty()
    } else {
        (if keep[0] {
            seq![s[0]]
        } else {
            Seq::empty()
        }) + filter_by(s.drop_first(), keep.drop_first())
    }
}

/// `filter_by` reads only the first `s.len()` flags.
pub proof fn lemma_filter_by_flags<V>(s: Seq<(u64, Tree<V>)>, keep1: Seq<bool>, keep2: Seq<bool>)
    requires
        s.len() <= keep1.len(),
        s.len() <= keep2.len(),
        forall|j: int| 0 <= j < s.len() ==> keep1[j] == keep2[j],
    ensures
        filter_by(s, keep1) == filter_by(s, keep2),
    decreases s.len(),
{
    if s.len() > 0 {
        assert(forall|j: int|
            0 <= j < s.drop_first().len() ==> keep1.drop_first()[j] == keep1[j + 1]
                && keep2.drop_first()[j] == keep2[j + 1]);
        lemma_filter_by_flags(s.drop_first(), keep1.drop_first(), keep2.drop_first());
    }
}

/// `filter_by` of one more entry appends it, or not, at the back.
pub proof fn lemma_filter_by_snoc<V>(s: Seq<(u64, Tree<V>)>, keep: Seq<bool>, i: int)
    requires
        0 <= i < s.len(),
        keep.len() > i,
    ensures
        filter_by(s.take(i + 1), keep) == filter_by(s.take(i), keep) + (if keep[i] {
            seq![s[i]]
        } else {
            Seq::empty()
        }),
    decreases i,
{
    if i == 0 {
        assert(s.take(0) =~= Seq::<(u64, Tree<V>)>::empty());
        assert(s.take(1)[0] == s[0]);
        assert(s.take(1).drop_first() =~= Seq::<(u64, Tree<V>)>::empty());
        assert(filter_by(Seq::<(u64, Tree<V>)>::empty(), keep.drop_first())
            == Seq::<(u64, Tree<V>)>::empty());
        assert(filter_by(s.take(1), keep) =~= if keep[0] {
            seq![s[0]]
        } else {
            Seq::<(u64, Tree<V>)>::empty()
        });
    } else {
        lemma_filter_by_snoc(s.drop_first(), keep.drop_first(), i - 1);
        assert(s.take(i + 1)[0] == s[0]);
        assert(s.take(i)[0] == s[0]);
        assert(s.take(i + 1).drop_first() =~= s.drop_first().take(i));
        assert(s.take(i).drop_first() =~= s.drop_first().take(i - 1));
        assert(s.drop_first()[i - 1] == s[i]);
    }
}

/// Whether the path of child indices leads to a node of the tree.
pub open spec fn path_valid<V>(t: Tree<V>, p: Seq<usize>) -> bool
    decreases p.len(),
{
    p.len() == 0 || (p[0] < t.kids().len() && path_valid(t.kids()[p[0] as int].1, p.drop_first()))
}

/// The node the path of child indices leads to.
pub open spec fn node_at<V>(t: Tree<V>, p: Seq<usize>) -> Tree<V>
    decreases p.len(),
{
    if p.len() == 0 {
        t
    } else {
        node_at(t.kids()[p[0] as int].1, p.drop_first())
    }
}

/// The key under which the node at the (nonempty) path hangs.
pub open spec fn key_at<V>(t: Tree<V>, p: Seq<usize>) -> u64 {
    node_at(t, p.drop_last()).kids()[p.last() as int].0
}

/// The trees `t0` and `t1` agree everywhere but in the value of the node
/// at path `p`, which holds `v` in `t1`.
pub open spec fn value_updated<V>(t0: Tree<V>, t1: Tree<V>, p: Seq<usize>, v: V) -> bool
    decreases p.len(),
{
    if p.len() == 0 {
        t1.val() == v && t1.kids() == t0.kids()
    } else {
        &&& t1.val() == t0.val()
        &&& p[0] < t0.kids().len()
        &&& t1.kids().len() == t0.kids().len()
        &&& forall|j: int| 0 <= j < t0.kids().len() && j != p[0] ==> t1.kids()[j] == t0.kids()[j]
        &&& t1.kids()[p[0] as int].0 == t0.kids()[p[0] as int].0
        &&& value_updated(t0.kids()[p[0] as int].1, t1.kids()[p[0] as int].1, p.drop_first(), v)
    }
}

/// Extending a valid path by an in-range child index keeps it valid and
/// steps `node_at` into that child.
pub proof fn lemma_path_push<V>(t: Tree<V>, p: Seq<usize>, i: usize)
    requires
        path_valid(t, p),
        i < node_at(t, p).kids().len(),
    ensures
        path_valid(t, p.push(i)),
        node_at(t, p.push(i)) == node_at(t, p).kids()[i as int].1,
        p.push(i).drop_last() == p,
        key_at(t, p.push(i)) == node_at(t, p).kids()[i as int].0,
    decreases p.len(),
{
    assert(p.push(i).drop_last() =~= p);
    assert(p.push(i).last() == i);
    if p.len() == 0 {
        assert(p.push(i)[0] == i);
        assert(p.push(i).drop_first() =~= Seq::<usize>::empty());
        assert(path_valid(t.kids()[i as int].1, Seq::<usize>::empty()));
        assert(node_at(t.kids()[i as int].1, Seq::<usize>::empty()) == t.kids()[i as int].1);
    } else {
        assert(p.push(i)[0] == p[0]);
        lemma_path_push(t.kids()[p[0] as int].1, p.drop_first(), i);
        assert(p.push(i).drop_first() =~= p.drop_first().push(i));
    }
}

/// A prefix of a valid path is valid.
pub proof fn lemma_path_take<V>(t: Tree<V>, p: Seq<usize>, d: int)
    requires
        path_valid(t, p),
        0 <= d <= p.len(),
    ensures
        path_valid(t, p.take(d)),
        d < p.len() ==> p[d] < node_at(t, p.take(d)).kids().len() && node_at(t, p.take(d + 1))
            == node_at(t, p.take(d)).kids()[p[d] as int].1,
    decreases p.len(),
{
    if p.len() > 0 && d > 0 {
        lemma_path_take(t.kids()[p[0] as int].1, p.drop_first(), d - 1);
        assert(p.take(d).drop_first() =~= p.drop_first().take(d - 1));
        assert(p.take(d)[0] == p[0]);
        if d < p.len() {
            assert(p.drop_first()[d - 1] == p[d]);
            assert(p.take(d + 1)[0] == p[0]);
            assert(p.take(d + 1).drop_first() =~= p.drop_first().take(d));
        }
    } else {
        assert(p.take(0) =~= Seq::<usize>::empty());
        if p.len() > 0 && d == 0 {
            assert(p.take(1).drop_first() =~= Seq::<usize>::empty());
            assert(p.take(1)[0] == p[0]);
            assert(path_valid(t.kids()[p[0] as int].1, Seq::<usize>::empty()));
            assert(node_at(t.kids()[p[0] as int].1, Seq::<usize>::empty()) == t.kids()[p[0] as int].1);
        }
    }
}

/// Updating one node's value moves no node: every path valid before is
/// valid after and leads to a node with the same child count, the same
/// child keys, and, off the updated path, the same value.
pub proof fn lemma_value_updated_paths<V>(
    t0: Tree<V>,
    t1: Tree<V>,
    p: Seq<usize>,
    v: V,
    q: Seq<usize>,
)
    requires
        value_updated(t0, t1, p, v),
        path_valid(t0, q),
    ensures
        path_valid(t1, q),
        node_at(t1, q).kids().len() == node_at(t0, q).kids().len(),
        forall|j: int|
            0 <= j < node_at(t0, q).kids().len() ==> node_at(t1, q).kids()[j].0 == node_at(
                t0,
                q,
            ).kids()[j].0,
        node_at(t1, q).val() == if q == p {
            v
        } else {
            node_at(t0, q).val()
        },
    decreases q.len(),
{
    if q.len() == 0 {
        if p.len() == 0 {
            assert(q =~= p);
        } else {
            assert(q != p);
        }
    } else {
        let j = q[0] as int;
        if p.len() > 0 && p[0] == q[0] {
            lemma_value_updated_paths(
                t0.kids()[j].1,
                t1.kids()[j].1,
                p.drop_first(),
                v,
                q.drop_first(),
            );
            if q.drop_first() == p.drop_first() {
                assert(q.len() == p.len());
                assert(forall|i: int| 1 <= i < q.len() ==> q[i] == q.drop_first()[i - 1]);
                assert(forall|i: int| 1 <= i < p.len() ==> p[i] == p.drop_first()[i - 1]);
                assert(q =~= p);
            } else {
                assert(q != p) by {
                    if q == p {
                        assert(q.drop_first() =~= p.drop_first());
                    }
                }
            }
        } else {
            assert(t1.kids()[j] == t0.kids()[j]);
            assert(q != p) by {
                if q == p {
                    if p.len() > 0 {
                        assert(p[0] == q[0]);
                    }
                }
            }
        }
    }
}

} // verus!
