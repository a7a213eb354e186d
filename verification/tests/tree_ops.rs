use tagged_tree::Entry;
use tagged_tree::Tree;

type TestSubject = Tree<Thing>;

#[derive(Eq, PartialEq, Default, Debug, Clone)]
struct Thing(usize);

#[test]
fn set_value_returns_previous() {
    let mut subject = TestSubject::new(Thing(1));
    let prev = subject.set_value(Thing(2));
    assert_eq!(prev, Thing(1));
    assert_eq!(subject.value(), &Thing(2));
}

#[test]
fn value_mut_writes_through() {
    let mut subject = TestSubject::new(Thing(1));
    subject.value_mut().0 = 7;
    assert_eq!(subject.value(), &Thing(7));
}

#[test]
fn child_count_and_is_childless() {
    let mut subject = TestSubject::new(Thing(0));
    assert!(subject.is_childless());
    assert_eq!(subject.child_count(), 0);
    subject.add_child(1, Thing(1));
    subject.add_child(2, Thing(2));
    assert!(!subject.is_childless());
    assert_eq!(subject.child_count(), 2);
}

#[test]
fn clear_drops_all_children() {
    let mut subject = TestSubject::new(Thing(0));
    subject.add_child(1, Thing(1));
    subject.add_child(2, Thing(2));
    subject.clear();
    assert!(subject.is_childless());
    assert_eq!(subject.value(), &Thing(0));
}

#[test]
fn children_keys_come_out_sorted() {
    let mut subject = TestSubject::new(Thing(0));
    subject.add_child(3, Thing(3));
    subject.add_child(1, Thing(1));
    subject.add_child(2, Thing(2));
    assert_eq!(subject.children_keys(), vec![1, 2, 3]);
}

#[test]
fn children_in_key_order() {
    let mut subject = TestSubject::new(Thing(0));
    subject.add_child(3, Thing(3));
    subject.add_child(1, Thing(1));
    let children = subject.children();
    assert_eq!(children.len(), 2);
    assert_eq!(children[0].value(), &Thing(1));
    assert_eq!(children[1].value(), &Thing(3));
}

#[test]
fn children_mut_hands_out_child_by_position() {
    let mut subject = TestSubject::new(Thing(0));
    subject.add_child(1, Thing(1));
    subject.add_child(2, Thing(2));
    subject.children_mut(1).value_mut().0 = 20;
    assert_eq!(subject.get_child(2).unwrap().value(), &Thing(20));
}

#[test]
fn iter_single_yields_each_child_once_in_order() {
    let mut subject = TestSubject::new(Thing(0));
    subject.add_child(2, Thing(2));
    subject.add_child(1, Thing(1));
    subject.add_child(3, Thing(3));

    let mut iter = subject.iter_single();
    let mut seen: Vec<u64> = Vec::new();
    while let Some((key, child)) = iter.next() {
        assert_eq!(key as usize, child.value().0);
        seen.push(key);
    }
    assert_eq!(seen, vec![1, 2, 3]);
}

#[test]
fn iter_single_mut_writes_into_children() {
    let mut subject = TestSubject::new(Thing(0));
    subject.add_child(1, Thing(1));
    subject.add_child(2, Thing(2));

    let mut iter = subject.iter_single_mut();
    while let Some((key, child)) = iter.next(&mut subject) {
        child.value_mut().0 = (key as usize) * 10;
    }
    assert_eq!(subject.get_child(1).unwrap().value(), &Thing(10));
    assert_eq!(subject.get_child(2).unwrap().value(), &Thing(20));
}

#[test]
fn add_child_on_existing_key_preserves_grandchildren() {
    let mut subject = TestSubject::new(Thing(0));
    let (_, child) = subject.add_child(1, Thing(1));
    child.add_child(2, Thing(2));

    let (prev, child) = subject.add_child(1, Thing(10));

    assert_eq!(prev, Some(Thing(1)));
    assert_eq!(child.value(), &Thing(10));
    assert_eq!(child.get_child(2).unwrap().value(), &Thing(2));
}

#[test]
fn add_child_on_absent_key_makes_childless_leaf() {
    let mut subject = TestSubject::new(Thing(0));
    let (prev, child) = subject.add_child(1, Thing(1));
    assert_eq!(prev, None);
    assert!(child.is_childless());
    assert_eq!(child.value(), &Thing(1));
}

#[test]
fn lookups_on_absent_keys_are_explicitly_empty() {
    let mut subject = TestSubject::new(Thing(0));
    subject.add_child(1, Thing(1));
    assert!(subject.get_child(2).is_none());
    assert!(subject.get_key_value(2).is_none());
    assert!(!subject.contains_key(2));
    assert!(subject.remove(2).is_none());
    assert!(subject.remove_entry(2).is_none());
}

#[test]
fn get_key_value_hands_back_both() {
    let mut subject = TestSubject::new(Thing(0));
    subject.add_child(5, Thing(5));
    let (key, child) = subject.get_key_value(5).unwrap();
    assert_eq!(key, 5);
    assert_eq!(child.value(), &Thing(5));
}

#[test]
fn remove_detaches_whole_subtree() {
    let mut subject = TestSubject::new(Thing(0));
    let (_, child) = subject.add_child(1, Thing(1));
    child.add_child(2, Thing(2));

    let removed = subject.remove(1).unwrap();

    assert!(!subject.contains_key(1));
    assert_eq!(removed.value(), &Thing(1));
    assert_eq!(removed.get_child(2).unwrap().value(), &Thing(2));
}

#[test]
fn remove_entry_hands_back_key_and_subtree() {
    let mut subject = TestSubject::new(Thing(0));
    subject.add_child(1, Thing(1));
    let (key, removed) = subject.remove_entry(1).unwrap();
    assert_eq!(key, 1);
    assert_eq!(removed.value(), &Thing(1));
}

#[test]
fn retain_keeps_only_approved_children() {
    let mut subject = TestSubject::new(Thing(0));
    subject.add_child(1, Thing(1));
    subject.add_child(2, Thing(2));
    subject.add_child(3, Thing(3));
    subject.add_child(4, Thing(4));

    subject.retain(|key: &u64, _child: &Tree<Thing>| key % 2 == 0);

    assert_eq!(subject.children_keys(), vec![2, 4]);
    assert_eq!(subject.get_child(2).unwrap().value(), &Thing(2));
}

#[test]
fn entry_or_insert_occupied_returns_existing() {
    let mut subject = TestSubject::new(Thing(0));
    subject.add_child(1, Thing(1));
    let child = subject.entry(1).or_insert(Thing(9));
    assert_eq!(child.value(), &Thing(1));
}

#[test]
fn entry_or_insert_vacant_inserts_leaf() {
    let mut subject = TestSubject::new(Thing(0));
    let child = subject.entry(1).or_insert(Thing(9));
    assert_eq!(child.value(), &Thing(9));
    assert!(child.is_childless());
    assert_eq!(subject.get_child(1).unwrap().value(), &Thing(9));
}

#[test]
fn entry_or_insert_with_is_lazy_when_occupied() {
    let mut subject = TestSubject::new(Thing(0));
    subject.add_child(1, Thing(1));

    let mut called = false;
    {
        let child = subject.entry(1).or_insert_with(|| {
            called = true;
            Thing(9)
        });
        assert_eq!(child.value(), &Thing(1));
    }
    assert!(!called);
}

#[test]
fn entry_or_insert_with_runs_for_vacant() {
    let mut subject = TestSubject::new(Thing(0));

    let mut called = false;
    {
        let child = subject.entry(1).or_insert_with(|| {
            called = true;
            Thing(9)
        });
        assert_eq!(child.value(), &Thing(9));
    }
    assert!(called);
}

#[test]
fn entry_or_insert_with_key_derives_value_from_key() {
    let mut subject = TestSubject::new(Thing(0));
    let child = subject.entry(6).or_insert_with_key(|key| Thing(key as usize * 7));
    assert_eq!(child.value(), &Thing(42));
}

#[test]
fn entry_or_insert_tree_vacant_takes_whole_subtree() {
    let mut subject = TestSubject::new(Thing(0));
    let mut planted = TestSubject::new(Thing(1));
    planted.add_child(2, Thing(2));

    subject.entry(1).or_insert_tree(planted);

    assert_eq!(subject.get_child(1).unwrap().get_child(2).unwrap().value(), &Thing(2));
}

#[test]
fn entry_and_modify_mutates_occupied_in_place() {
    let mut subject = TestSubject::new(Thing(0));
    subject.add_child(1, Thing(1));

    let entry = subject.entry(1).and_modify(|child: &mut Tree<Thing>| {
        child.value_mut().0 = 11;
    });
    assert!(matches!(entry, Entry::Occupied(_)));
    drop(entry);

    assert_eq!(subject.get_child(1).unwrap().value(), &Thing(11));
}

#[test]
fn entry_and_modify_passes_vacant_through() {
    let mut subject = TestSubject::new(Thing(0));
    let entry = subject.entry(1).and_modify(|child: &mut Tree<Thing>| {
        child.value_mut().0 = 11;
    });
    assert!(matches!(entry, Entry::Vacant(_)));
    drop(entry);
    assert!(!subject.contains_key(1));
}

#[test]
fn entry_key_names_the_key() {
    let mut subject = TestSubject::new(Thing(0));
    assert_eq!(subject.entry(4).key(), 4);
    subject.add_child(4, Thing(4));
    assert_eq!(subject.entry(4).key(), 4);
}

#[test]
fn occupied_entry_insert_swaps_value_and_keeps_children() {
    let mut subject = TestSubject::new(Thing(0));
    let (_, child) = subject.add_child(1, Thing(1));
    child.add_child(2, Thing(2));

    match subject.entry(1) {
        Entry::Occupied(mut entry) => {
            let (prev, child) = entry.insert(Thing(10));
            assert_eq!(prev, Thing(1));
            assert_eq!(child.value(), &Thing(10));
            assert!(child.contains_key(2));
        }
        Entry::Vacant(_) => panic!("entry should be occupied"),
    }
}

#[test]
fn occupied_entry_insert_tree_replaces_whole_subtree() {
    let mut subject = TestSubject::new(Thing(0));
    let (_, child) = subject.add_child(1, Thing(1));
    child.add_child(2, Thing(2));

    match subject.entry(1) {
        Entry::Occupied(mut entry) => {
            let prev = entry.insert_tree(TestSubject::new(Thing(10)));
            assert_eq!(prev.value(), &Thing(1));
            assert!(prev.get_child(2).is_some());
        }
        Entry::Vacant(_) => panic!("entry should be occupied"),
    }
    assert!(subject.get_child(1).unwrap().is_childless());
    assert_eq!(subject.get_child(1).unwrap().value(), &Thing(10));
}

#[test]
fn occupied_entry_remove_detaches_subtree() {
    let mut subject = TestSubject::new(Thing(0));
    subject.add_child(1, Thing(1));
    match subject.entry(1) {
        Entry::Occupied(entry) => {
            let removed = entry.remove();
            assert_eq!(removed.value(), &Thing(1));
        }
        Entry::Vacant(_) => panic!("entry should be occupied"),
    }
    assert!(!subject.contains_key(1));
}

#[test]
fn occupied_entry_remove_entry_hands_back_key() {
    let mut subject = TestSubject::new(Thing(0));
    subject.add_child(1, Thing(1));
    match subject.entry(1) {
        Entry::Occupied(entry) => {
            let (key, removed) = entry.remove_entry();
            assert_eq!(key, 1);
            assert_eq!(removed.value(), &Thing(1));
        }
        Entry::Vacant(_) => panic!("entry should be occupied"),
    }
}

#[test]
fn occupied_entry_get_reads_the_child() {
    let mut subject = TestSubject::new(Thing(0));
    subject.add_child(1, Thing(1));
    match subject.entry(1) {
        Entry::Occupied(entry) => {
            assert_eq!(entry.key(), 1);
            assert_eq!(entry.get().value(), &Thing(1));
        }
        Entry::Vacant(_) => panic!("entry should be occupied"),
    }
}

#[test]
fn occupied_entry_get_mut_writes_the_child() {
    let mut subject = TestSubject::new(Thing(0));
    subject.add_child(1, Thing(1));
    match subject.entry(1) {
        Entry::Occupied(mut entry) => {
            entry.get_mut().value_mut().0 = 5;
        }
        Entry::Vacant(_) => panic!("entry should be occupied"),
    }
    assert_eq!(subject.get_child(1).unwrap().value(), &Thing(5));
}

#[test]
fn vacant_entry_into_key_leaves_tree_untouched() {
    let mut subject = TestSubject::new(Thing(0));
    match subject.entry(9) {
        Entry::Vacant(entry) => {
            assert_eq!(entry.key(), 9);
            assert_eq!(entry.into_key(), 9);
        }
        Entry::Occupied(_) => panic!("entry should be vacant"),
    }
    assert!(subject.is_childless());
}

#[test]
fn vacant_entry_insert_tree_plants_whole_subtree() {
    let mut subject = TestSubject::new(Thing(0));
    let mut planted = TestSubject::new(Thing(1));
    planted.add_child(2, Thing(2));
    match subject.entry(1) {
        Entry::Vacant(entry) => {
            let child = entry.insert_tree(planted);
            assert_eq!(child.value(), &Thing(1));
        }
        Entry::Occupied(_) => panic!("entry should be vacant"),
    }
    assert_eq!(subject.get_child(1).unwrap().get_child(2).unwrap().value(), &Thing(2));
}

#[test]
fn get_child_mut_writes_into_the_subtree() {
    let mut subject = TestSubject::new(Thing(0));
    subject.add_child(1, Thing(1));
    subject.get_child_mut(1).unwrap().value_mut().0 = 3;
    assert_eq!(subject.get_child(1).unwrap().value(), &Thing(3));
    assert!(subject.get_child_mut(2).is_none());
}

#[test]
fn round_trip_into_iter_reproduces_direct_children() {
    let mut subject = TestSubject::new(Thing(0));
    let (_, child) = subject.add_child(3, Thing(3));
    child.add_child(7, Thing(7));
    subject.add_child(1, Thing(1));
    subject.add_child(2, Thing(2));

    let drained = subject.into_iter();
    let keys: Vec<u64> = drained.iter().map(|p| p.0).collect();
    assert_eq!(keys, vec![1, 2, 3]);
    assert_eq!(drained[0].1.value(), &Thing(1));
    // the drain is single-level: the grandchild rides along inside its subtree
    assert_eq!(drained[2].1.get_child(7).unwrap().value(), &Thing(7));
}

#[test]
fn round_trip_into_keys_reproduces_inserted_keys() {
    let mut subject = TestSubject::new(Thing(0));
    subject.add_child(3, Thing(3));
    subject.add_child(1, Thing(1));
    subject.add_child(2, Thing(2));
    assert_eq!(subject.into_keys(), vec![1, 2, 3]);
}

#[test]
fn round_trip_into_values_reproduces_inserted_subtrees() {
    let mut subject = TestSubject::new(Thing(0));
    subject.add_child(3, Thing(3));
    subject.add_child(1, Thing(1));
    let values = subject.into_values();
    assert_eq!(values.len(), 2);
    assert_eq!(values[0].value(), &Thing(1));
    assert_eq!(values[1].value(), &Thing(3));
}

#[test]
fn mutating_depth_first_visits_each_node_exactly_once() {
    let mut tree = TestSubject::new(Thing(0));
    let child = tree.entry(1).or_insert(Thing(1));
    child.add_child(2, Thing(2));
    child.add_child(3, Thing(3));
    let child = tree.entry(4).or_insert(Thing(4));
    child.add_child(5, Thing(5));

    let mut visited: Vec<u64> = Vec::new();
    let mut iter = tree.iter_depth_first_mut();
    while let Some((key, value)) = iter.next(&mut tree) {
        // every hand-out is exclusive: record the visit, then overwrite
        visited.push(key);
        assert_eq!(value.0, key as usize);
        value.0 = key as usize + 100;
    }

    assert_eq!(visited, vec![1, 2, 3, 4, 5]);

    // every node was written exactly once, none was touched twice
    assert_eq!(tree.get_child(1).unwrap().value(), &Thing(101));
    assert_eq!(
        tree.get_child(1).unwrap().get_child(2).unwrap().value(),
        &Thing(102)
    );
    assert_eq!(
        tree.get_child(1).unwrap().get_child(3).unwrap().value(),
        &Thing(103)
    );
    assert_eq!(tree.get_child(4).unwrap().value(), &Thing(104));
    assert_eq!(
        tree.get_child(4).unwrap().get_child(5).unwrap().value(),
        &Thing(105)
    );
}

#[test]
fn mutating_breadth_first_visits_levels_in_order() {
    let mut tree = TestSubject::new(Thing(0));
    let child = tree.entry(1).or_insert(Thing(1));
    child.add_child(3, Thing(3));
    let child = tree.entry(2).or_insert(Thing(2));
    child.add_child(4, Thing(4));

    let mut visited: Vec<u64> = Vec::new();
    let mut iter = tree.iter_breadth_first_mut();
    while let Some((key, value)) = iter.next(&mut tree) {
        visited.push(key);
        value.0 += 50;
    }

    assert_eq!(visited, vec![1, 2, 3, 4]);
    assert_eq!(tree.get_child(1).unwrap().value(), &Thing(51));
    assert_eq!(tree.get_child(2).unwrap().value(), &Thing(52));
}

#[test]
fn visit_depth_first_mut_sees_each_node_once_in_preorder() {
    let mut tree = TestSubject::new(Thing(0));
    let child = tree.entry(1).or_insert(Thing(1));
    child.add_child(2, Thing(2));
    child.add_child(3, Thing(3));
    tree.add_child(4, Thing(4));

    let keys = tree.visit_depth_first_mut();

    assert_eq!(keys, vec![1, 2, 3, 4]);
    // the walk left every value in place
    assert_eq!(tree.get_child(1).unwrap().value(), &Thing(1));
    assert_eq!(
        tree.get_child(1).unwrap().get_child(3).unwrap().value(),
        &Thing(3)
    );
    assert_eq!(tree.get_child(4).unwrap().value(), &Thing(4));
}

#[test]
fn visit_breadth_first_mut_sees_each_node_once_in_level_order() {
    let mut tree = TestSubject::new(Thing(0));
    let child = tree.entry(1).or_insert(Thing(1));
    child.add_child(3, Thing(3));
    let child = tree.entry(2).or_insert(Thing(2));
    child.add_child(4, Thing(4));

    let keys = tree.visit_breadth_first_mut();

    assert_eq!(keys, vec![1, 2, 3, 4]);
    assert_eq!(tree.get_child(2).unwrap().value(), &Thing(2));
    assert_eq!(
        tree.get_child(2).unwrap().get_child(4).unwrap().value(),
        &Thing(4)
    );
}

#[test]
fn clone_copies_keys_arrangement_and_values() {
    let mut tree = TestSubject::new(Thing(0));
    let (_, child) = tree.add_child(1, Thing(1));
    child.add_child(2, Thing(2));
    tree.add_child(3, Thing(3));

    let copy = tree.clone();

    assert_eq!(copy.value(), &Thing(0));
    assert_eq!(copy.children_keys(), vec![1, 3]);
    assert_eq!(copy.get_child(1).unwrap().value(), &Thing(1));
    assert_eq!(
        copy.get_child(1).unwrap().get_child(2).unwrap().value(),
        &Thing(2)
    );
    assert_eq!(copy.get_child(3).unwrap().value(), &Thing(3));
}
