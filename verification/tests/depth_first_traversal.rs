use tagged_tree::Tree;

type TestSubject = Tree<Thing>;

#[derive(Eq, PartialEq, Default, Debug)]
struct Thing(usize);

#[test]
fn depth_first_traversal_traverse_empty_tree() {
    let subject = TestSubject::new(Thing(0));
    let mut iter = subject.iter_depth_first();
    assert!(iter.next().is_none());
}

#[test]
fn depth_first_traversal_traverse_empty_tree_mut() {
    let mut subject = TestSubject::new(Thing(0));
    let mut iter = subject.iter_depth_first_mut();
    assert!(iter.next(&mut subject).is_none());
}

#[test]
fn depth_first_traversal_traverse_tree_with_one_generation() {
    let mut subject = TestSubject::new(Thing(0));
    subject.add_child(1, Thing(1));
    subject.add_child(2, Thing(2));
    subject.add_child(3, Thing(3));

    let mut iter = subject.iter_depth_first();

    let (_, thing) = iter.next().expect("thing 1");
    assert_eq!(1, thing.0);

    let (_, thing) = iter.next().expect("thing 2");
    assert_eq!(2, thing.0);

    let (_, thing) = iter.next().expect("thing 3");
    assert_eq!(3, thing.0);

    assert!(iter.next().is_none());
}

#[test]
fn depth_first_traversal_traverse_tree_with_one_generation_mut() {
    let mut subject = TestSubject::new(Thing(0));
    subject.add_child(1, Thing(1));
    subject.add_child(2, Thing(2));
    subject.add_child(3, Thing(3));

    let mut iter = subject.iter_depth_first_mut();

    let (_, thing) = iter.next(&mut subject).expect("thing 1");
    assert_eq!(1, thing.0);

    let (_, thing) = iter.next(&mut subject).expect("thing 2");
    assert_eq!(2, thing.0);

    let (_, thing) = iter.next(&mut subject).expect("thing 3");
    assert_eq!(3, thing.0);

    assert!(iter.next(&mut subject).is_none());
}

#[test]
fn depth_first_traversal_traverse_tree_with_two_generations() {
    let mut tree = TestSubject::new(Thing(99));

    let mut counter: usize = 0;
    for _ in 0..3 {
        let subtree = tree.entry(counter as u64).or_insert(Thing(counter));
        counter += 1;
        for _ in 0..3 {
            subtree.add_child(counter as u64, Thing(counter));
            counter += 1;
        }
    }

    let mut iter = tree.iter_depth_first();
    let mut visited: Vec<usize> = Vec::new();
    while let Some((id, obj)) = iter.next() {
        assert_eq!(id as usize, obj.0);
        visited.push(obj.0);
    }

    let expected: Vec<usize> = (0..12).collect();
    assert_eq!(visited, expected);
}

#[test]
fn go_down_one_level_should_succeed() {
    // -------------------- SETUP --------------------
    let mut subject = TestSubject::new(Thing(0));
    let child = subject.entry(1).or_insert(Thing(1));
    child.add_child(2, Thing(2));
    let mut iter = subject.iter_depth_first();
    let stack_len = iter.stack_len();

    // ------------------ EXERCISE ------------------
    let result = iter.go_down_one_level();

    // ------------------- ASSERT -------------------
    result.unwrap();
    assert_eq!(iter.stack_len(), stack_len + 1);
    assert!(iter.has_current());
}

#[test]
fn go_down_one_level_should_fail() {
    // -------------------- SETUP --------------------
    let subject = TestSubject::new(Thing(0));
    let mut iter = subject.iter_depth_first();

    // ------------------ EXERCISE ------------------
    let result = iter.go_down_one_level();

    // ------------------- ASSERT -------------------
    assert!(result.is_err());
}

#[test]
fn go_up_one_level_should_succeed() {
    // -------------------- SETUP --------------------
    let mut subject = TestSubject::new(Thing(0));
    let child = subject.entry(1).or_insert(Thing(1));
    child.add_child(2, Thing(2));
    let mut iter = subject.iter_depth_first();
    iter.go_down_one_level().expect("test setup failed");
    let stack_len = iter.stack_len();

    // ------------------ EXERCISE ------------------
    let result = iter.go_up_one_level();

    // ------------------- ASSERT -------------------
    result.unwrap();
    assert_eq!(iter.stack_len(), stack_len - 1);
}

#[test]
fn go_up_one_level_should_fail() {
    // -------------------- SETUP --------------------
    let subject = TestSubject::new(Thing(0));
    let mut iter = subject.iter_depth_first();

    // ------------------ EXERCISE ------------------
    let result = iter.go_up_one_level();

    // ------------------- ASSERT -------------------
    assert!(result.is_err());
}
