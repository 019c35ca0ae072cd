use avl_tree::{AVLTree, OrderedValue};

fn num(n: i32) -> OrderedValue {
    OrderedValue::Number(n)
}

fn text(s: &str) -> OrderedValue {
    OrderedValue::Text(s.to_string())
}

fn keys_of(tree: &AVLTree) -> Vec<OrderedValue> {
    tree.dump().into_iter().map(|e| e.0).collect()
}

#[test]
fn empty_tree_holds_nothing() {
    let mut tree = AVLTree::new();
    assert_eq!(tree.len(), 0);
    assert!(tree.is_empty());
    assert_eq!(tree.height(), 0);
    assert_eq!(tree.root_key(), None);
    assert_eq!(tree.find(&num(1)), None);
    assert_eq!(tree.find(&text("a")), None);
    assert!(!tree.has(&num(1)));
    assert_eq!(tree.remove(&num(1)), None);
    assert_eq!(tree.dump(), vec![]);
    assert_eq!(tree.len(), 0);
}

#[test]
fn single_insert_makes_one_node() {
    let mut tree = AVLTree::new();
    tree.insert(num(42), text("The answer"));
    assert_eq!(tree.len(), 1);
    assert!(!tree.is_empty());
    assert_eq!(tree.height(), 1);
    assert_eq!(tree.root_key(), Some(num(42)));
    assert_eq!(tree.find(&num(42)), Some(text("The answer")));
    assert!(tree.has(&num(42)));
    assert_eq!(tree.dump(), vec![(num(42), text("The answer"))]);
}

#[test]
fn insert_twice_keeps_second_value() {
    let mut tree = AVLTree::new();
    tree.insert(num(7), text("first"));
    tree.insert(num(7), text("second"));
    assert_eq!(tree.find(&num(7)), Some(text("second")));
    assert_eq!(tree.len(), 1);
    assert_eq!(tree.height(), 1);
    tree.insert(num(7), num(3));
    assert_eq!(tree.find(&num(7)), Some(num(3)));
    assert_eq!(tree.dump(), vec![(num(7), num(3))]);
}

#[test]
fn upsert_deep_in_the_tree() {
    let mut tree = AVLTree::new();
    for k in 1..=15 {
        tree.insert(num(k), num(k * 10));
    }
    let before = tree.height();
    for k in 1..=15 {
        tree.insert(num(k), num(k * 100));
    }
    assert_eq!(tree.len(), 15);
    assert_eq!(tree.height(), before);
    for k in 1..=15 {
        assert_eq!(tree.find(&num(k)), Some(num(k * 100)));
    }
}

#[test]
fn insert_then_remove_gives_value_back() {
    let mut tree = AVLTree::new();
    tree.insert(text("k"), text("v"));
    assert_eq!(tree.remove(&text("k")), Some(text("v")));
    assert_eq!(tree.find(&text("k")), None);
    assert!(!tree.has(&text("k")));
    assert!(tree.is_empty());
    assert_eq!(tree.height(), 0);
    assert_eq!(tree.remove(&text("k")), None);
}

#[test]
fn remove_after_insert_leaves_others() {
    let mut tree = AVLTree::new();
    tree.insert(num(5), text("five"));
    tree.insert(num(3), text("three"));
    assert_eq!(tree.remove(&num(5)), Some(text("five")));
    assert_eq!(tree.find(&num(5)), None);
    assert_eq!(tree.find(&num(3)), Some(text("three")));
    assert_eq!(tree.len(), 1);
    assert_eq!(tree.height(), 1);
    assert_eq!(tree.root_key(), Some(num(3)));
    assert_eq!(tree.dump(), vec![(num(3), text("three"))]);
}

#[test]
fn missing_key_is_absent() {
    let mut tree = AVLTree::new();
    for k in [10, 20, 30, 40, 50] {
        tree.insert(num(k), text("x"));
    }
    for k in [0, 15, 25, 35, 45, 55, -10] {
        assert_eq!(tree.find(&num(k)), None);
        assert!(!tree.has(&num(k)));
        assert_eq!(tree.remove(&num(k)), None);
    }
    assert_eq!(tree.find(&text("10")), None);
    assert_eq!(tree.len(), 5);
}

#[test]
fn has_agrees_with_find() {
    let mut tree = AVLTree::new();
    for k in [4, 8, 15, 16, 23, 42] {
        tree.insert(num(k), num(-k));
    }
    for k in 0..50 {
        assert_eq!(tree.has(&num(k)), tree.find(&num(k)).is_some());
    }
}

#[test]
fn remove_leaf_node() {
    let mut tree = AVLTree::new();
    for k in [20, 10, 30] {
        tree.insert(num(k), num(k));
    }
    assert_eq!(tree.remove(&num(10)), Some(num(10)));
    assert_eq!(keys_of(&tree), vec![num(20), num(30)]);
    assert_eq!(tree.root_key(), Some(num(20)));
    assert_eq!(tree.height(), 2);
}

#[test]
fn remove_node_with_one_child() {
    let mut tree = AVLTree::new();
    for k in [20, 10, 30, 40] {
        tree.insert(num(k), num(k));
    }
    assert_eq!(tree.remove(&num(30)), Some(num(30)));
    assert_eq!(keys_of(&tree), vec![num(10), num(20), num(40)]);
    assert_eq!(tree.root_key(), Some(num(20)));
    assert_eq!(tree.height(), 2);
    let mut other = AVLTree::new();
    for k in [20, 10, 30, 5] {
        other.insert(num(k), num(k));
    }
    assert_eq!(other.remove(&num(10)), Some(num(10)));
    assert_eq!(keys_of(&other), vec![num(5), num(20), num(30)]);
    assert_eq!(other.height(), 2);
}

#[test]
fn remove_node_with_two_children_promotes_successor() {
    let mut tree = AVLTree::new();
    for k in [20, 10, 30, 25, 40] {
        tree.insert(num(k), num(k * 2));
    }
    assert_eq!(tree.root_key(), Some(num(20)));
    assert_eq!(tree.remove(&num(20)), Some(num(40)));
    assert_eq!(tree.root_key(), Some(num(25)));
    assert_eq!(
        tree.dump(),
        vec![(num(10), num(20)), (num(25), num(50)), (num(30), num(60)), (num(40), num(80))]
    );
    assert_eq!(tree.find(&num(25)), Some(num(50)));
    assert_eq!(tree.height(), 3);
}

#[test]
fn remove_root_of_three() {
    let mut tree = AVLTree::new();
    for k in [20, 10, 30] {
        tree.insert(num(k), num(k));
    }
    assert_eq!(tree.remove(&num(20)), Some(num(20)));
    assert_eq!(tree.root_key(), Some(num(30)));
    assert_eq!(keys_of(&tree), vec![num(10), num(30)]);
    assert_eq!(tree.height(), 2);
}

#[test]
fn remove_everything_in_turn() {
    let mut tree = AVLTree::new();
    for k in 1..=64 {
        tree.insert(num(k), num(k + 1000));
    }
    for k in 1..=64 {
        assert_eq!(tree.remove(&num(k)), Some(num(k + 1000)));
        assert_eq!(tree.len(), (64 - k) as usize);
        assert_eq!(tree.find(&num(k)), None);
    }
    assert!(tree.is_empty());
    assert_eq!(tree.height(), 0);
    assert_eq!(tree.root_key(), None);
}

#[test]
fn mixed_keys_live_in_one_tree() {
    let mut tree = AVLTree::new();
    tree.insert(text("pear"), num(1));
    tree.insert(num(7), text("seven"));
    tree.insert(text("apple"), num(2));
    tree.insert(num(-3), text("minus three"));
    assert_eq!(
        tree.dump(),
        vec![
            (num(-3), text("minus three")),
            (num(7), text("seven")),
            (text("apple"), num(2)),
            (text("pear"), num(1)),
        ]
    );
    assert_eq!(tree.find(&text("apple")), Some(num(2)));
    assert_eq!(tree.find(&num(7)), Some(text("seven")));
    assert_eq!(tree.find(&text("7")), None);
}

#[test]
fn bulk_insert_applies_pairs_in_order() {
    let mut tree = AVLTree::new();
    tree.bulk_insert(vec![
        (num(3), text("c")),
        (num(1), text("a")),
        (num(2), text("b")),
        (num(1), text("again")),
    ]);
    assert_eq!(tree.len(), 3);
    assert_eq!(tree.find(&num(1)), Some(text("again")));
    assert_eq!(
        tree.dump(),
        vec![(num(1), text("again")), (num(2), text("b")), (num(3), text("c"))]
    );
}

#[test]
fn bulk_insert_is_repeated_insert() {
    let pairs: Vec<(OrderedValue, OrderedValue)> =
        [5, 9, 1, 7, 3, 9, 5, 2].iter().enumerate().map(|(i, k)| (num(*k), num(i as i32))).collect();
    let mut bulk = AVLTree::new();
    bulk.insert(num(100), text("kept"));
    bulk.bulk_insert(pairs.clone());
    let mut single = AVLTree::new();
    single.insert(num(100), text("kept"));
    for (k, v) in pairs {
        single.insert(k, v);
    }
    assert_eq!(bulk.dump(), single.dump());
    assert_eq!(bulk.len(), single.len());
    assert_eq!(bulk.height(), single.height());
    assert_eq!(bulk.root_key(), single.root_key());
}

#[test]
fn bulk_insert_of_nothing_changes_nothing() {
    let mut tree = AVLTree::new();
    tree.insert(num(1), num(1));
    tree.bulk_insert(vec![]);
    assert_eq!(tree.dump(), vec![(num(1), num(1))]);
}

#[test]
fn found_value_is_a_copy() {
    let mut tree = AVLTree::new();
    tree.insert(num(1), text("one"));
    let found = tree.find(&num(1));
    tree.insert(num(1), text("uno"));
    assert_eq!(found, Some(text("one")));
    assert_eq!(tree.find(&num(1)), Some(text("uno")));
}

#[test]
fn key_never_inserted_stays_absent() {
    let mut tree = AVLTree::new();
    tree.bulk_insert(vec![(num(1), num(1)), (num(3), num(3)), (text("2"), num(2))]);
    assert_eq!(tree.find(&num(2)), None);
    tree.insert(num(4), num(4));
    assert_eq!(tree.remove(&num(3)), Some(num(3)));
    assert_eq!(tree.find(&num(2)), None);
    assert!(!tree.has(&num(2)));
    assert_eq!(tree.find(&text("2")), Some(num(2)));
}
