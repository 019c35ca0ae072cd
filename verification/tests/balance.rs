use avl_tree::{AVLTree, OrderedValue};
use std::collections::BTreeMap;

fn key(n: i32) -> OrderedValue {
    OrderedValue::Number(n)
}

fn tree_of(keys: &[i32]) -> AVLTree {
    let mut tree = AVLTree::new();
    for k in keys {
        tree.insert(key(*k), key(*k));
    }
    tree
}

fn numbers_in(tree: &AVLTree) -> Vec<i32> {
    tree.dump()
        .into_iter()
        .map(|e| match e.0 {
            OrderedValue::Number(n) => n,
            OrderedValue::Text(_) => panic!("a text key in a tree of numbers"),
        })
        .collect()
}

/// The greatest height a balanced tree of `n` nodes can have.
fn tallest(n: usize) -> i32 {
    let mut fewest_below: u128 = 0;
    let mut fewest: u128 = 1;
    let mut h = 0;
    while fewest <= n as u128 {
        let next = fewest + fewest_below + 1;
        fewest_below = fewest;
        fewest = next;
        h += 1;
    }
    h
}

/// The least height a binary tree of `n` nodes can have.
fn shortest(n: usize) -> i32 {
    let mut h = 0;
    while (1usize << h) - 1 < n {
        h += 1;
    }
    h
}

#[test]
fn height_bounds_are_what_they_should_be() {
    assert_eq!(tallest(0), 0);
    assert_eq!(tallest(1), 1);
    assert_eq!(tallest(2), 2);
    assert_eq!(tallest(3), 2);
    assert_eq!(tallest(4), 3);
    assert_eq!(tallest(6), 3);
    assert_eq!(tallest(7), 4);
    assert_eq!(tallest(12), 5);
    assert_eq!(shortest(0), 0);
    assert_eq!(shortest(1), 1);
    assert_eq!(shortest(3), 2);
    assert_eq!(shortest(4), 3);
    assert_eq!(shortest(5), 3);
}

#[test]
fn ascending_inserts_rotate_left() {
    let mut tree = AVLTree::new();
    tree.insert(key(10), key(1));
    tree.insert(key(20), key(2));
    assert_eq!(tree.height(), 2);
    assert_eq!(tree.root_key(), Some(key(10)));
    tree.insert(key(30), key(3));
    assert_eq!(tree.height(), 2);
    assert_eq!(tree.root_key(), Some(key(20)));
    tree.insert(key(40), key(4));
    assert_eq!(tree.height(), 3);
    tree.insert(key(50), key(5));
    assert_eq!(tree.height(), 3);
    assert_eq!(tree.root_key(), Some(key(20)));
    assert_eq!(numbers_in(&tree), vec![10, 20, 30, 40, 50]);
    assert_eq!(tree.len(), 5);
}

#[test]
fn descending_inserts_rotate_right() {
    let tree = tree_of(&[30, 20, 10]);
    assert_eq!(tree.root_key(), Some(key(20)));
    assert_eq!(tree.height(), 2);
    assert_eq!(numbers_in(&tree), vec![10, 20, 30]);
}

#[test]
fn left_right_case_rotates_twice() {
    let tree = tree_of(&[30, 10, 20]);
    assert_eq!(tree.root_key(), Some(key(20)));
    assert_eq!(tree.height(), 2);
    assert_eq!(numbers_in(&tree), vec![10, 20, 30]);
}

#[test]
fn right_left_case_rotates_twice() {
    let tree = tree_of(&[10, 30, 20]);
    assert_eq!(tree.root_key(), Some(key(20)));
    assert_eq!(tree.height(), 2);
    assert_eq!(numbers_in(&tree), vec![10, 20, 30]);
}

#[test]
fn six_ascending_inserts_move_the_root() {
    let tree = tree_of(&[10, 20, 30, 40, 50, 60]);
    assert_eq!(tree.root_key(), Some(key(40)));
    assert_eq!(tree.height(), 3);
}

#[test]
fn sorted_inserts_build_a_full_tree() {
    let mut tree = AVLTree::new();
    for k in 1..=1023 {
        tree.insert(key(k), key(k));
    }
    assert_eq!(tree.height(), 10);
    assert_eq!(tree.root_key(), Some(key(512)));
    tree.insert(key(1024), key(1024));
    assert_eq!(tree.height(), 11);
    let mut down = AVLTree::new();
    for k in (1..=1023).rev() {
        down.insert(key(k), key(k));
    }
    assert_eq!(down.height(), 10);
    assert_eq!(down.root_key(), Some(key(512)));
}

#[test]
fn removal_rebalances_with_single_rotation() {
    let mut tree = tree_of(&[20, 10, 30, 40]);
    assert_eq!(tree.height(), 3);
    assert_eq!(tree.remove(&key(10)), Some(key(10)));
    assert_eq!(tree.root_key(), Some(key(30)));
    assert_eq!(tree.height(), 2);
    assert_eq!(numbers_in(&tree), vec![20, 30, 40]);
}

#[test]
fn removal_rebalances_with_double_rotation() {
    let mut tree = tree_of(&[20, 10, 40, 30]);
    assert_eq!(tree.height(), 3);
    assert_eq!(tree.remove(&key(10)), Some(key(10)));
    assert_eq!(tree.root_key(), Some(key(30)));
    assert_eq!(tree.height(), 2);
    assert_eq!(numbers_in(&tree), vec![20, 30, 40]);
}

#[test]
fn removal_with_even_child_keeps_height() {
    let mut tree = tree_of(&[20, 10, 40, 30, 50]);
    assert_eq!(tree.remove(&key(10)), Some(key(10)));
    assert_eq!(tree.root_key(), Some(key(40)));
    assert_eq!(tree.height(), 3);
    assert_eq!(numbers_in(&tree), vec![20, 30, 40, 50]);
}

#[test]
fn height_stays_within_bounds_under_churn() {
    let mut tree = AVLTree::new();
    let mut model: BTreeMap<i32, i32> = BTreeMap::new();
    let mut state: u64 = 0x2545_f491_4f6c_dd1d;
    for step in 0..6000 {
        state = state.wrapping_mul(6364136223846793005).wrapping_add(1442695040888963407);
        let k = ((state >> 33) % 400) as i32 - 200;
        let remove = (state >> 20) % 3 == 0;
        if remove {
            assert_eq!(tree.remove(&key(k)), model.remove(&k).map(key));
        } else {
            tree.insert(key(k), key(step));
            model.insert(k, step);
        }
        assert_eq!(tree.len(), model.len());
        let h = tree.height();
        assert!(shortest(tree.len()) <= h && h <= tallest(tree.len()), "height {} for {} entries", h, tree.len());
        assert_eq!(tree.is_empty(), model.is_empty());
    }
    let expected: Vec<(OrderedValue, OrderedValue)> =
        model.iter().map(|(k, v)| (key(*k), key(*v))).collect();
    assert_eq!(tree.dump(), expected);
    for k in -200..200 {
        assert_eq!(tree.find(&key(k)), model.get(&k).map(|v| key(*v)));
        assert_eq!(tree.has(&key(k)), model.contains_key(&k));
    }
}

#[test]
fn height_is_logarithmic_in_size() {
    let mut tree = AVLTree::new();
    for k in 0..5000 {
        tree.insert(key((k * 7919) % 5003), key(k));
        let h = tree.height() as u32;
        assert!((1u128 << (h / 2)) <= tree.len() as u128 + 1);
    }
    assert_eq!(tree.len(), 5000);
    assert!(tree.height() <= tallest(5000));
}
