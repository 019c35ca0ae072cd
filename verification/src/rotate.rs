//! Rotations, and the rebalancing step built from them.

use crate::node::{lemma_content_at, lemma_levels_bounds, Node};
use crate::tree::AVLTree;
use crate::value::{lemma_lt_asymmetric, lemma_lt_transitive, Val};
use vstd::prelude::*;

verus! {

impl AVLTree {
    /// Makes the left child of `y` the root of the subtree: `y` moves down
    /// to the right and takes over what was the right subtree of that child.
    pub(crate) fn rotate_right(mut y: Box<Node>) -> (x: Box<Node>)
        requires
            y.left is Some,
            Node::ordered(Some(y)),
            Node::cached(y.left),
            Node::cached(y.right),
            Node::levels(Some(y)) < i32::MAX,
        ensures
            Node::ordered(Some(x)),
            Node::cached(Some(x)),
            Node::content(Some(x)) == Node::content(Some(y)),
            x.key == y.left.unwrap().key,
            x.value == y.left.unwrap().value,
            x.left == y.left.unwrap().left,
            x.right is Some,
            x.right.unwrap().key == y.key,
            x.right.unwrap().value == y.value,
            x.right.unwrap().left == y.left.unwrap().right,
            x.right.unwrap().right == y.right,
    {
        let ghost y0 = *y;
        let mut x = y.left.take().unwrap();
        let ghost x0 = *x;
        proof {
            lemma_levels_bounds(x0.left);
            lemma_levels_bounds(x0.right);
            lemma_levels_bounds(y0.right);
        }
        y.left = x.right.take();
        y.update_height();
        x.right = Some(y);
        x.update_height();
        proof {
            reveal_with_fuel(Node::ordered, 2);
            reveal_with_fuel(Node::cached, 2);
            assert(y0.left == Some(Box::new(x0)));
            let b = Node::content(x0.right);
            let c = Node::content(y0.right);
            let kx = x0.key@;
            let ky = y0.key@;
            assert(Node::content(y0.left).contains_key(kx));
            assert forall|k: Val| c.contains_key(k) implies kx.lt(k) && k != kx by {
                lemma_lt_transitive(kx, ky, k);
                lemma_lt_asymmetric(kx, k);
            }
            assert forall|k: Val| b.contains_key(k) implies k.lt(ky) && k != kx by {
                assert(Node::content(y0.left).contains_key(k));
                lemma_lt_asymmetric(kx, k);
            }
            lemma_lt_asymmetric(kx, ky);
            lemma_content_at(x0);
            lemma_content_at(y0);
            lemma_content_at(*x.right.unwrap());
            lemma_content_at(*x);
            assert(Node::content(Some(x)) =~= Node::content(Some(Box::new(y0))));
        }
        x
    }

    /// Makes the right child of `x` the root of the subtree: `x` moves down
    /// to the left and takes over what was the left subtree of that child.
    pub(crate) fn rotate_left(mut x: Box<Node>) -> (y: Box<Node>)
        requires
            x.right is Some,
            Node::ordered(Some(x)),
            Node::cached(x.left),
            Node::cached(x.right),
            Node::levels(Some(x)) < i32::MAX,
        ensures
            Node::ordered(Some(y)),
            Node::cached(Some(y)),
            Node::content(Some(y)) == Node::content(Some(x)),
            y.key == x.right.unwrap().key,
            y.value == x.right.unwrap().value,
            y.right == x.right.unwrap().right,
            y.left is Some,
            y.left.unwrap().key == x.key,
            y.left.unwrap().value == x.value,
            y.left.unwrap().left == x.left,
            y.left.unwrap().right == x.right.unwrap().left,
    {
        let ghost x0 = *x;
        let mut y = x.right.take().unwrap();
        let ghost y0 = *y;
        proof {
            lemma_levels_bounds(x0.left);
            lemma_levels_bounds(y0.left);
            lemma_levels_bounds(y0.right);
        }
        x.right = y.left.take();
        x.update_height();
        y.left = Some(x);
        y.update_height();
        proof {
            reveal_with_fuel(Node::ordered, 2);
            reveal_with_fuel(Node::cached, 2);
            assert(x0.right == Some(Box::new(y0)));
            let a = Node::content(x0.left);
            let b = Node::content(y0.left);
            let kx = x0.key@;
            let ky = y0.key@;
            assert(Node::content(x0.right).contains_key(ky));
            assert forall|k: Val| a.contains_key(k) implies k.lt(ky) && k != ky by {
                lemma_lt_transitive(k, kx, ky);
                lemma_lt_asymmetric(k, ky);
            }
            assert forall|k: Val| b.contains_key(k) implies kx.lt(k) && k != ky by {
                assert(Node::content(x0.right).contains_key(k));
                lemma_lt_asymmetric(k, ky);
            }
            assert forall|k: Val| Node::content(y0.right).contains_key(k) implies k != kx by {
                lemma_lt_transitive(kx, ky, k);
                lemma_lt_asymmetric(kx, k);
            }
            lemma_lt_asymmetric(kx, ky);
            lemma_content_at(x0);
            lemma_content_at(y0);
            lemma_content_at(*y.left.unwrap());
            lemma_content_at(*y);
            assert(Node::content(Some(y)) =~= Node::content(Some(Box::new(x0))));
        }
        y
    }

    /// Restores the height balance at `node` after one of its subtrees grew
    /// or shrank by a level, with one single or double rotation at most.
    pub(crate) fn balance(mut node: Box<Node>) -> (res: Box<Node>)
        requires
            Node::ordered(Some(node)),
            Node::cached(Some(node)),
            Node::balanced(node.left),
            Node::balanced(node.right),
            -2 <= node.tilt() <= 2,
            Node::levels(Some(node)) < i32::MAX,
        ensures
            Node::wf(Some(res)),
            Node::content(Some(res)) == Node::content(Some(node)),
            Node::levels(Some(node)) - 1 <= Node::levels(Some(res)) <= Node::levels(Some(node)),
            -1 <= node.tilt() <= 1 ==> res == node,
            node.tilt() > 1 && node.left.unwrap().tilt() >= 0 ==> {
                &&& res.key == node.left.unwrap().key
                &&& res.right.unwrap().key == node.key
            },
            node.tilt() > 1 && node.left.unwrap().tilt() < 0 ==> {
                &&& res.key == node.left.unwrap().right.unwrap().key
                &&& res.left.unwrap().key == node.left.unwrap().key
                &&& res.right.unwrap().key == node.key
            },
            node.tilt() < -1 && node.right.unwrap().tilt() <= 0 ==> {
                &&& res.key == node.right.unwrap().key
                &&& res.left.unwrap().key == node.key
            },
            node.tilt() < -1 && node.right.unwrap().tilt() > 0 ==> {
                &&& res.key == node.right.unwrap().left.unwrap().key
                &&& res.left.unwrap().key == node.key
                &&& res.right.unwrap().key == node.right.unwrap().key
            },
    {
        proof {
            reveal_with_fuel(Node::ordered, 2);
            reveal_with_fuel(Node::cached, 2);
            reveal_with_fuel(Node::balanced, 2);
            lemma_levels_bounds(node.left);
            lemma_levels_bounds(node.right);
        }
        let balance_factor = node.balance_factor();
        if balance_factor > 1 {
            if node.left.as_ref().unwrap().balance_factor() < 0 {
                node.left = Some(Self::rotate_left(node.left.take().unwrap()));
            }
            Self::rotate_right(node)
        } else if balance_factor < -1 {
            if node.right.as_ref().unwrap().balance_factor() > 0 {
                node.right = Some(Self::rotate_right(node.right.take().unwrap()));
            }
            Self::rotate_left(node)
        } else {
            node
        }
    }
}

} // verus!
