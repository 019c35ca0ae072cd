//! Insertion below a node.

use crate::node::{lemma_content_at, lemma_levels_bounds, Node};
use crate::tree::AVLTree;
use crate::value::{
    lemma_lt_asymmetric, lemma_lt_transitive, lemma_ordering_mirrors, OrderedValue, Val,
};
use std::cmp::Ordering;
use vstd::prelude::*;

verus! {

impl AVLTree {
    /// Puts `value` under `key` in the subtree: a new leaf where the key is
    /// absent, a replaced value where it is present. The path walked is
    /// rebalanced on the way back up.
    pub(crate) fn insert_node(node: Option<Box<Node>>, key: OrderedValue, value: OrderedValue) -> (res:
        Option<Box<Node>>)
        requires
            Node::wf(node),
            Node::levels(node) < i32::MAX - 1,
        ensures
            Node::wf(res),
            res is Some,
            Node::content(res) == Node::content(node).insert(key@, value@),
            Node::levels(node) <= Node::levels(res) <= Node::levels(node) + 1,
        decreases node,
    {
        if let Some(mut n) = node {
            let ghost n0 = *n;
            proof {
                lemma_levels_bounds(n.left);
                lemma_levels_bounds(n.right);
            }
            match key.compare(&n.key) {
                Ordering::Less => {
                    n.left = Self::insert_node(n.left.take(), key, value);
                    proof {
                        assert forall|k: Val| Node::content(n0.right).contains_key(k) implies k
                            != key@ by {
                            lemma_lt_transitive(key@, n0.key@, k);
                            lemma_lt_asymmetric(key@, k);
                        }
                        lemma_lt_asymmetric(key@, n0.key@);
                        lemma_content_at(n0);
                        lemma_content_at(*n);
                        assert(Node::content(Some(n)) =~= Node::content(node).insert(key@, value@));
                    }
                },
                Ordering::Greater => {
                    n.right = Self::insert_node(n.right.take(), key, value);
                    proof {
                        lemma_ordering_mirrors(key@, n0.key@);
                        lemma_lt_asymmetric(n0.key@, key@);
                        lemma_content_at(n0);
                        lemma_content_at(*n);
                        assert(Node::content(Some(n)) =~= Node::content(node).insert(key@, value@));
                    }
                },
                Ordering::Equal => {
                    n.value = value;
                    proof {
                        lemma_content_at(n0);
                        lemma_content_at(*n);
                        assert(Node::content(Some(n)) =~= Node::content(node).insert(key@, value@));
                    }
                    return Some(n);
                },
            }
            n.update_height();
            Some(Self::balance(n))
        } else {
            Some(Box::new(Node::new(key, value)))
        }
    }
}

} // verus!
