//! Lookup and in-order traversal below a node.

use crate::model::entries_view;
use crate::node::{lemma_levels_bounds, Node};
use crate::tree::AVLTree;
use crate::value::{lemma_lt_asymmetric, lemma_ordering_mirrors, OrderedValue};
use std::cmp::Ordering;
use vstd::prelude::*;

verus! {

impl AVLTree {
    /// Appends the entries of the subtree to `entries`, left subtree first,
    /// then the node itself, then the right subtree.
    pub(crate) fn traverse_in_order(
        node: &Option<Box<Node>>,
        entries: &mut Vec<(OrderedValue, OrderedValue)>,
    )
        ensures
            entries_view(final(entries)@) == entries_view(old(entries)@) + Node::inorder(*node),
        decreases *node,
    {
        if let Some(n) = node {
            Self::traverse_in_order(&n.left, entries);
            let ghost before = entries@;
            entries.push((n.key.clone(), n.value.clone()));
            assert(entries_view(entries@) =~= entries_view(before) + seq![(n.key@, n.value@)]);
            Self::traverse_in_order(&n.right, entries);
            assert(entries_view(entries@) =~= entries_view(old(entries)@) + Node::inorder(*node));
        } else {
            assert(entries_view(entries@) =~= entries_view(old(entries)@) + Node::inorder(*node));
        }
    }

    /// Walks down from `node` along the comparison path of `key`, to the
    /// value stored under it or to an empty slot.
    pub(crate) fn search_node<'a>(node: &'a Option<Box<Node>>, key: &OrderedValue) -> (found:
        Option<&'a OrderedValue>)
        requires
            Node::ordered(*node),
        ensures
            match found {
                Some(v) => Node::content(*node).contains_key(key@) && Node::content(*node)[key@]
                    == v@,
                None => !Node::content(*node).contains_key(key@),
            },
    {
        let mut current = node;
        loop
            invariant
                Node::ordered(*current),
                Node::content(*node).contains_key(key@) <==> Node::content(*current).contains_key(
                    key@,
                ),
                Node::content(*node).contains_key(key@) ==> Node::content(*node)[key@]
                    == Node::content(*current)[key@],
            decreases Node::levels(*current),
        {
            match current {
                None => {
                    return None;
                },
                Some(n) => {
                    proof {
                        lemma_levels_bounds(n.left);
                        lemma_levels_bounds(n.right);
                        lemma_ordering_mirrors(key@, n.key@);
                        if key@.lt(n.key@) {
                            lemma_lt_asymmetric(key@, n.key@);
                        }
                        if n.key@.lt(key@) {
                            lemma_lt_asymmetric(n.key@, key@);
                        }
                        if Node::content(n.left).contains_key(key@) {
                            lemma_lt_asymmetric(key@, n.key@);
                        }
                        if Node::content(n.right).contains_key(key@) {
                            lemma_lt_asymmetric(n.key@, key@);
                        }
                    }
                    match key.compare(&n.key) {
                        Ordering::Less => {
                            current = &n.left;
                        },
                        Ordering::Greater => {
                            current = &n.right;
                        },
                        Ordering::Equal => {
                            return Some(&n.value);
                        },
                    }
                },
            }
        }
    }
}

} // verus!
