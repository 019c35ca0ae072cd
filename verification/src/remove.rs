//! Removal below a node.

use crate::node::{lemma_content_at, lemma_levels_bounds, Node};
use crate::tree::AVLTree;
use crate::value::{
    lemma_lt_asymmetric, lemma_lt_irreflexive, lemma_lt_transitive, lemma_ordering_mirrors,
    OrderedValue, Val,
};
use std::cmp::Ordering;
use vstd::prelude::*;

verus! {

impl AVLTree {
    /// Takes the node with the smallest key out of the subtree below
    /// `node`, and returns what is left, rebalanced, with that node.
    pub(crate) fn remove_min(mut node: Box<Node>) -> (res: (Option<Box<Node>>, Box<Node>))
        requires
            Node::wf(Some(node)),
            Node::levels(Some(node)) < i32::MAX,
        ensures
            Node::wf(res.0),
            Node::content(Some(node)).contains_key(res.1.key@),
            Node::content(Some(node))[res.1.key@] == res.1.value@,
            forall|k: Val| #[trigger]
                Node::content(Some(node)).contains_key(k) ==> k == res.1.key@ || res.1.key@.lt(k),
            Node::content(res.0) == Node::content(Some(node)).remove(res.1.key@),
            Node::levels(Some(node)) - 1 <= Node::levels(res.0) <= Node::levels(Some(node)),
        decreases node,
    {
        let ghost n0 = *node;
        proof {
            lemma_levels_bounds(n0.left);
            lemma_levels_bounds(n0.right);
        }
        if node.left.is_none() {
            proof {
                assert forall|k: Val| Node::content(n0.right).contains_key(k) implies k
                    != n0.key@ by {
                    lemma_lt_asymmetric(n0.key@, k);
                }
                lemma_content_at(n0);
                assert(Node::content(n0.right) =~= Node::content(Some(node)).remove(n0.key@));
            }
            return (node.right.take(), node);
        } else {
            let (new_left, min_node) = Self::remove_min(node.left.take().unwrap());
            node.left = new_left;
            proof {
                let l = Node::content(n0.left);
                let r = Node::content(n0.right);
                let mk = min_node.key@;
                assert(l.contains_key(mk));
                lemma_lt_asymmetric(mk, n0.key@);
                assert forall|k: Val| r.contains_key(k) implies mk.lt(k) && k != mk by {
                    lemma_lt_transitive(mk, n0.key@, k);
                    lemma_lt_asymmetric(mk, k);
                }
                lemma_content_at(n0);
                lemma_content_at(*node);
                assert(Node::content(Some(node)) =~= Node::content(Some(Box::new(n0))).remove(mk));
            }
            node.update_height();
            (Some(Self::balance(node)), min_node)
        }
    }

    /// Removes the entry under `key` from the subtree, if there is one, and
    /// returns what is left, rebalanced, with the value that was removed.
    pub(crate) fn remove_node(node: Option<Box<Node>>, key: &OrderedValue) -> (res: (
        Option<Box<Node>>,
        Option<OrderedValue>,
    ))
        requires
            Node::wf(node),
            Node::levels(node) < i32::MAX,
        ensures
            Node::wf(res.0),
            Node::content(res.0) == Node::content(node).remove(key@),
            match res.1 {
                Some(v) => Node::content(node).contains_key(key@) && Node::content(node)[key@]
                    == v@,
                None => !Node::content(node).contains_key(key@),
            },
            Node::levels(node) - 1 <= Node::levels(res.0) <= Node::levels(node),
        decreases node,
    {
        if let Some(mut n) = node {
            let ghost n0 = *n;
            let ghost l = Node::content(n0.left);
            let ghost r = Node::content(n0.right);
            proof {
                lemma_levels_bounds(n0.left);
                lemma_levels_bounds(n0.right);
                lemma_ordering_mirrors(key@, n0.key@);
                lemma_lt_irreflexive(key@);
                lemma_content_at(n0);
                assert forall|k: Val| l.contains_key(k) implies k != n0.key@ by {
                    lemma_lt_asymmetric(k, n0.key@);
                }
                assert forall|k: Val| r.contains_key(k) implies k != n0.key@ by {
                    lemma_lt_asymmetric(n0.key@, k);
                }
            }
            let removed = match key.compare(&n.key) {
                Ordering::Less => {
                    let (new_left, rem) = Self::remove_node(n.left.take(), key);
                    n.left = new_left;
                    proof {
                        assert forall|k: Val| r.contains_key(k) implies k != key@ by {
                            lemma_lt_transitive(key@, n0.key@, k);
                            lemma_lt_asymmetric(key@, k);
                        }
                        lemma_content_at(*n);
                        assert(Node::content(Some(n)) =~= Node::content(node).remove(key@));
                    }
                    rem
                },
                Ordering::Greater => {
                    let (new_right, rem) = Self::remove_node(n.right.take(), key);
                    n.right = new_right;
                    proof {
                        assert forall|k: Val| l.contains_key(k) implies k != key@ by {
                            lemma_lt_transitive(k, n0.key@, key@);
                            lemma_lt_asymmetric(k, key@);
                        }
                        lemma_content_at(*n);
                        assert(Node::content(Some(n)) =~= Node::content(node).remove(key@));
                    }
                    rem
                },
                Ordering::Equal => {
                    let removed_value = Some(n.value.clone());
                    if n.left.is_none() {
                        proof {
                            assert(r =~= Node::content(node).remove(key@));
                        }
                        return (n.right.take(), removed_value);
                    } else if n.right.is_none() {
                        proof {
                            assert(l =~= Node::content(node).remove(key@));
                        }
                        return (n.left.take(), removed_value);
                    } else {
                        let (new_right, min_node) = Self::remove_min(n.right.take().unwrap());
                        let successor = *min_node;
                        n.right = new_right;
                        n.key = successor.key;
                        n.value = successor.value;
                        proof {
                            let mk = n.key@;
                            assert(r.contains_key(mk));
                            assert forall|k: Val| l.contains_key(k) implies k.lt(mk) && k
                                != mk by {
                                lemma_lt_transitive(k, n0.key@, mk);
                                lemma_lt_asymmetric(k, mk);
                            }
                            lemma_content_at(*n);
                            assert(Node::content(Some(n)) =~= Node::content(node).remove(key@));
                        }
                        removed_value
                    }
                },
            };
            n.update_height();
            (Some(Self::balance(n)), removed)
        } else {
            (None, None)
        }
    }
}

} // verus!
