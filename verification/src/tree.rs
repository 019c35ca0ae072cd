//! The balanced tree and its operations.

use crate::laws::lemma_listing_is;
use crate::model::{entries_view, insert_all, listing, lists, lookup};
use crate::node::{
    lemma_inorder_len, lemma_inorder_lists_content, lemma_levels_bounds, lemma_levels_logarithmic,
    lemma_levels_small, lemma_size_counts_keys, Node,
};
use crate::render::{listing_text, render_entries};
use crate::value::{OrderedValue, Val};
use vstd::arithmetic::power2::pow2;
use vstd::prelude::*;

verus! {

/// An ordered map from keys to values, kept as a height-balanced binary
/// search tree.
pub struct AVLTree {
    root: Option<Box<Node>>,
    len: usize,
}

impl View for AVLTree {
    type V = Map<Val, Val>;

    /// The entries of the tree, as a map from key to value.
    closed spec fn view(&self) -> Map<Val, Val> {
        Node::content(self.root)
    }
}

impl AVLTree {
    #[verifier::type_invariant]
    spec fn sound(&self) -> bool {
        &&& Node::wf(self.root)
        &&& Node::size(self.root) == self.len
    }

    /// At every node, the heights of the two subtrees differ by one at most.
    pub closed spec fn balanced(&self) -> bool {
        Node::balanced(self.root)
    }

    /// At every node, the keys of the left subtree come before the node's
    /// key, and the keys of the right subtree come after it.
    pub closed spec fn ordered(&self) -> bool {
        Node::ordered(self.root)
    }

    /// The number of levels of the tree: 0 when it is empty.
    pub closed spec fn spec_height(&self) -> int {
        Node::levels(self.root)
    }

    /// The number of entries of the tree.
    pub closed spec fn spec_len(&self) -> usize {
        self.len
    }

    /// A balanced tree is shallow: with `n` entries it has no more than
    /// `2 * log2(n + 1) + 1` levels.
    pub proof fn lemma_balanced_is_shallow(self)
        requires
            self.balanced(),
            self.ordered(),
        ensures
            self@.dom().finite(),
            pow2((self.spec_height() / 2) as nat) <= self@.len() + 1,
    {
        lemma_size_counts_keys(self.root);
        lemma_levels_logarithmic(self.root);
    }

    /// An empty tree.
    pub fn new() -> (tree: Self)
        ensures
            tree@ == Map::<Val, Val>::empty(),
            tree.spec_len() == 0,
            tree.spec_height() == 0,
            tree.balanced(),
            tree.ordered(),
    {
        AVLTree { root: None, len: 0 }
    }

    /// The number of entries.
    #[verifier::when_used_as_spec(spec_len)]
    pub fn len(&self) -> (n: usize)
        ensures
            n == self.spec_len(),
            self@.dom().finite(),
            n == self@.len(),
    {
        proof {
            use_type_invariant(self);
            lemma_size_counts_keys(self.root);
        }
        self.len
    }

    /// Whether the tree holds an entry under `key`.
    pub fn has(&self, key: &OrderedValue) -> (present: bool)
        ensures
            present == self@.contains_key(key@),
    {
        proof {
            use_type_invariant(self);
        }
        Self::search_node(&self.root, key).is_some()
    }

    /// A copy of the value stored under `key`, if there is one.
    pub fn find(&self, key: &OrderedValue) -> (found: Option<OrderedValue>)
        ensures
            match found {
                Some(v) => lookup(self@, key@) == Some(v@),
                None => lookup(self@, key@) is None,
            },
    {
        proof {
            use_type_invariant(self);
        }
        match Self::search_node(&self.root, key) {
            Some(v) => Some(v.clone()),
            None => None,
        }
    }

    /// Stores `value` under `key`: a new entry where the key is absent, a
    /// replaced value where it is present. A new entry needs room: the
    /// number of entries has to stay countable in a machine word.
    pub fn insert(&mut self, key: OrderedValue, value: OrderedValue)
        requires
            old(self).len() < usize::MAX || old(self)@.contains_key(key@),
        ensures
            final(self)@ == old(self)@.insert(key@, value@),
            final(self).len() == old(self).len() + (if old(self)@.contains_key(key@) {
                0int
            } else {
                1int
            }),
            old(self).spec_height() <= final(self).spec_height() <= old(self).spec_height() + 1,
            final(self).balanced(),
            final(self).ordered(),
    {
        proof {
            use_type_invariant(&*self);
            lemma_levels_small(self.root);
            lemma_size_counts_keys(self.root);
        }
        let fresh = !self.has(&key);
        let mut tree = AVLTree::new();
        std::mem::swap(self, &mut tree);
        let AVLTree { root, len } = tree;
        let root = Self::insert_node(root, key, value);
        proof {
            lemma_size_counts_keys(root);
        }
        *self = AVLTree { root, len: if fresh { len + 1 } else { len } };
    }

    /// Inserts the pairs one by one, first to last: a later pair overwrites
    /// an earlier one with the same key.
    pub fn bulk_insert(&mut self, pairs: Vec<(OrderedValue, OrderedValue)>)
        requires
            old(self).len() + pairs.len() <= usize::MAX,
        ensures
            final(self)@ == insert_all(old(self)@, entries_view(pairs@)),
            final(self).len() <= old(self).len() + pairs.len(),
            final(self).balanced(),
            final(self).ordered(),
    {
        proof {
            use_type_invariant(&*self);
        }
        let ghost start = self@;
        let ghost start_len = self.len();
        for pair in iter: pairs
            invariant
                self@ == insert_all(start, entries_view(pairs@.take(iter.index()))),
                self.len() <= start_len + iter.index(),
                start_len + pairs.len() <= usize::MAX,
                self.balanced(),
                self.ordered(),
        {
            proof {
                let i = iter.index();
                let now = entries_view(pairs@.take(i + 1));
                assert(pair == pairs@[i]);
                assert(now.drop_last() =~= entries_view(pairs@.take(i)));
                assert(now.last() == (pair.0@, pair.1@));
            }
            self.insert(pair.0, pair.1);
        }
        assert(pairs@.take(pairs@.len() as int) =~= pairs@);
    }

    /// Removes the entry under `key`, and returns the value it held, if
    /// there was one.
    pub fn remove(&mut self, key: &OrderedValue) -> (removed: Option<OrderedValue>)
        ensures
            final(self)@ == old(self)@.remove(key@),
            match removed {
                Some(v) => lookup(old(self)@, key@) == Some(v@),
                None => lookup(old(self)@, key@) is None,
            },
            final(self).len() == old(self).len() - (if old(self)@.contains_key(key@) {
                1int
            } else {
                0int
            }),
            old(self).spec_height() - 1 <= final(self).spec_height() <= old(self).spec_height(),
            final(self).balanced(),
            final(self).ordered(),
    {
        proof {
            use_type_invariant(&*self);
            lemma_levels_small(self.root);
            lemma_size_counts_keys(self.root);
        }
        let mut tree = AVLTree::new();
        std::mem::swap(self, &mut tree);
        let AVLTree { root, len } = tree;
        let (root, removed) = Self::remove_node(root, key);
        proof {
            lemma_size_counts_keys(root);
        }
        *self = AVLTree { root, len: if removed.is_some() { len - 1 } else { len } };
        removed
    }

    /// The entries in ascending key order.
    pub fn dump(&self) -> (entries: Vec<(OrderedValue, OrderedValue)>)
        ensures
            lists(entries_view(entries@), self@),
            entries_view(entries@) == listing(self@),
            entries.len() == self.len(),
    {
        proof {
            use_type_invariant(self);
            lemma_inorder_lists_content(self.root);
            lemma_inorder_len(self.root);
        }
        let mut entries = Vec::new();
        Self::traverse_in_order(&self.root, &mut entries);
        proof {
            assert(entries_view(entries@) =~= Node::inorder(self.root));
            lemma_listing_is(entries_view(entries@), self@);
        }
        entries
    }

    /// The entries in ascending key order as one text, for display: each
    /// entry reads `{ key: K, value: 'V' }`, with a comma and a space
    /// between entries.
    pub fn dump_text(&self) -> (text: String)
        ensures
            text@ == listing_text(listing(self@)),
    {
        let entries = self.dump();
        render_entries(&entries)
    }

    /// The key at the root of the tree, if the tree is not empty.
    pub closed spec fn spec_root_key(&self) -> Option<Val> {
        match self.root {
            Some(n) => Some(n.key@),
            None => None,
        }
    }

    /// A copy of the key at the root of the tree, if the tree is not empty.
    pub fn root_key(&self) -> (key: Option<OrderedValue>)
        ensures
            match key {
                Some(k) => self.spec_root_key() == Some(k@) && self@.contains_key(k@),
                None => self.spec_root_key() is None && self@ == Map::<Val, Val>::empty(),
            },
    {
        match &self.root {
            Some(n) => Some(n.key.clone()),
            None => None,
        }
    }

    /// Whether the tree holds no entry.
    pub fn is_empty(&self) -> (empty: bool)
        ensures
            empty == (self.len() == 0),
            empty == (self@ == Map::<Val, Val>::empty()),
    {
        proof {
            use_type_invariant(self);
            lemma_size_counts_keys(self.root);
            if self.len == 0 {
                assert(self@ =~= Map::<Val, Val>::empty());
            }
        }
        self.len == 0
    }

    /// The number of levels of the tree: 0 when it is empty, and never more
    /// than logarithmic in the number of entries.
    pub fn height(&self) -> (h: i32)
        ensures
            h == self.spec_height(),
            0 <= h <= 129,
            pow2((h / 2) as nat) <= self.len() + 1,
            h == 0 <==> self.len() == 0,
    {
        proof {
            use_type_invariant(self);
            lemma_levels_small(self.root);
            lemma_levels_logarithmic(self.root);
            lemma_levels_bounds(self.root);
        }
        Node::height(&self.root)
    }
}

} // verus!
