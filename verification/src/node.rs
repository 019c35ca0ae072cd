//! Tree nodes: what a subtree holds, how tall it is, and when it is in
//! good standing.

use crate::model::{has_key, lists};
use crate::value::{lemma_lt_asymmetric, lemma_lt_transitive, OrderedValue, Val};
use vstd::arithmetic::power2::{lemma2_to64, lemma_pow2_strictly_increases, lemma_pow2_unfold, pow2};
use vstd::prelude::*;

verus! {

/// A vertex of the tree: one entry, the cached height of the subtree below
/// it, and the two subtrees it owns.
pub(crate) struct Node {
    pub(crate) key: OrderedValue,
    pub(crate) value: OrderedValue,
    pub(crate) height: i32,
    pub(crate) left: Option<Box<Node>>,
    pub(crate) right: Option<Box<Node>>,
}

impl Node {
    /// The height of a subtree, counted from its shape: 0 when it is empty,
    /// else one more than the height of its taller subtree.
    pub(crate) open spec fn levels(link: Option<Box<Node>>) -> int
        decreases link,
    {
        match link {
            None => 0,
            Some(n) => 1 + vstd::math::max(Node::levels(n.left), Node::levels(n.right)),
        }
    }

    /// Every node of the subtree caches the height of what is below it.
    pub(crate) open spec fn cached(link: Option<Box<Node>>) -> bool
        decreases link,
    {
        match link {
            None => true,
            Some(n) => {
                &&& n.height == Node::levels(link)
                &&& Node::cached(n.left)
                &&& Node::cached(n.right)
            },
        }
    }

    /// The entries of a subtree, as a map from key to value.
    pub(crate) open spec fn content(link: Option<Box<Node>>) -> Map<Val, Val>
        decreases link,
    {
        match link {
            None => Map::empty(),
            Some(n) => Node::content(n.left).union_prefer_right(Node::content(n.right)).insert(
                n.key@,
                n.value@,
            ),
        }
    }

    /// The entries of a subtree from left to right.
    pub(crate) open spec fn inorder(link: Option<Box<Node>>) -> Seq<(Val, Val)>
        decreases link,
    {
        match link {
            None => Seq::empty(),
            Some(n) => Node::inorder(n.left) + seq![(n.key@, n.value@)] + Node::inorder(n.right),
        }
    }

    /// The number of nodes in a subtree.
    pub(crate) open spec fn size(link: Option<Box<Node>>) -> nat
        decreases link,
    {
        match link {
            None => 0,
            Some(n) => 1 + Node::size(n.left) + Node::size(n.right),
        }
    }

    /// Search-tree order: at every node, the keys on the left come before
    /// the node's key and the keys on the right come after it.
    pub(crate) open spec fn ordered(link: Option<Box<Node>>) -> bool
        decreases link,
    {
        match link {
            None => true,
            Some(n) => {
                &&& Node::ordered(n.left)
                &&& Node::ordered(n.right)
                &&& forall|k: Val| #[trigger] Node::content(n.left).contains_key(k) ==> k.lt(n.key@)
                &&& forall|k: Val| #[trigger]
                    Node::content(n.right).contains_key(k) ==> n.key@.lt(k)
            },
        }
    }

    /// Height balance: at every node, the two subtrees differ in height by
    /// one level at most.
    pub(crate) open spec fn balanced(link: Option<Box<Node>>) -> bool
        decreases link,
    {
        match link {
            None => true,
            Some(n) => {
                &&& Node::balanced(n.left)
                &&& Node::balanced(n.right)
                &&& -1 <= Node::levels(n.left) - Node::levels(n.right) <= 1
            },
        }
    }

    /// By how many levels the left subtree of the node is taller than the
    /// right one.
    pub(crate) open spec fn tilt(self) -> int {
        Node::levels(self.left) - Node::levels(self.right)
    }

    /// A subtree in good standing: ordered, balanced, heights cached.
    pub(crate) open spec fn wf(link: Option<Box<Node>>) -> bool {
        &&& Node::ordered(link)
        &&& Node::balanced(link)
        &&& Node::cached(link)
    }

    /// A node without subtrees.
    pub(crate) fn new(key: OrderedValue, value: OrderedValue) -> (node: Node)
        ensures
            node.key == key,
            node.value == value,
            node.height == 1,
            node.left is None,
            node.right is None,
    {
        Node { key, value, height: 1, left: None, right: None }
    }

    /// The height of what hangs in a slot: 0 for an empty slot, else the
    /// height that the node caches.
    pub(crate) fn height(node: &Option<Box<Node>>) -> (h: i32)
        requires
            Node::cached(*node),
        ensures
            h == Node::levels(*node),
    {
        match node {
            None => 0,
            Some(n) => n.height,
        }
    }

    /// Sets the cached height from the heights of the two subtrees.
    pub(crate) fn update_height(&mut self)
        requires
            Node::cached(old(self).left),
            Node::cached(old(self).right),
            Node::levels(old(self).left) < i32::MAX,
            Node::levels(old(self).right) < i32::MAX,
        ensures
            final(self).key == old(self).key,
            final(self).value == old(self).value,
            final(self).left == old(self).left,
            final(self).right == old(self).right,
            final(self).height == Node::levels(Some(Box::new(*final(self)))),
    {
        self.height = 1 + i32::max(Node::height(&self.left), Node::height(&self.right));
    }

    /// By how many levels the left subtree is taller than the right one.
    pub(crate) fn balance_factor(&self) -> (bf: i32)
        requires
            Node::cached(self.left),
            Node::cached(self.right),
        ensures
            bf == self.tilt(),
    {
        proof {
            lemma_levels_bounds(self.left);
            lemma_levels_bounds(self.right);
        }
        Node::height(&self.left) - Node::height(&self.right)
    }
}

/// What a node holds: what its subtrees hold, and its own entry.
pub(crate) proof fn lemma_content_at(n: Node)
    ensures
        Node::content(Some(Box::new(n))) == Node::content(n.left).union_prefer_right(
            Node::content(n.right),
        ).insert(n.key@, n.value@),
{
}

/// A subtree's height is never negative, and fits the cache when cached.
pub(crate) proof fn lemma_levels_bounds(link: Option<Box<Node>>)
    ensures
        0 <= Node::levels(link),
        link is Some ==> 1 <= Node::levels(link),
        Node::cached(link) ==> Node::levels(link) <= i32::MAX,
    decreases link,
{
    if let Some(n) = link {
        lemma_levels_bounds(n.left);
        lemma_levels_bounds(n.right);
    }
}

/// The keys of an ordered subtree are finitely many, one for each node.
pub(crate) proof fn lemma_size_counts_keys(link: Option<Box<Node>>)
    requires
        Node::ordered(link),
    ensures
        Node::content(link).dom().finite(),
        Node::content(link).dom().len() == Node::size(link),
    decreases link,
{
    match link {
        None => {
            assert(Node::content(link).dom() =~= Set::empty());
        },
        Some(n) => {
            lemma_size_counts_keys(n.left);
            lemma_size_counts_keys(n.right);
            let l = Node::content(n.left).dom();
            let r = Node::content(n.right).dom();
            assert forall|k: Val| l.contains(k) implies !r.contains(k) && k != n.key@ by {
                assert(Node::content(n.left).contains_key(k));
                if r.contains(k) {
                    assert(Node::content(n.right).contains_key(k));
                    lemma_lt_transitive(k, n.key@, k);
                }
                lemma_lt_asymmetric(k, n.key@);
            }
            assert forall|k: Val| r.contains(k) implies k != n.key@ by {
                assert(Node::content(n.right).contains_key(k));
                lemma_lt_asymmetric(n.key@, k);
            }
            vstd::set_lib::lemma_set_disjoint_lens(l, r);
            assert(Node::content(link).dom() =~= l.union(r).insert(n.key@));
        },
    }
}

/// A balanced subtree of height `h` has at least `2^(h/2) - 1` nodes: its
/// height is logarithmic in its size.
pub(crate) proof fn lemma_levels_logarithmic(link: Option<Box<Node>>)
    requires
        Node::balanced(link),
    ensures
        pow2((Node::levels(link) / 2) as nat) <= Node::size(link) + 1,
    decreases link,
{
    lemma2_to64();
    match link {
        None => {},
        Some(n) => {
            lemma_levels_logarithmic(n.left);
            lemma_levels_logarithmic(n.right);
            lemma_levels_bounds(n.left);
            lemma_levels_bounds(n.right);
            let h = Node::levels(link);
            let hl = Node::levels(n.left);
            let hr = Node::levels(n.right);
            if h >= 2 {
                let e = (h / 2 - 1) as nat;
                lemma_pow2_unfold((h / 2) as nat);
                if e < hl / 2 {
                    lemma_pow2_strictly_increases(e, (hl / 2) as nat);
                }
                if e < hr / 2 {
                    lemma_pow2_strictly_increases(e, (hr / 2) as nat);
                }
            }
        },
    }
}

/// A balanced subtree whose node count fits a machine word is at most 129
/// levels high.
pub(crate) proof fn lemma_levels_small(link: Option<Box<Node>>)
    requires
        Node::balanced(link),
        Node::size(link) <= usize::MAX,
    ensures
        Node::levels(link) <= 129,
{
    lemma_levels_logarithmic(link);
    lemma_levels_bounds(link);
    lemma2_to64();
    if Node::levels(link) / 2 > 64 {
        lemma_pow2_strictly_increases(64, (Node::levels(link) / 2) as nat);
    }
}

/// The in-order walk of a subtree visits each node once.
pub(crate) proof fn lemma_inorder_len(link: Option<Box<Node>>)
    ensures
        Node::inorder(link).len() == Node::size(link),
    decreases link,
{
    if let Some(n) = link {
        lemma_inorder_len(n.left);
        lemma_inorder_len(n.right);
    }
}

/// The in-order walk of an ordered subtree lists what the subtree holds in
/// ascending key order.
pub(crate) proof fn lemma_inorder_lists_content(link: Option<Box<Node>>)
    requires
        Node::ordered(link),
    ensures
        lists(Node::inorder(link), Node::content(link)),
    decreases link,
{
    match link {
        None => {},
        Some(n) => {
            lemma_inorder_lists_content(n.left);
            lemma_inorder_lists_content(n.right);
            let sl = Node::inorder(n.left);
            let sr = Node::inorder(n.right);
            let s = Node::inorder(link);
            let m = Node::content(link);
            let ml = Node::content(n.left);
            let mr = Node::content(n.right);
            let mid = sl.len() as int;
            assert forall|i: int| 0 <= i < s.len() implies m.contains_pair(
                (#[trigger] s[i]).0,
                s[i].1,
            ) && (i < mid ==> s[i] == sl[i] && s[i].0.lt(n.key@)) && (i == mid ==> s[i].0
                == n.key@) && (i > mid ==> s[i] == sr[i - mid - 1] && n.key@.lt(s[i].0)) by {
                if i < mid {
                    assert(s[i] == sl[i]);
                    assert(ml.contains_pair(sl[i].0, sl[i].1));
                    lemma_lt_asymmetric(sl[i].0, n.key@);
                    if mr.contains_key(sl[i].0) {
                        lemma_lt_transitive(sl[i].0, n.key@, sl[i].0);
                    }
                } else if i > mid {
                    assert(s[i] == sr[i - mid - 1]);
                    assert(mr.contains_pair(sr[i - mid - 1].0, sr[i - mid - 1].1));
                    lemma_lt_asymmetric(n.key@, s[i].0);
                }
            }
            assert forall|i: int, j: int| 0 <= i < j < s.len() implies (#[trigger] s[i]).0.lt(
                (#[trigger] s[j]).0,
            ) by {
                if j < mid {
                    assert(sl[i].0.lt(sl[j].0));
                } else if i > mid {
                    assert(sr[i - mid - 1].0.lt(sr[j - mid - 1].0));
                } else if i < mid && j > mid {
                    lemma_lt_transitive(s[i].0, n.key@, s[j].0);
                }
            }
            assert forall|k: Val| #[trigger] m.contains_key(k) implies has_key(s, k) by {
                if k == n.key@ {
                    assert(s[mid].0 == k);
                } else if mr.contains_key(k) {
                    assert(has_key(sr, k));
                    let i = choose|i: int| 0 <= i < sr.len() && (#[trigger] sr[i]).0 == k;
                    assert(s[mid + 1 + i].0 == k);
                } else {
                    assert(ml.contains_key(k));
                    assert(has_key(sl, k));
                    let i = choose|i: int| 0 <= i < sl.len() && (#[trigger] sl[i]).0 == k;
                    assert(s[i].0 == k);
                }
            }
        },
    }
}

} // verus!
