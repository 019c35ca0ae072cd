//! The mathematical model of the tree: a map from keys to values, and the
//! listing of such a map in ascending key order.

use crate::value::{OrderedValue, Val};
use vstd::prelude::*;

verus! {

/// What a lookup of `k` in `m` gives.
pub open spec fn lookup(m: Map<Val, Val>, k: Val) -> Option<Val> {
    if m.contains_key(k) {
        Some(m[k])
    } else {
        None
    }
}

/// The map after the pairs of `pairs` were inserted one by one, first to
/// last: a later pair overwrites an earlier one with the same key.
pub open spec fn insert_all(m: Map<Val, Val>, pairs: Seq<(Val, Val)>) -> Map<Val, Val>
    decreases pairs.len(),
{
    if pairs.len() == 0 {
        m
    } else {
        insert_all(m, pairs.drop_last()).insert(pairs.last().0, pairs.last().1)
    }
}

/// A sequence of executable entries, seen as a sequence of model entries.
pub open spec fn entries_view(entries: Seq<(OrderedValue, OrderedValue)>) -> Seq<(Val, Val)> {
    entries.map_values(|e: (OrderedValue, OrderedValue)| (e.0@, e.1@))
}

/// The keys of `s` are strictly increasing.
pub open spec fn ascending(s: Seq<(Val, Val)>) -> bool {
    forall|i: int, j: int| 0 <= i < j < s.len() ==> (#[trigger] s[i]).0.lt((#[trigger] s[j]).0)
}

/// `s` holds an entry whose key is `k`.
pub open spec fn has_key(s: Seq<(Val, Val)>, k: Val) -> bool {
    exists|i: int| 0 <= i < s.len() && (#[trigger] s[i]).0 == k
}

/// `s` is the listing of `m` in ascending key order: every entry of `s` is
/// an entry of `m`, every key of `m` occurs in `s`, and the keys of `s`
/// are strictly increasing.
pub open spec fn lists(s: Seq<(Val, Val)>, m: Map<Val, Val>) -> bool {
    &&& ascending(s)
    &&& forall|i: int| 0 <= i < s.len() ==> m.contains_pair((#[trigger] s[i]).0, s[i].1)
    &&& forall|k: Val| #[trigger] m.contains_key(k) ==> has_key(s, k)
}

/// The listing of `m` in ascending key order.
pub open spec fn listing(m: Map<Val, Val>) -> Seq<(Val, Val)> {
    choose|s: Seq<(Val, Val)>| lists(s, m)
}

} // verus!
