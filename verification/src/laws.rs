//! Laws of the map model: what follows, for every tree, from the contracts
//! of its operations.

use crate::model::{ascending, has_key, insert_all, listing, lists, lookup};
use crate::value::{lemma_lt_asymmetric, Val};
use vstd::prelude::*;

verus! {

/// No two pairs of `pairs` have the same key.
pub open spec fn distinct_keys(pairs: Seq<(Val, Val)>) -> bool {
    forall|i: int, j: int|
        0 <= i < j < pairs.len() ==> (#[trigger] pairs[i]).0 != (#[trigger] pairs[j]).0
}

/// `a` and `b` hold the same pairs, in whatever order.
pub open spec fn same_pairs(a: Seq<(Val, Val)>, b: Seq<(Val, Val)>) -> bool {
    forall|e: (Val, Val)| a.contains(e) <==> b.contains(e)
}

/// Inserting twice under one key leaves the second value: a lookup gives
/// it, and the first insertion might as well not have happened.
pub proof fn lemma_upsert(m: Map<Val, Val>, k: Val, v1: Val, v2: Val)
    ensures
        lookup(m.insert(k, v1).insert(k, v2), k) == Some(v2),
        m.insert(k, v1).insert(k, v2) == m.insert(k, v2),
{
    assert(m.insert(k, v1).insert(k, v2) =~= m.insert(k, v2));
}

/// After an insertion under `k`, a lookup of `k` gives the inserted value,
/// so that is what a removal of `k` returns; after the removal a lookup of
/// `k` gives nothing, and the other entries are as they were before both.
pub proof fn lemma_insert_then_remove(m: Map<Val, Val>, k: Val, v: Val)
    ensures
        lookup(m.insert(k, v), k) == Some(v),
        lookup(m.insert(k, v).remove(k), k) is None,
        m.insert(k, v).remove(k) == m.remove(k),
{
    assert(m.insert(k, v).remove(k) =~= m.remove(k));
}

/// A lookup in the empty map gives nothing.
pub proof fn lemma_empty_lookup(k: Val)
    ensures
        lookup(Map::<Val, Val>::empty(), k) is None,
{
}

/// An insertion under another key does not make a key present.
pub proof fn lemma_insert_elsewhere(m: Map<Val, Val>, j: Val, v: Val, k: Val)
    requires
        j != k,
    ensures
        lookup(m.insert(j, v), k) == lookup(m, k),
{
}

/// A removal does not make a key present, and leaves the other keys alone.
pub proof fn lemma_remove_elsewhere(m: Map<Val, Val>, j: Val, k: Val)
    ensures
        lookup(m, k) is None ==> lookup(m.remove(j), k) is None,
        j != k ==> lookup(m.remove(j), k) == lookup(m, k),
{
}

/// The keys after a run of insertions are the keys before it and the keys
/// that were inserted.
pub proof fn lemma_insert_all_keys(m: Map<Val, Val>, pairs: Seq<(Val, Val)>)
    ensures
        forall|k: Val|
            #[trigger] insert_all(m, pairs).contains_key(k) <==> m.contains_key(k) || has_key(
                pairs,
                k,
            ),
    decreases pairs.len(),
{
    if pairs.len() > 0 {
        let front = pairs.drop_last();
        lemma_insert_all_keys(m, front);
        assert forall|k: Val| #[trigger]
            insert_all(m, pairs).contains_key(k) <==> m.contains_key(k) || has_key(pairs, k) by {
            assert(insert_all(m, front).contains_key(k) <==> m.contains_key(k) || has_key(
                front,
                k,
            ));
            if has_key(front, k) {
                let i = choose|i: int| 0 <= i < front.len() && (#[trigger] front[i]).0 == k;
                assert(pairs[i].0 == k);
            }
            if has_key(pairs, k) {
                let i = choose|i: int| 0 <= i < pairs.len() && (#[trigger] pairs[i]).0 == k;
                if i < front.len() {
                    assert(front[i].0 == k);
                } else {
                    assert(pairs.last().0 == k);
                }
            }
        }
    }
}

/// A key that is absent and is never inserted stays absent.
pub proof fn lemma_never_inserted(m: Map<Val, Val>, pairs: Seq<(Val, Val)>, k: Val)
    requires
        lookup(m, k) is None,
        !has_key(pairs, k),
    ensures
        lookup(insert_all(m, pairs), k) is None,
{
    lemma_insert_all_keys(m, pairs);
}

/// After a run of insertions under distinct keys, each inserted key holds
/// the value it was inserted with, and every other key holds what it held
/// before.
pub proof fn lemma_insert_all_values(m: Map<Val, Val>, pairs: Seq<(Val, Val)>)
    requires
        distinct_keys(pairs),
    ensures
        forall|i: int|
            0 <= i < pairs.len() ==> lookup(insert_all(m, pairs), (#[trigger] pairs[i]).0) == Some(
                pairs[i].1,
            ),
        forall|k: Val| !has_key(pairs, k) ==> lookup(insert_all(m, pairs), k) == lookup(m, k),
    decreases pairs.len(),
{
    if pairs.len() > 0 {
        let front = pairs.drop_last();
        let last = pairs.len() - 1;
        assert forall|i: int, j: int| 0 <= i < j < front.len() implies (#[trigger] front[i]).0
            != (#[trigger] front[j]).0 by {
            assert(pairs[i].0 != pairs[j].0);
        }
        lemma_insert_all_values(m, front);
        assert forall|i: int| 0 <= i < pairs.len() implies lookup(
            insert_all(m, pairs),
            (#[trigger] pairs[i]).0,
        ) == Some(pairs[i].1) by {
            if i < last {
                assert(front[i] == pairs[i]);
                assert(pairs[i].0 != pairs[last].0);
            }
        }
        assert forall|k: Val| !has_key(pairs, k) implies lookup(insert_all(m, pairs), k) == lookup(
            m,
            k,
        ) by {
            assert(pairs[last].0 != k);
            if has_key(front, k) {
                let i = choose|i: int| 0 <= i < front.len() && (#[trigger] front[i]).0 == k;
                assert(pairs[i].0 == k);
            }
        }
    }
}

/// Inserting the same pairs, with distinct keys, in another order gives the
/// same map.
pub proof fn lemma_insertion_order(m: Map<Val, Val>, a: Seq<(Val, Val)>, b: Seq<(Val, Val)>)
    requires
        distinct_keys(a),
        distinct_keys(b),
        same_pairs(a, b),
    ensures
        insert_all(m, a) == insert_all(m, b),
{
    let ma = insert_all(m, a);
    let mb = insert_all(m, b);
    lemma_insert_all_keys(m, a);
    lemma_insert_all_keys(m, b);
    lemma_insert_all_values(m, a);
    lemma_insert_all_values(m, b);
    assert forall|k: Val| has_key(a, k) implies has_key(b, k) && lookup(ma, k) == lookup(mb, k) by {
        let i = choose|i: int| 0 <= i < a.len() && (#[trigger] a[i]).0 == k;
        assert(a.contains(a[i]));
        assert(b.contains(a[i]));
        let j = choose|j: int| 0 <= j < b.len() && b[j] == a[i];
        assert(b[j].0 == k);
    }
    assert forall|k: Val| has_key(b, k) implies has_key(a, k) by {
        let j = choose|j: int| 0 <= j < b.len() && (#[trigger] b[j]).0 == k;
        assert(b.contains(b[j]));
        assert(a.contains(b[j]));
        let i = choose|i: int| 0 <= i < a.len() && a[i] == b[j];
        assert(a[i].0 == k);
    }
    assert forall|k: Val| lookup(ma, k) == lookup(mb, k) by {
        assert(ma.contains_key(k) <==> m.contains_key(k) || has_key(a, k));
        assert(mb.contains_key(k) <==> m.contains_key(k) || has_key(b, k));
    }
    assert forall|k: Val| #[trigger] ma.contains_key(k) == mb.contains_key(k) by {
        assert(lookup(ma, k) == lookup(mb, k));
    }
    assert forall|k: Val| #[trigger] ma.contains_key(k) implies ma[k] == mb[k] by {
        assert(lookup(ma, k) == lookup(mb, k));
    }
    assert(ma =~= mb);
}

/// The first entry of a listing holds the smallest key; the rest lists the
/// map without that key.
pub proof fn lemma_listing_rest(s: Seq<(Val, Val)>, m: Map<Val, Val>)
    requires
        lists(s, m),
        s.len() > 0,
    ensures
        lists(s.drop_first(), m.remove(s[0].0)),
        forall|k: Val| m.contains_key(k) ==> k == s[0].0 || s[0].0.lt(k),
{
    let t = s.drop_first();
    let rest = m.remove(s[0].0);
    assert forall|i: int, j: int| 0 <= i < j < t.len() implies (#[trigger] t[i]).0.lt(
        (#[trigger] t[j]).0,
    ) by {
        assert(s[i + 1].0.lt(s[j + 1].0));
    }
    assert forall|i: int| 0 <= i < t.len() implies rest.contains_pair((#[trigger] t[i]).0, t[i].1) by {
        assert(m.contains_pair(s[i + 1].0, s[i + 1].1));
        assert(s[0].0.lt(s[i + 1].0));
        lemma_lt_asymmetric(s[0].0, s[i + 1].0);
    }
    assert forall|k: Val| #[trigger] rest.contains_key(k) implies has_key(t, k) by {
        assert(m.contains_key(k));
        let i = choose|i: int| 0 <= i < s.len() && (#[trigger] s[i]).0 == k;
        assert(t[i - 1].0 == k);
    }
    assert forall|k: Val| m.contains_key(k) implies k == s[0].0 || s[0].0.lt(k) by {
        let i = choose|i: int| 0 <= i < s.len() && (#[trigger] s[i]).0 == k;
        if i > 0 {
            assert(s[0].0.lt(s[i].0));
        }
    }
}

/// The keys of a listing, in order.
pub open spec fn keys_of(s: Seq<(Val, Val)>) -> Seq<Val> {
    s.map_values(|e: (Val, Val)| e.0)
}

/// The listings of two maps with the same keys hold the same keys in the
/// same order: the order of a listing depends on the keys alone.
pub proof fn lemma_listing_keys(
    s1: Seq<(Val, Val)>,
    s2: Seq<(Val, Val)>,
    m1: Map<Val, Val>,
    m2: Map<Val, Val>,
)
    requires
        lists(s1, m1),
        lists(s2, m2),
        m1.dom() == m2.dom(),
    ensures
        keys_of(s1) == keys_of(s2),
    decreases s1.len(),
{
    if s1.len() == 0 {
        if s2.len() > 0 {
            assert(m2.contains_pair(s2[0].0, s2[0].1));
            assert(m1.contains_key(s2[0].0));
            assert(has_key(s1, s2[0].0));
        }
        assert(keys_of(s1) =~= keys_of(s2));
    } else {
        assert(m1.contains_pair(s1[0].0, s1[0].1));
        assert(m2.contains_key(s1[0].0));
        assert(has_key(s2, s1[0].0));
        assert(m2.contains_pair(s2[0].0, s2[0].1));
        assert(m1.contains_key(s2[0].0));
        lemma_listing_rest(s1, m1);
        lemma_listing_rest(s2, m2);
        if s1[0].0 != s2[0].0 {
            lemma_lt_asymmetric(s1[0].0, s2[0].0);
        }
        assert(m1.remove(s1[0].0).dom() =~= m2.remove(s2[0].0).dom());
        lemma_listing_keys(
            s1.drop_first(),
            s2.drop_first(),
            m1.remove(s1[0].0),
            m2.remove(s2[0].0),
        );
        let t1 = keys_of(s1.drop_first());
        let t2 = keys_of(s2.drop_first());
        assert(s1.len() == s2.len()) by {
            assert(t1.len() == t2.len());
        }
        assert forall|i: int| 0 <= i < s1.len() implies keys_of(s1)[i] == keys_of(s2)[i] by {
            if i > 0 {
                assert(t1[i - 1] == t2[i - 1]);
            }
        }
        assert(keys_of(s1) =~= keys_of(s2));
    }
}

/// A map has one listing in ascending key order, and no other.
pub proof fn lemma_listing_unique(s1: Seq<(Val, Val)>, s2: Seq<(Val, Val)>, m: Map<Val, Val>)
    requires
        lists(s1, m),
        lists(s2, m),
    ensures
        s1 == s2,
{
    lemma_listing_keys(s1, s2, m, m);
    assert(s1.len() == keys_of(s1).len());
    assert(s2.len() == keys_of(s2).len());
    assert forall|i: int| 0 <= i < s1.len() implies s1[i] == s2[i] by {
        assert(keys_of(s1)[i] == keys_of(s2)[i]);
        assert(m.contains_pair(s1[i].0, s1[i].1));
        assert(m.contains_pair(s2[i].0, s2[i].1));
    }
    assert(s1 =~= s2);
}

/// What lists a map in ascending key order is the listing of that map.
pub proof fn lemma_listing_is(s: Seq<(Val, Val)>, m: Map<Val, Val>)
    requires
        lists(s, m),
    ensures
        s == listing(m),
{
    lemma_listing_unique(s, listing(m), m);
}

/// A listing in ascending key order never holds a key twice.
pub proof fn lemma_listing_distinct(s: Seq<(Val, Val)>)
    requires
        ascending(s),
    ensures
        distinct_keys(s),
{
    assert forall|i: int, j: int| 0 <= i < j < s.len() implies (#[trigger] s[i]).0 != (
    #[trigger] s[j]).0 by {
        lemma_lt_asymmetric(s[i].0, s[j].0);
    }
}

/// Round trip, for the keys: whatever pairs are inserted and in whatever
/// order, the keys of the listing in ascending key order depend only on
/// which keys were inserted.
pub proof fn lemma_round_trip_keys(
    m: Map<Val, Val>,
    a: Seq<(Val, Val)>,
    b: Seq<(Val, Val)>,
    da: Seq<(Val, Val)>,
    db: Seq<(Val, Val)>,
)
    requires
        forall|k: Val| has_key(a, k) <==> has_key(b, k),
        lists(da, insert_all(m, a)),
        lists(db, insert_all(m, b)),
    ensures
        keys_of(da) == keys_of(db),
{
    lemma_insert_all_keys(m, a);
    lemma_insert_all_keys(m, b);
    assert(insert_all(m, a).dom() =~= insert_all(m, b).dom());
    lemma_listing_keys(da, db, insert_all(m, a), insert_all(m, b));
}

/// Round trip, for the entries: whatever the order in which the same
/// pairs, with distinct keys, are inserted, the listing of the result in
/// ascending key order is the same.
pub proof fn lemma_round_trip(
    m: Map<Val, Val>,
    a: Seq<(Val, Val)>,
    b: Seq<(Val, Val)>,
    da: Seq<(Val, Val)>,
    db: Seq<(Val, Val)>,
)
    requires
        distinct_keys(a),
        distinct_keys(b),
        same_pairs(a, b),
        lists(da, insert_all(m, a)),
        lists(db, insert_all(m, b)),
    ensures
        da == db,
{
    lemma_insertion_order(m, a, b);
    lemma_listing_unique(da, db, insert_all(m, a));
}

} // verus!
