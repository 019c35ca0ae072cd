//! Keys and values: a number or a text, under one total order.
//!
//! Numbers are ordered by their value, texts lexicographically by character,
//! and every number comes before every text.

use std::cmp::Ordering;
use vstd::prelude::*;
use vstd::std_specs::iter::IteratorSpec;

verus! {

broadcast use vstd::string::group_string_axioms;

/// A key or a value held by the tree.
#[derive(Debug)]
pub enum OrderedValue {
    Number(i32),
    Text(String),
}

/// What an `OrderedValue` stands for in contracts.
pub enum Val {
    Number(int),
    Text(Seq<char>),
}

impl View for OrderedValue {
    type V = Val;

    open spec fn view(&self) -> Val {
        match self {
            OrderedValue::Number(n) => Val::Number(*n as int),
            OrderedValue::Text(s) => Val::Text(s@),
        }
    }
}

/// Lexicographic order on texts: the first differing character decides, and
/// a proper prefix comes before the longer text.
pub open spec fn text_lt(a: Seq<char>, b: Seq<char>) -> bool
    decreases a.len(),
{
    if b.len() == 0 {
        false
    } else if a.len() == 0 {
        true
    } else if a[0] != b[0] {
        a[0] < b[0]
    } else {
        text_lt(a.drop_first(), b.drop_first())
    }
}

/// The three-way outcome of comparing two texts.
pub open spec fn text_ordering(a: Seq<char>, b: Seq<char>) -> Ordering {
    if text_lt(a, b) {
        Ordering::Less
    } else if a == b {
        Ordering::Equal
    } else {
        Ordering::Greater
    }
}

impl Val {
    /// The strict order on values.
    pub open spec fn lt(self, other: Val) -> bool {
        match (self, other) {
            (Val::Number(x), Val::Number(y)) => x < y,
            (Val::Number(_), Val::Text(_)) => true,
            (Val::Text(_), Val::Number(_)) => false,
            (Val::Text(s), Val::Text(t)) => text_lt(s, t),
        }
    }
}

/// The three-way outcome of comparing two values.
pub open spec fn ordering_of(a: Val, b: Val) -> Ordering {
    if a.lt(b) {
        Ordering::Less
    } else if a == b {
        Ordering::Equal
    } else {
        Ordering::Greater
    }
}

/// No text comes before itself.
pub proof fn lemma_text_lt_irreflexive(a: Seq<char>)
    ensures
        !text_lt(a, a),
    decreases a.len(),
{
    if a.len() > 0 {
        lemma_text_lt_irreflexive(a.drop_first());
    }
}

/// The order on texts is transitive.
pub proof fn lemma_text_lt_transitive(a: Seq<char>, b: Seq<char>, c: Seq<char>)
    requires
        text_lt(a, b),
        text_lt(b, c),
    ensures
        text_lt(a, c),
    decreases a.len(),
{
    if a.len() > 0 && a[0] == b[0] && b[0] == c[0] {
        lemma_text_lt_transitive(a.drop_first(), b.drop_first(), c.drop_first());
    }
}

/// Two different texts are ordered one way or the other.
pub proof fn lemma_text_lt_total(a: Seq<char>, b: Seq<char>)
    ensures
        text_lt(a, b) || a == b || text_lt(b, a),
    decreases a.len(),
{
    if a.len() == 0 || b.len() == 0 {
        if a.len() == 0 && b.len() == 0 {
            assert(a =~= b);
        }
    } else if a[0] == b[0] {
        lemma_text_lt_total(a.drop_first(), b.drop_first());
        if a.drop_first() == b.drop_first() {
            assert(a =~= seq![a[0]] + a.drop_first());
            assert(b =~= seq![b[0]] + b.drop_first());
        }
    }
}

/// No value comes before itself.
pub proof fn lemma_lt_irreflexive(a: Val)
    ensures
        !a.lt(a),
{
    if let Val::Text(s) = a {
        lemma_text_lt_irreflexive(s);
    }
}

/// The order on values is transitive, across numbers and texts alike.
pub proof fn lemma_lt_transitive(a: Val, b: Val, c: Val)
    requires
        a.lt(b),
        b.lt(c),
    ensures
        a.lt(c),
{
    if let (Val::Text(s), Val::Text(t), Val::Text(u)) = (a, b, c) {
        lemma_text_lt_transitive(s, t, u);
    }
}

/// Of two values, one comes first or they are the same value.
pub proof fn lemma_lt_total(a: Val, b: Val)
    ensures
        a.lt(b) || a == b || b.lt(a),
{
    if let (Val::Text(s), Val::Text(t)) = (a, b) {
        lemma_text_lt_total(s, t);
    }
}

/// Two values are never ordered both ways.
pub proof fn lemma_lt_asymmetric(a: Val, b: Val)
    requires
        a.lt(b),
    ensures
        !b.lt(a),
        a != b,
{
    lemma_lt_irreflexive(a);
    if b.lt(a) {
        lemma_lt_transitive(a, b, a);
    }
}

/// Every number comes before every text.
pub proof fn lemma_number_before_text(n: int, t: Seq<char>)
    ensures
        ordering_of(Val::Number(n), Val::Text(t)) == Ordering::Less,
        ordering_of(Val::Text(t), Val::Number(n)) == Ordering::Greater,
{
}

/// Swapping the two sides of a comparison mirrors its outcome.
pub proof fn lemma_ordering_mirrors(a: Val, b: Val)
    ensures
        ordering_of(a, b) == Ordering::Less <==> ordering_of(b, a) == Ordering::Greater,
        ordering_of(a, b) == Ordering::Equal <==> ordering_of(b, a) == Ordering::Equal,
        ordering_of(a, b) == Ordering::Greater <==> b.lt(a),
{
    lemma_lt_total(a, b);
    lemma_lt_irreflexive(a);
    if a.lt(b) {
        lemma_lt_asymmetric(a, b);
    }
    if b.lt(a) {
        lemma_lt_asymmetric(b, a);
    }
}

/// Compares two texts character by character.
pub fn compare_text(a: &str, b: &str) -> (o: Ordering)
    ensures
        o == text_ordering(a@, b@),
{
    let mut ia = a.chars();
    let mut ib = b.chars();
    let ghost k: int = 0;
    assert(a@.skip(0) =~= a@ && b@.skip(0) =~= b@);
    loop
        invariant
            0 <= k <= a@.len(),
            k <= b@.len(),
            ia.obeys_prophetic_iter_laws(),
            ib.obeys_prophetic_iter_laws(),
            ia.remaining() == a@.skip(k),
            ib.remaining() == b@.skip(k),
            text_ordering(a@, b@) == text_ordering(a@.skip(k), b@.skip(k)),
        decreases a@.len() - k,
    {
        let x = ia.next();
        let y = ib.next();
        match (x, y) {
            (None, None) => {
                assert(a@.skip(k) =~= b@.skip(k));
                return Ordering::Equal;
            },
            (None, Some(_)) => {
                return Ordering::Less;
            },
            (Some(_), None) => {
                return Ordering::Greater;
            },
            (Some(c), Some(d)) => {
                if c < d {
                    return Ordering::Less;
                } else if c > d {
                    return Ordering::Greater;
                }
                proof {
                    let ra = a@.skip(k);
                    let rb = b@.skip(k);
                    assert(ra.drop_first() =~= a@.skip(k + 1));
                    assert(rb.drop_first() =~= b@.skip(k + 1));
                    if ra.drop_first() == rb.drop_first() {
                        assert(ra.len() == rb.len()) by {
                            assert(ra.drop_first().len() == rb.drop_first().len());
                        }
                        assert forall|i: int| 0 <= i < ra.len() implies ra[i] == rb[i] by {
                            if i > 0 {
                                assert(ra[i] == ra.drop_first()[i - 1]);
                                assert(rb[i] == rb.drop_first()[i - 1]);
                            }
                        }
                        assert(ra =~= rb);
                    }
                    k = k + 1;
                }
            },
        }
    }
}

impl OrderedValue {
    /// Compares two values under the total order: numbers by value, texts
    /// lexicographically, any number before any text.
    pub fn compare(&self, other: &OrderedValue) -> (o: Ordering)
        ensures
            o == ordering_of(self@, other@),
    {
        match (self, other) {
            (OrderedValue::Number(x), OrderedValue::Number(y)) => {
                if *x < *y {
                    Ordering::Less
                } else if *x == *y {
                    Ordering::Equal
                } else {
                    Ordering::Greater
                }
            },
            (OrderedValue::Number(_), OrderedValue::Text(_)) => Ordering::Less,
            (OrderedValue::Text(_), OrderedValue::Number(_)) => Ordering::Greater,
            (OrderedValue::Text(s), OrderedValue::Text(t)) => compare_text(
                s.as_str(),
                t.as_str(),
            ),
        }
    }
}

impl Clone for OrderedValue {
    fn clone(&self) -> (copy: Self)
        ensures
            copy == *self,
    {
        match self {
            OrderedValue::Number(n) => OrderedValue::Number(*n),
            OrderedValue::Text(s) => OrderedValue::Text(s.clone()),
        }
    }
}

impl PartialEq for OrderedValue {
    fn eq(&self, other: &Self) -> (same: bool) {
        match (self, other) {
            (OrderedValue::Number(x), OrderedValue::Number(y)) => *x == *y,
            (OrderedValue::Text(s), OrderedValue::Text(t)) => *s == *t,
            _ => false,
        }
    }
}

impl vstd::std_specs::cmp::PartialEqSpecImpl for OrderedValue {
    open spec fn obeys_eq_spec() -> bool {
        true
    }

    open spec fn eq_spec(&self, other: &Self) -> bool {
        self@ == other@
    }
}

impl Eq for OrderedValue {

}

} // verus!
