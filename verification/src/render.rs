//! The textual form of a listing, for display.
//!
//! Each entry reads `{ key: K, value: 'V' }`, and entries are separated by
//! a comma and a space. A number is written in decimal, a text as it is.

use crate::model::entries_view;
use crate::value::{OrderedValue, Val};
use vstd::prelude::*;
use vstd::string::StringExecFns;

verus! {

/// The character for a decimal digit.
pub open spec fn digit_char(d: int) -> char {
    if d == 0 {
        '0'
    } else if d == 1 {
        '1'
    } else if d == 2 {
        '2'
    } else if d == 3 {
        '3'
    } else if d == 4 {
        '4'
    } else if d == 5 {
        '5'
    } else if d == 6 {
        '6'
    } else if d == 7 {
        '7'
    } else if d == 8 {
        '8'
    } else {
        '9'
    }
}

/// A natural number in decimal, without leading zeros.
pub open spec fn decimal_nat(n: nat) -> Seq<char>
    decreases n,
{
    if n < 10 {
        seq![digit_char(n as int)]
    } else {
        decimal_nat(n / 10).push(digit_char((n % 10) as int))
    }
}

/// An integer in decimal, with a minus sign when it is negative.
pub open spec fn decimal(n: int) -> Seq<char> {
    if n < 0 {
        seq!['-'] + decimal_nat((-n) as nat)
    } else {
        decimal_nat(n as nat)
    }
}

/// A value as text: a number in decimal, a text as it is.
pub open spec fn value_text(v: Val) -> Seq<char> {
    match v {
        Val::Number(n) => decimal(n),
        Val::Text(s) => s,
    }
}

/// One entry as text.
pub open spec fn entry_text(e: (Val, Val)) -> Seq<char> {
    "{ key: "@ + value_text(e.0) + ", value: '"@ + value_text(e.1) + "' }"@
}

/// A listing as text: its entries in order, separated by a comma and a
/// space.
pub open spec fn listing_text(s: Seq<(Val, Val)>) -> Seq<char>
    decreases s.len(),
{
    if s.len() == 0 {
        Seq::empty()
    } else if s.len() == 1 {
        entry_text(s[0])
    } else {
        listing_text(s.drop_last()) + ", "@ + entry_text(s.last())
    }
}

fn digit_str(d: u64) -> (s: &'static str)
    requires
        d < 10,
    ensures
        s@ == seq![digit_char(d as int)],
{
    proof {
        reveal_strlit("0");
        reveal_strlit("1");
        reveal_strlit("2");
        reveal_strlit("3");
        reveal_strlit("4");
        reveal_strlit("5");
        reveal_strlit("6");
        reveal_strlit("7");
        reveal_strlit("8");
        reveal_strlit("9");
    }
    let s = if d == 0 {
        "0"
    } else if d == 1 {
        "1"
    } else if d == 2 {
        "2"
    } else if d == 3 {
        "3"
    } else if d == 4 {
        "4"
    } else if d == 5 {
        "5"
    } else if d == 6 {
        "6"
    } else if d == 7 {
        "7"
    } else if d == 8 {
        "8"
    } else {
        "9"
    };
    assert(s@ =~= seq![digit_char(d as int)]);
    s
}

fn append_decimal_nat(out: &mut String, n: u64)
    ensures
        final(out)@ == old(out)@ + decimal_nat(n as nat),
    decreases n,
{
    if n >= 10 {
        append_decimal_nat(out, n / 10);
    }
    out.append(digit_str(n % 10));
    assert(out@ =~= old(out)@ + decimal_nat(n as nat));
}

/// Appends the text of `v` to `out`.
pub fn append_value(out: &mut String, v: &OrderedValue)
    ensures
        final(out)@ == old(out)@ + value_text(v@),
{
    match v {
        OrderedValue::Number(n) => {
            let wide: i64 = *n as i64;
            if wide < 0 {
                proof {
                    reveal_strlit("-");
                }
                out.append("-");
                append_decimal_nat(out, (-wide) as u64);
                assert(out@ =~= old(out)@ + value_text(v@));
            } else {
                append_decimal_nat(out, wide as u64);
            }
        },
        OrderedValue::Text(s) => {
            out.append(s.as_str());
        },
    }
}

/// The listing as text, for display.
pub fn render_entries(entries: &Vec<(OrderedValue, OrderedValue)>) -> (text: String)
    ensures
        text@ == listing_text(entries_view(entries@)),
{
    let mut text = String::new();
    let ghost all = entries_view(entries@);
    for i in 0..entries.len()
        invariant
            all == entries_view(entries@),
            text@ == listing_text(all.take(i as int)),
    {
        proof {
            let now = all.take(i + 1);
            assert(now.drop_last() =~= all.take(i as int));
            assert(now.last() == (entries@[i as int].0@, entries@[i as int].1@));
        }
        if i > 0 {
            text.append(", ");
        }
        text.append("{ key: ");
        append_value(&mut text, &entries[i].0);
        text.append(", value: '");
        append_value(&mut text, &entries[i].1);
        text.append("' }");
        assert(text@ =~= listing_text(all.take(i + 1)));
    }
    assert(all.take(entries@.len() as int) =~= all);
    text
}

} // verus!
