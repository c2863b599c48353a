//! Values as text.

use vstd::prelude::*;
use crate::value::{views, TantivyValue, ValueView};

verus! {

/// The character of a decimal digit.
pub open spec fn digit_char(d: nat) -> char {
    ((0x30 + d) as u8) as char
}

/// A natural number in decimal digits, without leading zeros.
pub open spec fn decimal_text(n: nat) -> Seq<char>
    decreases n,
{
    if n < 10 {
        seq![digit_char(n)]
    } else {
        decimal_text(n / 10).push(digit_char(n % 10))
    }
}

/// An integer in decimal digits, with a minus sign in front where it is
/// negative.
pub open spec fn integer_text(i: int) -> Seq<char> {
    if i < 0 {
        seq!['-'] + decimal_text((-i) as nat)
    } else {
        decimal_text(i as nat)
    }
}

/// A value as text: an integer in decimal digits, a text as it is, and for
/// bytes their number.
pub open spec fn value_text(v: ValueView) -> Seq<char> {
    match v {
        ValueView::I64(i) => integer_text(i as int),
        ValueView::U64(u) => decimal_text(u as nat),
        ValueView::Text(s) => s,
        ValueView::Bytes(b) => seq!['['] + decimal_text(b.len()) + " bytes]"@,
    }
}

/// The values of a content as one text: each value followed by a blank, and
/// nothing for a position that no term occupies.
pub open spec fn content_text(values: Seq<Option<ValueView>>) -> Seq<char>
    decreases values.len(),
{
    if values.len() == 0 {
        Seq::empty()
    } else {
        content_text(values.drop_last()) + match values.last() {
            Some(v) => value_text(v).push(' '),
            None => Seq::empty(),
        }
    }
}

/// `String::push` of std: appends one character.
#[verifier::external_body]
pub(crate) fn push_char(out: &mut String, c: char)
    ensures
        final(out)@ == old(out)@.push(c),
{
    out.push(c)
}

/// Appends a natural number in decimal digits.
pub fn push_decimal(out: &mut String, n: u64)
    ensures
        final(out)@ == old(out)@ + decimal_text(n as nat),
    decreases n,
{
    if n >= 10 {
        push_decimal(out, n / 10);
    }
    let d: u8 = (n % 10) as u8;
    push_char(out, (0x30u8 + d) as char);
    proof {
        assert(out@ =~= old(out)@ + decimal_text(n as nat));
    }
}

/// Appends an integer in decimal digits, with its sign where it is negative.
pub fn push_integer(out: &mut String, i: i64)
    ensures
        final(out)@ == old(out)@ + integer_text(i as int),
{
    if i < 0 {
        push_char(out, '-');
        let magnitude: u64 = ((-(i + 1)) as u64) + 1;
        push_decimal(out, magnitude);
        proof {
            assert(out@ =~= old(out)@ + integer_text(i as int));
        }
    } else {
        push_decimal(out, i as u64);
    }
}

impl TantivyValue {
    /// The value as text.
    pub fn to_string(&self) -> (r: String)
        ensures
            r@ == value_text(self@),
    {
        let mut out = String::new();
        match self {
            TantivyValue::I64(v) => {
                push_integer(&mut out, *v);
            },
            TantivyValue::U64(v) => {
                push_decimal(&mut out, *v);
            },
            TantivyValue::Text(s) => {
                out.append(s.as_str());
            },
            TantivyValue::Bytes(b) => {
                push_char(&mut out, '[');
                push_decimal(&mut out, b.len() as u64);
                out.append(" bytes]");
            },
        }
        proof {
            assert(out@ =~= value_text(self@));
        }
        out
    }
}

/// The values of a content as one text: each value followed by a blank.
pub fn stringify_values(values: Vec<Option<TantivyValue>>) -> (r: String)
    ensures
        r@ == content_text(views(values@)),
{
    let mut out = String::new();
    let mut i: usize = 0;
    proof {
        assert(views(values@).take(0) =~= Seq::<Option<ValueView>>::empty());
    }
    while i < values.len()
        invariant
            i <= values@.len(),
            out@ == content_text(views(values@).take(i as int)),
        decreases values@.len() - i,
    {
        proof {
            assert(views(values@).take(i as int + 1).drop_last() =~= views(values@).take(i as int));
        }
        match &values[i] {
            Some(v) => {
                let text = v.to_string();
                out.append(text.as_str());
                push_char(&mut out, ' ');
                proof {
                    assert(out@ =~= content_text(views(values@).take(i as int + 1)));
                }
            },
            None => {
                proof {
                    assert(out@ =~= content_text(views(values@).take(i as int + 1)));
                }
            },
        }
        i = i + 1;
    }
    proof {
        assert(views(values@).take(values@.len() as int) =~= views(values@));
    }
    out
}

} // verus!
