//! The text of a term as a value of the field's type.
//!
//! An integer is written in decimal digits, with an optional sign in front:
//! `+` for either kind of integer, `-` for a signed one. Nothing else is
//! accepted: no blanks, no digit separators, no empty text.

use vstd::prelude::*;
use vstd::utf8::encode_utf8;
use crate::bytes::bytes_to_vec;
use crate::codec::{encode_i64, encode_u64, i64_key, u64_key};
use crate::error::ViewerError;
use crate::value::ValueType;

verus! {

/// Whether the byte is a decimal digit.
pub open spec fn is_digit(b: u8) -> bool {
    0x30 <= b <= 0x39
}

/// Whether every byte is a decimal digit.
pub open spec fn all_digits(s: Seq<u8>) -> bool {
    forall|i: int| 0 <= i < s.len() ==> is_digit(#[trigger] s[i])
}

/// The number that a string of decimal digits denotes.
pub open spec fn decimal_value(s: Seq<u8>) -> nat
    decreases s.len(),
{
    if s.len() == 0 {
        0
    } else {
        decimal_value(s.drop_last()) * 10 + (s.last() - 0x30) as nat
    }
}

/// Whether the text starts with the sign.
pub open spec fn has_sign(s: Seq<u8>, sign: u8) -> bool {
    s.len() > 0 && s[0] == sign
}

/// The text without its first byte.
pub open spec fn after_sign(s: Seq<u8>) -> Seq<u8> {
    s.subrange(1, s.len() as int)
}

/// The number that a string of one or more decimal digits denotes.
pub open spec fn magnitude_of(digits: Seq<u8>) -> Option<nat> {
    if digits.len() > 0 && all_digits(digits) {
        Some(decimal_value(digits))
    } else {
        None
    }
}

/// The unsigned integer that a text denotes, where it denotes one.
pub open spec fn u64_of_text(s: Seq<u8>) -> Option<u64> {
    let digits = if has_sign(s, 0x2b) {
        after_sign(s)
    } else {
        s
    };
    match magnitude_of(digits) {
        Some(m) => if m <= u64::MAX {
            Some(m as u64)
        } else {
            None
        },
        None => None,
    }
}

/// The signed integer that a text denotes, where it denotes one.
pub open spec fn i64_of_text(s: Seq<u8>) -> Option<i64> {
    let digits = if has_sign(s, 0x2b) || has_sign(s, 0x2d) {
        after_sign(s)
    } else {
        s
    };
    match magnitude_of(digits) {
        Some(m) => if has_sign(s, 0x2d) {
            if m <= 0x8000_0000_0000_0000 {
                Some((-m) as i64)
            } else {
                None
            }
        } else {
            if m <= i64::MAX {
                Some(m as i64)
            } else {
                None
            }
        },
        None => None,
    }
}

/// The key under which a field of type `ty` holds the term that the text
/// denotes.
pub open spec fn key_of_text(text: Seq<char>, ty: ValueType) -> Option<Seq<u8>> {
    match ty {
        ValueType::Str => Some(encode_utf8(text)),
        ValueType::U64 => match u64_of_text(encode_utf8(text)) {
            Some(v) => Some(u64_key(v)),
            None => None,
        },
        ValueType::I64 => match i64_of_text(encode_utf8(text)) {
            Some(v) => Some(i64_key(v)),
            None => None,
        },
        _ => None,
    }
}

/// Whether a term of a field of that type can be given as text.
pub open spec fn textual(ty: ValueType) -> bool {
    ty == ValueType::Str || ty == ValueType::U64 || ty == ValueType::I64
}

/// The number that the digits from `start` on denote, where there is at
/// least one, all are digits, and the number is no larger than `limit`.
fn parse_digits(text: &[u8], start: usize, limit: u64) -> (r: Option<u64>)
    requires
        start <= text@.len(),
        limit >= 9,
    ensures
        r == match magnitude_of(text@.subrange(start as int, text@.len() as int)) {
            Some(m) => if m <= limit {
                Some(m as u64)
            } else {
                None
            },
            None => None,
        },
{
    let ghost digits = text@.subrange(start as int, text@.len() as int);
    if start == text.len() {
        return None;
    }
    let mut acc: u64 = 0;
    let mut i: usize = start;
    let mut over = false;
    assert(digits.take(0) =~= Seq::<u8>::empty());
    while i < text.len()
        invariant
            start <= i <= text@.len(),
            digits == text@.subrange(start as int, text@.len() as int),
            limit >= 9,
            all_digits(digits.take(i - start)),
            !over ==> acc == decimal_value(digits.take(i - start)) && acc <= limit,
            over ==> decimal_value(digits.take(i - start)) > limit,
        decreases text@.len() - i,
    {
        let b = text[i];
        let ghost next = digits.take(i - start + 1);
        proof {
            assert(next.drop_last() =~= digits.take(i - start));
            assert(next.last() == b);
        }
        if b < 0x30 || b > 0x39 {
            proof {
                assert(!is_digit(digits[i - start]));
            }
            return None;
        }
        proof {
            assert forall|j: int| 0 <= j < next.len() implies is_digit(#[trigger] next[j]) by {
                if j < next.len() - 1 {
                    assert(next[j] == digits.take(i - start)[j]);
                }
            }
        }
        let d = (b - 0x30) as u64;
        if !over {
            if acc > (limit - d) / 10 {
                over = true;
                proof {
                    assert(acc * 10 + d > limit) by (nonlinear_arith)
                        requires
                            acc > (limit - d) / 10,
                            d <= 9,
                            limit >= 9,
                    ;
                }
            } else {
                proof {
                    assert(acc * 10 + d <= limit) by (nonlinear_arith)
                        requires
                            acc <= (limit - d) / 10,
                            d <= 9,
                            limit >= 9,
                    ;
                }
                acc = acc * 10 + d;
            }
        } else {
            proof {
                assert(decimal_value(next) >= decimal_value(next.drop_last()));
            }
        }
        i = i + 1;
    }
    proof {
        assert(digits.take(digits.len() as int) =~= digits);
    }
    if over {
        None
    } else {
        Some(acc)
    }
}

/// The unsigned integer that a text denotes, where it denotes one.
pub fn parse_u64(text: &[u8]) -> (r: Option<u64>)
    ensures
        r == u64_of_text(text@),
{
    let start: usize = if text.len() > 0 && text[0] == 0x2b {
        1
    } else {
        0
    };
    proof {
        if start == 0 {
            assert(text@.subrange(0, text@.len() as int) =~= text@);
        }
    }
    parse_digits(text, start, u64::MAX)
}

/// The signed integer that a text denotes, where it denotes one.
pub fn parse_i64(text: &[u8]) -> (r: Option<i64>)
    ensures
        r == i64_of_text(text@),
{
    let negative = text.len() > 0 && text[0] == 0x2d;
    let start: usize = if text.len() > 0 && (text[0] == 0x2b || text[0] == 0x2d) {
        1
    } else {
        0
    };
    proof {
        if start == 0 {
            assert(text@.subrange(0, text@.len() as int) =~= text@);
        }
    }
    if negative {
        match parse_digits(text, start, 0x8000_0000_0000_0000u64) {
            Some(m) => {
                if m == 0x8000_0000_0000_0000u64 {
                    Some(i64::MIN)
                } else {
                    Some(-(m as i64))
                }
            },
            None => None,
        }
    } else {
        match parse_digits(text, start, 0x7fff_ffff_ffff_ffffu64) {
            Some(m) => Some(m as i64),
            None => None,
        }
    }
}

/// The key under which a field of type `ty` holds the term that `text`
/// denotes.
///
/// Fails with `Unimplemented` where a term of such a field cannot be given
/// as text, and with `InvalidTermValue` where the text denotes no value of
/// the type.
pub fn encode_term_text(text: &str, ty: ValueType) -> (r: Result<Vec<u8>, ViewerError>)
    ensures
        !textual(ty) ==> (r matches Err(ViewerError::Unimplemented)),
        textual(ty) ==> match key_of_text(text@, ty) {
            Some(key) => r matches Ok(k) && k@ == key,
            None => r matches Err(ViewerError::InvalidTermValue),
        },
{
    match ty {
        ValueType::Str => Ok(bytes_to_vec(text.as_bytes())),
        ValueType::U64 => {
            match parse_u64(text.as_bytes()) {
                Some(v) => Ok(encode_u64(v)),
                None => Err(ViewerError::InvalidTermValue),
            }
        },
        ValueType::I64 => {
            match parse_i64(text.as_bytes()) {
                Some(v) => Ok(encode_i64(v)),
                None => Err(ViewerError::InvalidTermValue),
            }
        },
        _ => Err(ViewerError::Unimplemented),
    }
}

} // verus!
