//! The typed term codec: between typed values and the byte keys of a term
//! dictionary.
//!
//! Text is keyed by its UTF-8 bytes and bytes by themselves. An unsigned
//! integer is keyed by its eight bytes, most significant first; a signed one
//! is first moved up by 2^63, so that the order of the keys is the order of
//! the numbers.

use vstd::prelude::*;
use vstd::utf8::{decode_utf8, encode_utf8, valid_utf8};
use crate::bytes::{
    bytes_to_vec, common_prefix, lemma_lex_asymmetric, lemma_lex_decided_at,
    lemma_lex_irreflexive, lemma_lex_prefix, lemma_lex_total, lex_lt, lex_lt_at,
};
use crate::error::ViewerError;
use crate::value::{TantivyValue, ValueType, ValueView};

verus! {

/// Number of bytes in the key of an integer term.
pub const INT_KEY_LEN: usize = 8;

/// The number that a byte string denotes, most significant byte first.
pub open spec fn be_value(b: Seq<u8>) -> nat
    decreases b.len(),
{
    if b.len() == 0 {
        0
    } else {
        be_value(b.drop_last()) * 256 + b.last() as nat
    }
}

/// The `n` lowest base-256 digits of `v`, most significant first.
pub open spec fn be_bytes(v: nat, n: nat) -> Seq<u8>
    decreases n,
{
    if n == 0 {
        Seq::empty()
    } else {
        be_bytes(v / 256, (n - 1) as nat).push((v % 256) as u8)
    }
}

/// 256 to the power `n`.
pub open spec fn pow256(n: nat) -> nat
    decreases n,
{
    if n == 0 {
        1
    } else {
        256 * pow256((n - 1) as nat)
    }
}

/// A signed integer moved up by 2^63: the unsigned number under which it is keyed.
pub open spec fn lift_i64(v: i64) -> nat {
    (v + 0x8000_0000_0000_0000) as nat
}

/// The dictionary key of an unsigned integer.
pub open spec fn u64_key(v: u64) -> Seq<u8> {
    be_bytes(v as nat, 8)
}

/// The dictionary key of a signed integer.
pub open spec fn i64_key(v: i64) -> Seq<u8> {
    be_bytes(lift_i64(v), 8)
}

/// The dictionary key of a value.
pub open spec fn key_of(v: ValueView) -> Seq<u8> {
    match v {
        ValueView::I64(i) => i64_key(i),
        ValueView::U64(u) => u64_key(u),
        ValueView::Text(s) => encode_utf8(s),
        ValueView::Bytes(b) => b,
    }
}

/// The value that a dictionary key stands for under a value type, where it
/// stands for one.
pub open spec fn value_of(key: Seq<u8>, ty: ValueType) -> Option<ValueView> {
    match ty {
        ValueType::Str => if valid_utf8(key) {
            Some(ValueView::Text(decode_utf8(key)))
        } else {
            None
        },
        ValueType::U64 => if key.len() == 8 {
            Some(ValueView::U64(be_value(key) as u64))
        } else {
            None
        },
        ValueType::I64 => if key.len() == 8 {
            Some(ValueView::I64((be_value(key) - 0x8000_0000_0000_0000) as i64))
        } else {
            None
        },
        ValueType::Bytes => Some(ValueView::Bytes(key)),
        _ => None,
    }
}

/// Whether the codec handles keys of the value type.
pub open spec fn supported(ty: ValueType) -> bool {
    ty == ValueType::Str || ty == ValueType::U64 || ty == ValueType::I64 || ty == ValueType::Bytes
}

pub proof fn lemma_be_bytes_len(v: nat, n: nat)
    ensures
        be_bytes(v, n).len() == n,
    decreases n,
{
    if n > 0 {
        lemma_be_bytes_len(v / 256, (n - 1) as nat);
    }
}

/// A byte string of length `n` denotes a number below 256^n.
pub proof fn lemma_be_value_bound(b: Seq<u8>)
    ensures
        be_value(b) < pow256(b.len()),
    decreases b.len(),
{
    if b.len() > 0 {
        lemma_be_value_bound(b.drop_last());
        let hi = be_value(b.drop_last());
        let p = pow256((b.len() - 1) as nat);
        assert(hi * 256 + 255 < 256 * p) by (nonlinear_arith)
            requires
                hi < p,
        ;
    }
}

/// The digits of a number below 256^n denote that number.
pub proof fn lemma_be_value_of_bytes(v: nat, n: nat)
    requires
        v < pow256(n),
    ensures
        be_value(be_bytes(v, n)) == v,
    decreases n,
{
    if n > 0 {
        let p = pow256((n - 1) as nat);
        assert(v / 256 < p) by (nonlinear_arith)
            requires
                v < 256 * p,
        ;
        lemma_be_value_of_bytes(v / 256, (n - 1) as nat);
        let s = be_bytes(v, n);
        assert(s.drop_last() =~= be_bytes(v / 256, (n - 1) as nat));
        assert(v == (v / 256) * 256 + v % 256) by (nonlinear_arith);
    }
}

/// The digits of the number that a byte string denotes are the byte string.
pub proof fn lemma_be_bytes_of_value(b: Seq<u8>)
    ensures
        be_bytes(be_value(b), b.len()) == b,
    decreases b.len(),
{
    if b.len() > 0 {
        lemma_be_bytes_of_value(b.drop_last());
        let hi = be_value(b.drop_last());
        let lo = b.last() as nat;
        assert((hi * 256 + lo) / 256 == hi && (hi * 256 + lo) % 256 == lo) by (nonlinear_arith)
            requires
                lo < 256,
        ;
        assert(be_bytes(be_value(b), b.len()) =~= b);
    } else {
        assert(be_bytes(be_value(b), b.len()) =~= b);
    }
}

pub proof fn lemma_pow256_8()
    ensures
        pow256(8) == 0x1_0000_0000_0000_0000,
{
    reveal_with_fuel(pow256, 9);
}

/// Of two byte strings of one length, the one that sorts first denotes the
/// smaller number.
pub proof fn lemma_be_order(a: Seq<u8>, b: Seq<u8>)
    requires
        a.len() == b.len(),
    ensures
        lex_lt(a, b) <==> be_value(a) < be_value(b),
    decreases a.len(),
{
    if a.len() == 0 {
        lemma_lex_prefix(a, b);
    } else {
        let a0 = a.drop_last();
        let b0 = b.drop_last();
        let n = a0.len() as int;
        lemma_be_order(a0, b0);
        lemma_be_order(b0, a0);
        lemma_lex_total(a0, b0);
        if a0 == b0 {
            assert(common_prefix(a, b, n)) by {
                assert forall|j: int| 0 <= j < n implies a[j] == b[j] by {
                    assert(a[j] == a0[j] && b[j] == b0[j]);
                }
            }
            if a.last() == b.last() {
                assert(a =~= b);
                lemma_lex_irreflexive(a);
            } else {
                lemma_lex_decided_at(a, b, n);
            }
        } else if lex_lt(a0, b0) {
            let i = choose|i: int| lex_lt_at(a0, b0, i);
            assert(lex_lt_at(a, b, i)) by {
                assert forall|j: int| 0 <= j <= i implies a[j] == a0[j] && b[j] == b0[j] by {}
            }
            assert(be_value(a0) * 256 + 255 < be_value(b0) * 256) by (nonlinear_arith)
                requires
                    be_value(a0) < be_value(b0),
            ;
        } else {
            let i = choose|i: int| lex_lt_at(b0, a0, i);
            assert(lex_lt_at(b, a, i)) by {
                assert forall|j: int| 0 <= j <= i implies a[j] == a0[j] && b[j] == b0[j] by {}
            }
            lemma_lex_asymmetric(b, a);
            assert(be_value(b0) * 256 + 255 < be_value(a0) * 256) by (nonlinear_arith)
                requires
                    be_value(b0) < be_value(a0),
            ;
        }
    }
}

/// The keys of unsigned integers sort as the integers do.
pub proof fn lemma_u64_key_order(x: u64, y: u64)
    ensures
        lex_lt(u64_key(x), u64_key(y)) <==> x < y,
        u64_key(x).len() == 8,
        be_value(u64_key(x)) == x,
{
    lemma_pow256_8();
    lemma_be_bytes_len(x as nat, 8);
    lemma_be_bytes_len(y as nat, 8);
    lemma_be_value_of_bytes(x as nat, 8);
    lemma_be_value_of_bytes(y as nat, 8);
    lemma_be_order(u64_key(x), u64_key(y));
}

/// The keys of signed integers sort as the integers do.
pub proof fn lemma_i64_key_order(x: i64, y: i64)
    ensures
        lex_lt(i64_key(x), i64_key(y)) <==> x < y,
        i64_key(x).len() == 8,
        be_value(i64_key(x)) == lift_i64(x),
{
    lemma_pow256_8();
    lemma_be_bytes_len(lift_i64(x), 8);
    lemma_be_bytes_len(lift_i64(y), 8);
    lemma_be_value_of_bytes(lift_i64(x), 8);
    lemma_be_value_of_bytes(lift_i64(y), 8);
    lemma_be_order(i64_key(x), i64_key(y));
}

/// A value is what its key stands for under the value's own type.
pub proof fn lemma_value_of_key(v: ValueView)
    ensures
        value_of(key_of(v), v.value_type()) == Some(v),
{
    match v {
        ValueView::I64(i) => {
            lemma_i64_key_order(i, i);
        },
        ValueView::U64(u) => {
            lemma_u64_key_order(u, u);
        },
        ValueView::Text(s) => {
            vstd::utf8::encode_utf8_valid_utf8(s);
            vstd::utf8::encode_utf8_decode_utf8(s);
        },
        ValueView::Bytes(b) => {},
    }
}

/// A key that stands for a value is the key of that value.
pub proof fn lemma_key_of_value(key: Seq<u8>, ty: ValueType)
    requires
        value_of(key, ty) is Some,
    ensures
        key_of(value_of(key, ty).unwrap()) == key,
        value_of(key, ty).unwrap().value_type() == ty,
{
    match ty {
        ValueType::Str => {
            vstd::utf8::decode_utf8_encode_utf8(key);
        },
        ValueType::U64 => {
            lemma_pow256_8();
            lemma_be_value_bound(key);
            lemma_be_bytes_of_value(key);
        },
        ValueType::I64 => {
            lemma_pow256_8();
            lemma_be_value_bound(key);
            lemma_be_bytes_of_value(key);
        },
        _ => {},
    }
}

/// The key of an unsigned integer.
pub fn encode_u64(v: u64) -> (key: Vec<u8>)
    ensures
        key@ == u64_key(v),
{
    let v1: u64 = v / 256;
    let v2: u64 = v1 / 256;
    let v3: u64 = v2 / 256;
    let v4: u64 = v3 / 256;
    let v5: u64 = v4 / 256;
    let v6: u64 = v5 / 256;
    let v7: u64 = v6 / 256;
    let mut key: Vec<u8> = Vec::new();
    key.push((v7 % 256) as u8);
    key.push((v6 % 256) as u8);
    key.push((v5 % 256) as u8);
    key.push((v4 % 256) as u8);
    key.push((v3 % 256) as u8);
    key.push((v2 % 256) as u8);
    key.push((v1 % 256) as u8);
    key.push((v % 256) as u8);
    proof {
        reveal_with_fuel(be_bytes, 9);
        assert(key@ =~= u64_key(v));
    }
    key
}

/// The key of a signed integer.
pub fn encode_i64(v: i64) -> (key: Vec<u8>)
    ensures
        key@ == i64_key(v),
{
    let lifted: u64 = if v >= 0 {
        (v as u64) + 0x8000_0000_0000_0000u64
    } else {
        ((v + 0x7fff_ffff_ffff_ffffi64) + 1) as u64
    };
    encode_u64(lifted)
}

/// The number that the bytes of `key` denote, most significant first, where
/// `key` is eight bytes long.
pub fn decode_u64(key: &[u8]) -> (r: Option<u64>)
    ensures
        r == if key@.len() == 8 {
            Some(be_value(key@) as u64)
        } else {
            None
        },
        key@.len() == 8 ==> be_value(key@) <= u64::MAX,
{
    if key.len() != INT_KEY_LEN {
        return None;
    }
    let mut acc: u64 = 0;
    let mut i: usize = 0;
    while i < 8
        invariant
            i <= 8,
            key@.len() == 8,
            acc == be_value(key@.take(i as int)),
        decreases 8 - i,
    {
        proof {
            lemma_pow256_8();
            let next = key@.take(i as int + 1);
            assert(next.drop_last() =~= key@.take(i as int));
            lemma_be_value_bound(next);
            reveal_with_fuel(pow256, 9);
            assert(pow256(next.len()) <= pow256(8)) by {
                lemma_pow256_monotonic(next.len(), 8);
            }
        }
        acc = acc * 256 + (key[i] as u64);
        i = i + 1;
    }
    assert(key@.take(8) =~= key@);
    Some(acc)
}

pub proof fn lemma_pow256_monotonic(m: nat, n: nat)
    requires
        m <= n,
    ensures
        pow256(m) <= pow256(n),
    decreases n,
{
    if m < n {
        lemma_pow256_monotonic(m, (n - 1) as nat);
    }
}

/// The signed integer that `key` is the key of, where `key` is eight bytes long.
pub fn decode_i64(key: &[u8]) -> (r: Option<i64>)
    ensures
        r == if key@.len() == 8 {
            Some((be_value(key@) - 0x8000_0000_0000_0000) as i64)
        } else {
            None
        },
{
    match decode_u64(key) {
        None => None,
        Some(u) => {
            if u >= 0x8000_0000_0000_0000u64 {
                Some((u - 0x8000_0000_0000_0000u64) as i64)
            } else {
                Some(((u as i64) - 0x7fff_ffff_ffff_ffffi64) - 1)
            }
        },
    }
}

/// `String::from_utf8` of std, with the error dropped: the text that `bytes`
/// encode, `None` where they are no UTF-8.
#[verifier::external_body]
fn string_from_utf8(bytes: Vec<u8>) -> (r: Option<String>)
    ensures
        r is Some == valid_utf8(bytes@),
        r matches Some(s) ==> s@ == decode_utf8(bytes@),
{
    String::from_utf8(bytes).ok()
}

impl TantivyValue {
    /// The value that a dictionary key stands for in a field of type `ty`.
    ///
    /// Fails with `Unimplemented` where the codec does not handle `ty`, and
    /// with `InvalidTermValue` where `key` encodes no value of type `ty`.
    pub fn from_term(key: &[u8], ty: ValueType) -> (r: Result<TantivyValue, ViewerError>)
        ensures
            !supported(ty) ==> r matches Err(ViewerError::Unimplemented),
            supported(ty) && value_of(key@, ty) is None ==> r matches Err(
                ViewerError::InvalidTermValue,
            ),
            supported(ty) && value_of(key@, ty) is Some ==> (r matches Ok(v) && Some(v@)
                == value_of(key@, ty)),
    {
        match ty {
            ValueType::Str => {
                match string_from_utf8(bytes_to_vec(key)) {
                    Some(s) => Ok(TantivyValue::Text(s)),
                    None => Err(ViewerError::InvalidTermValue),
                }
            },
            ValueType::U64 => {
                match decode_u64(key) {
                    Some(u) => Ok(TantivyValue::U64(u)),
                    None => Err(ViewerError::InvalidTermValue),
                }
            },
            ValueType::I64 => {
                match decode_i64(key) {
                    Some(i) => Ok(TantivyValue::I64(i)),
                    None => Err(ViewerError::InvalidTermValue),
                }
            },
            ValueType::Bytes => Ok(TantivyValue::Bytes(bytes_to_vec(key))),
            _ => Err(ViewerError::Unimplemented),
        }
    }

    /// The dictionary key of the value.
    pub fn to_key(&self) -> (key: Vec<u8>)
        ensures
            key@ == key_of(self@),
    {
        match self {
            TantivyValue::I64(v) => encode_i64(*v),
            TantivyValue::U64(v) => encode_u64(*v),
            TantivyValue::Text(s) => bytes_to_vec(s.as_str().as_bytes()),
            TantivyValue::Bytes(b) => b.clone(),
        }
    }
}

} // verus!
