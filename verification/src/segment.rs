//! Segment ids.
//!
//! A segment is known by a 128-bit id, written as 32 hexadecimal digits. A
//! caller may name a segment by the first digits of its id.

use vstd::prelude::*;
use vstd::utf8::encode_utf8;
use crate::bytes::common_prefix;
use crate::error::ViewerError;
use crate::index::{
    index_reader, reader_searcher, segment_count, segment_uuid, shows_index, snapshot_segments,
    SegmentSpec,
};

verus! {

/// The id of a segment: the number that its 32 hexadecimal digits denote.
pub type SegmentId = u128;

/// The id of a document within its segment.
pub type DocId = u32;

/// The value of a hexadecimal digit, in either case.
pub open spec fn hex_digit(b: u8) -> Option<u8> {
    if 0x30 <= b <= 0x39 {
        Some((b - 0x30) as u8)
    } else if 0x61 <= b <= 0x66 {
        Some((b - 0x61 + 10) as u8)
    } else if 0x41 <= b <= 0x46 {
        Some((b - 0x41 + 10) as u8)
    } else {
        None
    }
}

/// The number that a string of hexadecimal digits denotes, where it is one.
pub open spec fn hex_value(s: Seq<u8>) -> Option<nat>
    decreases s.len(),
{
    if s.len() == 0 {
        Some(0)
    } else {
        match (hex_value(s.drop_last()), hex_digit(s.last())) {
            (Some(high), Some(low)) => Some(high * 16 + low as nat),
            _ => None,
        }
    }
}

/// 16 to the power `n`.
pub open spec fn pow16(n: nat) -> nat
    decreases n,
{
    if n == 0 {
        1
    } else {
        16 * pow16((n - 1) as nat)
    }
}

/// The segment id that a text denotes: the text is 32 hexadecimal digits.
pub open spec fn segment_id_of(text: Seq<char>) -> Option<SegmentId> {
    let bytes = encode_utf8(text);
    if bytes.len() == 32 {
        match hex_value(bytes) {
            Some(v) => Some(v as u128),
            None => None,
        }
    } else {
        None
    }
}

/// `prefix` is the beginning of `text`.
pub open spec fn is_prefix(prefix: Seq<u8>, text: Seq<u8>) -> bool {
    prefix.len() <= text.len() && common_prefix(prefix, text, prefix.len() as int)
}

/// The first segment in the list whose id starts with `prefix`.
pub open spec fn first_match(segments: Seq<SegmentSpec>, prefix: Seq<char>, s: int) -> bool {
    &&& 0 <= s < segments.len()
    &&& is_prefix(encode_utf8(prefix), encode_utf8(segments[s].uuid))
    &&& forall|t: int|
        0 <= t < s ==> !is_prefix(encode_utf8(prefix), encode_utf8((#[trigger] segments[t]).uuid))
}

/// What a search of the snapshot's segments for a prefix gives: the id of
/// the first segment whose id starts with it, `None` where there is none.
pub open spec fn found_in(
    searcher: tantivy::Searcher,
    prefix: Seq<char>,
    r: Option<SegmentId>,
) -> bool {
    match r {
        Some(id) => exists|s: int|
            first_match(snapshot_segments(searcher), prefix, s) && segment_id_of(
                snapshot_segments(searcher)[s].uuid,
            ) == Some(id),
        None => forall|s: int| !first_match(snapshot_segments(searcher), prefix, s),
    }
}

proof fn lemma_hex_value_bound(s: Seq<u8>)
    requires
        hex_value(s) is Some,
    ensures
        hex_value(s).unwrap() < pow16(s.len()),
    decreases s.len(),
{
    if s.len() > 0 {
        lemma_hex_value_bound(s.drop_last());
        let high = hex_value(s.drop_last()).unwrap();
        let p = pow16((s.len() - 1) as nat);
        assert(high * 16 + 15 < 16 * p) by (nonlinear_arith)
            requires
                high < p,
        ;
    }
}

proof fn lemma_pow16_monotonic(m: nat, n: nat)
    requires
        m <= n,
    ensures
        pow16(m) <= pow16(n),
    decreases n,
{
    if m < n {
        lemma_pow16_monotonic(m, (n - 1) as nat);
    }
}

proof fn lemma_pow16_32()
    ensures
        pow16(32) == 0x1_0000_0000_0000_0000_0000_0000_0000_0000,
{
    reveal_with_fuel(pow16, 9);
    assert(pow16(8) == 0x1_0000_0000);
    assert(pow16(16) == 0x1_0000_0000_0000_0000);
    assert(pow16(24) == 0x1_0000_0000_0000_0000_0000_0000);
}

/// The value of a hexadecimal digit, in either case.
pub fn hex_digit_value(b: u8) -> (r: Option<u8>)
    ensures
        r == hex_digit(b),
{
    if 0x30 <= b && b <= 0x39 {
        Some(b - 0x30)
    } else if 0x61 <= b && b <= 0x66 {
        Some(b - 0x61 + 10)
    } else if 0x41 <= b && b <= 0x46 {
        Some(b - 0x41 + 10)
    } else {
        None
    }
}

/// The segment id that a text denotes; `None` where the text is not 32
/// hexadecimal digits.
pub fn parse_segment_id(text: &str) -> (r: Option<SegmentId>)
    ensures
        r == segment_id_of(text@),
{
    let bytes = text.as_bytes();
    if bytes.len() != 32 {
        return None;
    }
    let mut acc: u128 = 0;
    let mut i: usize = 0;
    assert(bytes@.take(0) =~= Seq::<u8>::empty());
    while i < 32
        invariant
            i <= 32,
            bytes@.len() == 32,
            bytes@ == encode_utf8(text@),
            hex_value(bytes@.take(i as int)) == Some(acc as nat),
        decreases 32 - i,
    {
        let ghost next = bytes@.take(i as int + 1);
        proof {
            assert(next.drop_last() =~= bytes@.take(i as int));
        }
        match hex_digit_value(bytes[i]) {
            Some(d) => {
                proof {
                    lemma_hex_value_bound(next);
                    lemma_pow16_monotonic(next.len(), 32);
                    lemma_pow16_32();
                }
                acc = acc * 16 + (d as u128);
            },
            None => {
                proof {
                    assert(next.last() == bytes@[i as int]);
                    assert(hex_value(next) is None);
                    lemma_hex_undefined(bytes@, i as int + 1);
                }
                return None;
            },
        }
        i = i + 1;
    }
    assert(bytes@.take(32) =~= bytes@);
    Some(acc)
}

/// A string with a prefix that is no string of hexadecimal digits is none
/// either.
proof fn lemma_hex_undefined(s: Seq<u8>, n: int)
    requires
        0 <= n <= s.len(),
        hex_value(s.take(n)) is None,
    ensures
        hex_value(s) is None,
    decreases s.len() - n,
{
    if n < s.len() {
        assert(s.take(n + 1).drop_last() =~= s.take(n));
        lemma_hex_undefined(s, n + 1);
    } else {
        assert(s.take(n) =~= s);
    }
}

/// Whether `text` begins with `prefix`.
pub fn starts_with(text: &[u8], prefix: &[u8]) -> (r: bool)
    ensures
        r == is_prefix(prefix@, text@),
{
    if prefix.len() > text.len() {
        return false;
    }
    let mut i: usize = 0;
    while i < prefix.len()
        invariant
            prefix@.len() <= text@.len(),
            common_prefix(prefix@, text@, i as int),
        decreases prefix@.len() - i,
    {
        if prefix[i] != text[i] {
            return false;
        }
        i = i + 1;
    }
    true
}

/// The id of the first segment of the snapshot whose id starts with `prefix`.
pub fn find_segment_in(searcher: &tantivy::Searcher, prefix: &str) -> (r: Option<SegmentId>)
    ensures
        found_in(*searcher, prefix@, r),
{
    let n = segment_count(searcher);
    let mut s: usize = 0;
    while s < n
        invariant
            n == snapshot_segments(*searcher).len(),
            s <= n,
            forall|t: int|
                0 <= t < s ==> !is_prefix(
                    encode_utf8(prefix@),
                    encode_utf8((#[trigger] snapshot_segments(*searcher)[t]).uuid),
                ),
        decreases n - s,
    {
        let uuid = segment_uuid(searcher, s);
        if starts_with(uuid.as_str().as_bytes(), prefix.as_bytes()) {
            assert(first_match(snapshot_segments(*searcher), prefix@, s as int));
            return parse_segment_id(uuid.as_str());
        }
        s = s + 1;
    }
    assert forall|t: int| !first_match(snapshot_segments(*searcher), prefix@, t) by {
        if 0 <= t < n {
            assert(!is_prefix(
                encode_utf8(prefix@),
                encode_utf8(snapshot_segments(*searcher)[t].uuid),
            ));
        }
    }
    None
}

/// The id of the first segment whose id starts with `prefix`, in the
/// snapshot that a new reader on the index shows.
pub fn find_segment(index: &tantivy::Index, prefix: &str) -> (r: Result<
    Option<SegmentId>,
    ViewerError,
>)
    ensures
        match r {
            Ok(found) => exists|searcher: tantivy::Searcher|
                shows_index(searcher, *index) && found_in(searcher, prefix@, found),
            Err(e) => e is Storage,
        },
{
    let reader = match index_reader(index) {
        Ok(reader) => reader,
        Err(e) => {
            return Err(ViewerError::Storage(e));
        },
    };
    let searcher = reader_searcher(&reader);
    let found = find_segment_in(&searcher, prefix);
    assert(shows_index(searcher, *index) && found_in(searcher, prefix@, found));
    Ok(found)
}

} // verus!
