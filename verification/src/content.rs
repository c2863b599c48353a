//! The content of a reconstructed field: a sequence, by token position, of
//! optional values. A position that no term occupies holds `None`.

use vstd::prelude::*;
use crate::index::Posting;
use crate::value::{views, TantivyValue, ValueView};

verus! {

/// `n` positions that no term occupies.
pub open spec fn gaps(n: int) -> Seq<Option<ValueView>> {
    Seq::new(n as nat, |i: int| None)
}

/// `n` times the value.
pub open spec fn repeated(n: int, value: ValueView) -> Seq<Option<ValueView>> {
    Seq::new(n as nat, |i: int| Some(value))
}

/// The content with `value` at position `pos`. A content that is too short
/// grows by gaps up to that position. A position beyond what a content can
/// hold on this machine is left out.
pub open spec fn place(out: Seq<Option<ValueView>>, pos: u32, value: ValueView) -> Seq<
    Option<ValueView>,
> {
    if pos < out.len() {
        out.update(pos as int, Some(value))
    } else if pos < usize::MAX {
        (out + gaps(pos - out.len())).push(Some(value))
    } else {
        out
    }
}

/// The content with `value` at each of the positions, taken in order.
pub open spec fn place_all(out: Seq<Option<ValueView>>, positions: Seq<u32>, value: ValueView) -> Seq<
    Option<ValueView>,
>
    decreases positions.len(),
{
    if positions.len() == 0 {
        out
    } else {
        place(place_all(out, positions.drop_last(), value), positions.last(), value)
    }
}

/// The content after one term's occurrences in the document have been
/// entered: at the recorded positions, or, where none are recorded, appended
/// as often as the term occurs.
pub open spec fn apply_posting(out: Seq<Option<ValueView>>, posting: Posting, value: ValueView) -> Seq<
    Option<ValueView>,
> {
    if posting.positions.len() > 0 {
        place_all(out, posting.positions, value)
    } else {
        out + repeated(posting.term_freq as int, value)
    }
}

/// Enters `value` at position `pos` of the content.
pub fn place_value(output: &mut Vec<Option<TantivyValue>>, pos: u32, value: &TantivyValue)
    ensures
        views(final(output)@) == place(views(old(output)@), pos, value@),
{
    let at = pos as usize;
    if at < output.len() {
        output[at] = Some(value.duplicate());
        assert(views(output@) =~= place(views(old(output)@), pos, value@));
    } else if at < usize::MAX {
        while output.len() < at
            invariant
                old(output)@.len() <= output@.len() <= at,
                views(output@) == views(old(output)@) + gaps(output@.len() - old(output)@.len()),
            decreases at - output@.len(),
        {
            let ghost before = output@;
            output.push(None);
            assert(views(output@) =~= views(before).push(None));
            assert(views(output@) =~= views(old(output)@) + gaps(
                output@.len() - old(output)@.len(),
            ));
        }
        let ghost before = output@;
        output.push(Some(value.duplicate()));
        assert(views(output@) =~= views(before).push(Some(value@)));
    }
}

/// Enters one term's occurrences in a document into the document's content:
/// at the given positions, or, where there are none, appended `term_freq`
/// times.
pub fn reconstruct_doc(
    output: &mut Vec<Option<TantivyValue>>,
    positions: &Vec<u32>,
    term_freq: u32,
    value: &TantivyValue,
)
    ensures
        views(final(output)@) == apply_posting(
            views(old(output)@),
            Posting { doc: 0, term_freq, positions: positions@ },
            value@,
        ),
{
    if positions.len() > 0 {
        let mut i: usize = 0;
        assert(positions@.take(0) =~= Seq::<u32>::empty());
        while i < positions.len()
            invariant
                i <= positions@.len(),
                views(output@) == place_all(views(old(output)@), positions@.take(i as int), value@),
            decreases positions@.len() - i,
        {
            place_value(output, positions[i], value);
            assert(positions@.take(i as int + 1).drop_last() =~= positions@.take(i as int));
            i = i + 1;
        }
        assert(positions@.take(positions@.len() as int) =~= positions@);
    } else {
        let mut n: u32 = 0;
        while n < term_freq
            invariant
                n <= term_freq,
                views(output@) == views(old(output)@) + repeated(n as int, value@),
            decreases term_freq - n,
        {
            let ghost before = output@;
            output.push(Some(value.duplicate()));
            assert(views(output@) =~= views(before).push(Some(value@)));
            n = n + 1;
            assert(views(output@) =~= views(old(output)@) + repeated(n as int, value@));
        }
    }
}

} // verus!
