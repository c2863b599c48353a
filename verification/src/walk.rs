//! The walk of one postings list against many documents.
//!
//! The requested documents are in ascending order and the postings cursor
//! only moves forward, so one pass over the postings list serves them all.
//! For each document the walk knows where the cursor stands: not yet looked
//! at, on a document, or past the end. It seeks only where the cursor stands
//! before the document, and else compares without moving.

use vstd::prelude::*;
use crate::codec::{supported, value_of};
use crate::content::{apply_posting, reconstruct_doc};
use crate::error::ViewerError;
use crate::index::{
    current_doc, postings_doc, postings_list, postings_pos, postings_positions,
    postings_seek, postings_sorted, postings_term_freq, Posting, TERMINATED,
};
use crate::value::{views, TantivyValue, ValueType, ValueView};

verus! {

/// Where the postings cursor stands, as far as the walk has looked.
#[derive(Clone, Copy, Debug, PartialEq, Eq, Structural)]
pub enum CursorState {
    /// The walk has not looked at the cursor yet.
    NotSought,
    /// The cursor stands on this document.
    ReachedAt(u32),
    /// The cursor has passed the last document of the list.
    PastEnd,
}

/// How a forward seek to a document ended.
#[derive(Clone, Copy, Debug, PartialEq, Eq, Structural)]
pub enum SkipResult {
    /// The cursor stands on the document.
    Reached,
    /// The list lacks the document; the cursor stands on a later one.
    OverStep,
    /// The list has no document that large; the cursor is past the end.
    End,
}

/// What the walk does for the next requested document.
#[derive(Clone, Copy, Debug, PartialEq, Eq, Structural)]
pub enum Step {
    /// Move the cursor forward to the document.
    Seek,
    /// The cursor stands on the document: enter the term into its content.
    Emit,
    /// The list lacks the document: leave its content as it is.
    Pass,
}

/// The requested documents are in ascending order, none twice.
pub open spec fn docs_ascending(docs: Seq<u32>) -> bool {
    forall|i: int, j: int| 0 <= i < j < docs.len() ==> docs[i] < docs[j]
}

/// Whether the documents are in ascending order, none twice.
pub fn is_ascending(docs: &Vec<u32>) -> (r: bool)
    ensures
        r == docs_ascending(docs@),
{
    let mut i: usize = 1;
    while i < docs.len()
        invariant
            1 <= i,
            forall|a: int, b: int| 0 <= a < b < i && b < docs@.len() ==> docs@[a] < docs@[b],
        decreases docs@.len() - i,
    {
        if docs[i - 1] >= docs[i] {
            return false;
        }
        assert forall|a: int, b: int| 0 <= a < b < i + 1 && b < docs@.len() implies docs@[a]
            < docs@[b] by {
            if b == i && a < i - 1 {
                assert(docs@[a] < docs@[i - 1]);
            }
        }
        i = i + 1;
    }
    true
}

/// The posting of a document in a postings list, where the list has it.
pub open spec fn posting_of(list: Seq<Posting>, doc: u32) -> Option<Posting> {
    if exists|j: int| 0 <= j < list.len() && (#[trigger] list[j]).doc == doc {
        Some(list[choose|j: int| 0 <= j < list.len() && (#[trigger] list[j]).doc == doc])
    } else {
        None
    }
}

/// The step for a document `target`, given where the cursor stands.
pub open spec fn step_for(state: CursorState, target: u32) -> Step {
    match state {
        CursorState::NotSought => Step::Seek,
        CursorState::ReachedAt(at) => if at < target {
            Step::Seek
        } else if at == target {
            Step::Emit
        } else {
            Step::Pass
        },
        CursorState::PastEnd => Step::Pass,
    }
}

/// How a seek to `target` ended that left the cursor on `landed`.
pub open spec fn skip_result(landed: u32, target: u32) -> SkipResult {
    if landed == TERMINATED {
        SkipResult::End
    } else if landed == target {
        SkipResult::Reached
    } else {
        SkipResult::OverStep
    }
}

/// Where the cursor stands once it shows `landed`.
pub open spec fn state_at(landed: u32) -> CursorState {
    if landed == TERMINATED {
        CursorState::PastEnd
    } else {
        CursorState::ReachedAt(landed)
    }
}

/// The step for a document `target`, given where the cursor stands.
pub fn next_step(state: CursorState, target: u32) -> (r: Step)
    ensures
        r == step_for(state, target),
{
    match state {
        CursorState::NotSought => Step::Seek,
        CursorState::ReachedAt(at) => {
            if at < target {
                Step::Seek
            } else if at == target {
                Step::Emit
            } else {
                Step::Pass
            }
        },
        CursorState::PastEnd => Step::Pass,
    }
}

/// How a seek to `target` ended that left the cursor on `landed`.
pub fn classify(landed: u32, target: u32) -> (r: SkipResult)
    ensures
        r == skip_result(landed, target),
{
    if landed == TERMINATED {
        SkipResult::End
    } else if landed == target {
        SkipResult::Reached
    } else {
        SkipResult::OverStep
    }
}

/// Where the cursor stands after a seek to `target` that ended as `result`.
pub fn state_after(result: SkipResult, landed: u32, target: u32) -> (r: CursorState)
    requires
        result == skip_result(landed, target),
    ensures
        r == state_at(landed),
{
    match result {
        SkipResult::End => CursorState::PastEnd,
        SkipResult::Reached => CursorState::ReachedAt(target),
        SkipResult::OverStep => CursorState::ReachedAt(landed),
    }
}

/// The cursor is in its list, and the walk's knowledge of it is right.
pub open spec fn state_holds(state: CursorState, postings: tantivy::postings::SegmentPostings) -> bool {
    let list = postings_list(postings);
    let pos = postings_pos(postings);
    &&& postings_sorted(list)
    &&& 0 <= pos <= list.len()
    &&& match state {
        CursorState::NotSought => true,
        CursorState::ReachedAt(at) => pos < list.len() && list[pos].doc == at,
        CursorState::PastEnd => pos == list.len(),
    }
}

/// Every posting that the cursor has passed is for a document before `doc`.
pub open spec fn passed_before(postings: tantivy::postings::SegmentPostings, doc: u32) -> bool {
    forall|j: int|
        0 <= j < postings_pos(postings) ==> (#[trigger] postings_list(postings)[j]).doc < doc
}

/// In a sorted list, the posting at a place is the posting of its document.
pub proof fn lemma_posting_at(list: Seq<Posting>, j: int)
    requires
        postings_sorted(list),
        0 <= j < list.len(),
    ensures
        posting_of(list, list[j].doc) == Some(list[j]),
{
    let doc = list[j].doc;
    let c = choose|c: int| 0 <= c < list.len() && (#[trigger] list[c]).doc == doc;
    if c < j {
        assert(list[c].doc < list[j].doc);
    } else if j < c {
        assert(list[j].doc < list[c].doc);
    }
}

/// A sorted list lacks a document that falls between the postings before a
/// place and the posting at it.
pub proof fn lemma_posting_absent(list: Seq<Posting>, pos: int, doc: u32)
    requires
        postings_sorted(list),
        0 <= pos <= list.len(),
        forall|j: int| 0 <= j < pos ==> (#[trigger] list[j]).doc < doc,
        pos < list.len() ==> list[pos].doc > doc,
    ensures
        posting_of(list, doc) is None,
{
    assert forall|j: int| 0 <= j < list.len() implies (#[trigger] list[j]).doc != doc by {
        if j > pos {
            assert(list[pos].doc < list[j].doc);
        }
    }
}

/// Moves the cursor forward to the first document that is `target` or larger,
/// unless it stands there already, and says how that ended.
pub(crate) fn skip_to(postings: &mut tantivy::postings::SegmentPostings, target: u32) -> (r: (
    SkipResult,
    u32,
))
    requires
        state_holds(CursorState::NotSought, *old(postings)),
        target <= TERMINATED,
    ensures
        postings_list(*final(postings)) == postings_list(*old(postings)),
        postings_pos(*old(postings)) <= postings_pos(*final(postings)),
        state_holds(state_at(r.1), *final(postings)),
        r.1 == current_doc(*final(postings)),
        r.1 >= target,
        r.0 == skip_result(r.1, target),
        forall|j: int|
            postings_pos(*old(postings)) <= j < postings_pos(*final(postings)) ==> (
            #[trigger] postings_list(*final(postings))[j]).doc < target,
{
    let shown = postings_doc(postings);
    let landed = if shown >= target {
        shown
    } else {
        postings_seek(postings, target)
    };
    (classify(landed, target), landed)
}

/// The content of a document after one term has been entered: the term's
/// value at its occurrences, where the term's postings have the document.
pub open spec fn enter_term(
    out: Seq<Option<ValueView>>,
    postings: Seq<Posting>,
    key: Seq<u8>,
    ty: ValueType,
    doc: u32,
) -> Seq<Option<ValueView>> {
    match (posting_of(postings, doc), value_of(key, ty)) {
        (Some(posting), Some(value)) => apply_posting(out, posting, value),
        _ => out,
    }
}

/// Whether the postings have one of the documents.
pub open spec fn hits_any(postings: Seq<Posting>, docs: Seq<u32>) -> bool {
    exists|i: int| 0 <= i < docs.len() && posting_of(postings, #[trigger] docs[i]) is Some
}

/// A reconstructed document: its id and its content.
pub type DocContent = (u32, Vec<Option<TantivyValue>>);

/// The documents of a list of reconstructed documents.
pub open spec fn entry_docs(out: Seq<DocContent>) -> Seq<u32> {
    Seq::new(out.len(), |i: int| out[i].0)
}

/// Enters one term into the contents of the requested documents, with one
/// forward pass of the term's postings cursor.
///
/// Fails with `InvalidTermValue` where the postings have one of the documents
/// and `key` encodes no value of type `ty`.
pub(crate) fn walk_term(
    postings: &mut tantivy::postings::SegmentPostings,
    key: &[u8],
    ty: ValueType,
    out: &mut Vec<DocContent>,
) -> (r: Result<(), ViewerError>)
    requires
        state_holds(CursorState::NotSought, *old(postings)),
        postings_pos(*old(postings)) == 0,
        docs_ascending(entry_docs(old(out)@)),
        supported(ty),
    ensures
        entry_docs(final(out)@) == entry_docs(old(out)@),
        r is Ok ==> forall|i: int|
            0 <= i < old(out)@.len() ==> views((#[trigger] final(out)@[i]).1@) == enter_term(
                views(old(out)@[i].1@),
                postings_list(*old(postings)),
                key@,
                ty,
                old(out)@[i].0,
            ),
        r is Ok ==> (hits_any(postings_list(*old(postings)), entry_docs(old(out)@)) ==> value_of(
            key@,
            ty,
        ) is Some),
        r matches Err(e) ==> e is InvalidTermValue && value_of(key@, ty) is None && hits_any(
            postings_list(*old(postings)),
            entry_docs(old(out)@),
        ),
{
    let ghost list = postings_list(*postings);
    let ghost docs = entry_docs(out@);
    let mut state = CursorState::NotSought;
    let mut value: Option<TantivyValue> = None;
    let mut positions: Vec<u32> = Vec::new();
    let mut i: usize = 0;
    while i < out.len()
        invariant
            i <= out@.len(),
            docs_ascending(docs),
            supported(ty),
            out@.len() == old(out)@.len(),
            docs == entry_docs(old(out)@),
            entry_docs(out@) == docs,
            list == postings_list(*old(postings)),
            postings_list(*postings) == list,
            state_holds(state, *postings),
            state is NotSought ==> postings_pos(*postings) == 0,
            i < docs.len() ==> passed_before(*postings, docs[i as int]),
            value matches Some(v) ==> Some(v@) == value_of(key@, ty),
            forall|j: int|
                0 <= j < i && posting_of(list, #[trigger] docs[j]) is Some ==> value_of(key@, ty)
                    is Some,
            forall|j: int|
                0 <= j < i ==> views((#[trigger] out@[j]).1@) == enter_term(
                    views(old(out)@[j].1@),
                    list,
                    key@,
                    ty,
                    docs[j],
                ),
            forall|j: int| i <= j < out@.len() ==> out@[j] == old(out)@[j],
        decreases out@.len() - i,
    {
        let doc = out[i].0;
        let ghost round_start = out@;
        proof {
            assert(docs[i as int] == out@[i as int].0);
        }
        let mut step = Step::Pass;
        if doc < TERMINATED {
            step = next_step(state, doc);
            if let Step::Seek = step {
                let (result, landed) = skip_to(postings, doc);
                state = state_after(result, landed, doc);
                step = next_step(state, doc);
            }
        }
        proof {
            let pos = postings_pos(*postings);
            // the cursor has passed only postings of documents before `doc`
            assert forall|j: int| 0 <= j < pos implies (#[trigger] list[j]).doc < doc by {}
            if step is Emit {
                lemma_posting_at(list, pos);
            } else if doc >= TERMINATED {
                assert(posting_of(list, doc) is None);
            } else {
                lemma_posting_absent(list, pos, doc);
            }
            if i + 1 < docs.len() {
                assert(docs[i as int] < docs[i as int + 1]);
            }
        }
        if let Step::Emit = step {
            if value.is_none() {
                match TantivyValue::from_term(key, ty) {
                    Ok(v) => {
                        value = Some(v);
                    },
                    Err(_) => {
                        proof {
                            assert(posting_of(list, docs[i as int]) is Some);
                            assert(entry_docs(out@) =~= entry_docs(old(out)@));
                        }
                        return Err(ViewerError::InvalidTermValue);
                    },
                }
            }
            postings_positions(postings, &mut positions);
            let term_freq = postings_term_freq(postings);
            match &value {
                Some(v) => {
                    reconstruct_doc(&mut out[i].1, &positions, term_freq, v);
                },
                None => {},
            }
        }
        proof {
            assert(entry_docs(out@) =~= docs) by {
                assert forall|j: int| 0 <= j < out@.len() implies out@[j].0 == docs[j] by {
                    assert(docs[j] == round_start[j].0);
                }
            }
        }
        i = i + 1;
    }
    proof {
        if hits_any(list, docs) {
            let h = choose|h: int| 0 <= h < docs.len() && posting_of(list, #[trigger] docs[h]) is Some;
            assert(value_of(key@, ty) is Some);
        }
    }
    Ok(())
}

} // verus!
