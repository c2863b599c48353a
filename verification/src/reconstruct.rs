//! Reconstruction of the content of a field, document by document.
//!
//! An indexed field is rebuilt from its postings: the dictionary of a
//! segment is streamed once, and each term is entered into the content of
//! every requested document that its postings list has. A field that is not
//! indexed but has columnar storage is read from its column. A field with
//! neither gives an empty content.

use std::collections::HashMap;
use vstd::prelude::*;
use vstd::std_specs::hash::group_hash_axioms;
use crate::codec::{supported, value_of};
use crate::error::ViewerError;
use crate::index::{
    cursor_advance, cursor_key, cursor_pos, cursor_terms, fast_bytes_ords,
    fast_bytes_term, fast_i64_values, fast_u64_values, field_indexing, field_is_fast,
    field_named, field_value_type, find_field, index_field_names, index_has_field, index_reader,
    lemma_known_field, shows_index,
    inverted_index, on_term, open_cursor, open_postings, reader_searcher, reader_terms,
    segment_bytes_ords, segment_bytes_term, segment_count, segment_fast_i64, segment_fast_u64,
    segment_max_doc, segment_terms, segment_uuid, snapshot_schema, snapshot_segments,
    terms_sorted, FieldSpec, Indexing, TermEntry,
};
use crate::segment::{parse_segment_id, segment_id_of, DocId, SegmentId};
use crate::value::{views, TantivyValue, ValueType, ValueView};
use crate::walk::{docs_ascending, enter_term, entry_docs, hits_any, walk_term, DocContent};

verus! {

broadcast use group_hash_axioms;

/// How the content of a field is reconstructed.
#[derive(Clone, Copy, Debug, PartialEq, Eq, Structural)]
pub enum Strategy {
    /// From the postings of the field's terms.
    Positional,
    /// From the field's column.
    Columnar,
    /// Not at all: the field has neither postings nor a column.
    Nothing,
}

/// Whether a field of that type and with that storage flag has a column that
/// the library reads: an integer or bytes field with columnar storage.
pub open spec fn has_column(value_type: ValueType, fast: bool) -> bool {
    fast && (value_type == ValueType::U64 || value_type == ValueType::I64 || value_type
        == ValueType::Bytes)
}

/// The strategy for a field: its postings where it is indexed, else its
/// column where it has one.
pub open spec fn strategy_of(field: FieldSpec) -> Strategy {
    if field.indexing != Indexing::NotIndexed {
        Strategy::Positional
    } else if has_column(field.value_type, field.fast) {
        Strategy::Columnar
    } else {
        Strategy::Nothing
    }
}

/// Whether a field of that type and with that storage flag has a column that
/// the library reads.
pub fn is_fast(value_type: ValueType, fast: bool) -> (r: bool)
    ensures
        r == has_column(value_type, fast),
{
    match value_type {
        ValueType::Str => false,
        ValueType::U64 => fast,
        ValueType::I64 => fast,
        ValueType::Facet => false,
        ValueType::Bytes => fast,
        _ => false,
    }
}

/// The strategy for a field with that indexing, type and storage flag.
pub fn choose_strategy(indexing: Indexing, value_type: ValueType, fast: bool) -> (r: Strategy)
    ensures
        r == strategy_of(FieldSpec { name: Seq::empty(), value_type, indexing, fast }),
{
    match indexing {
        Indexing::NotIndexed => {
            if is_fast(value_type, fast) {
                Strategy::Columnar
            } else {
                Strategy::Nothing
            }
        },
        _ => Strategy::Positional,
    }
}

/// The content of a document rebuilt from the terms of a dictionary, entered
/// in key order.
pub open spec fn rebuilt(terms: Seq<TermEntry>, ty: ValueType, doc: u32) -> Seq<Option<ValueView>>
    decreases terms.len(),
{
    if terms.len() == 0 {
        Seq::empty()
    } else {
        enter_term(
            rebuilt(terms.drop_last(), ty, doc),
            terms.last().postings,
            terms.last().key,
            ty,
            doc,
        )
    }
}

/// Whether some term occurs in one of the documents and has a key that
/// encodes no value of the type.
pub open spec fn undecodable(terms: Seq<TermEntry>, ty: ValueType, docs: Seq<u32>) -> bool {
    exists|t: int|
        0 <= t < terms.len() && hits_any((#[trigger] terms[t]).postings, docs) && value_of(
            terms[t].key,
            ty,
        ) is None
}

/// Unsigned values as a content.
pub open spec fn u64_content(values: Seq<u64>) -> Seq<Option<ValueView>> {
    Seq::new(values.len(), |i: int| Some(ValueView::U64(values[i])))
}

/// Signed values as a content.
pub open spec fn i64_content(values: Seq<i64>) -> Seq<Option<ValueView>> {
    Seq::new(values.len(), |i: int| Some(ValueView::I64(values[i])))
}

/// The byte strings with the given ordinals as a content; an ordinal that
/// the column lacks gives nothing.
pub open spec fn bytes_content(
    searcher: tantivy::Searcher,
    seg: int,
    field: Seq<char>,
    ords: Seq<u64>,
) -> Seq<Option<ValueView>>
    decreases ords.len(),
{
    if ords.len() == 0 {
        Seq::empty()
    } else {
        let before = bytes_content(searcher, seg, field, ords.drop_last());
        match segment_bytes_term(searcher, seg, field, ords.last()) {
            Some(bytes) => before.push(Some(ValueView::Bytes(bytes))),
            None => before,
        }
    }
}

/// What the column of a field holds for a document: its values in storage
/// order; nothing for a document that the segment does not have.
pub open spec fn column_content(
    searcher: tantivy::Searcher,
    seg: int,
    field: FieldSpec,
    doc: u32,
) -> Seq<Option<ValueView>> {
    if doc >= snapshot_segments(searcher)[seg].max_doc {
        Seq::empty()
    } else {
        match field.value_type {
            ValueType::U64 => u64_content(segment_fast_u64(searcher, seg, field.name, doc)),
            ValueType::I64 => i64_content(segment_fast_i64(searcher, seg, field.name, doc)),
            ValueType::Bytes => bytes_content(
                searcher,
                seg,
                field.name,
                segment_bytes_ords(searcher, seg, field.name, doc),
            ),
            _ => Seq::empty(),
        }
    }
}

/// The content of field `field` in document `doc` of segment `seg`.
pub open spec fn content_of(searcher: tantivy::Searcher, seg: int, field: int, doc: u32) -> Seq<
    Option<ValueView>,
> {
    let spec = snapshot_schema(searcher)[field];
    match strategy_of(spec) {
        Strategy::Positional => rebuilt(segment_terms(searcher, seg, field), spec.value_type, doc),
        Strategy::Columnar => column_content(searcher, seg, spec, doc),
        Strategy::Nothing => Seq::empty(),
    }
}

/// The list holds the requested documents in the order of the request, each
/// with the content of the field in it.
pub open spec fn holds_contents(
    list: Seq<DocContent>,
    searcher: tantivy::Searcher,
    seg: int,
    field: int,
    docs: Seq<u32>,
) -> bool {
    &&& entry_docs(list) == docs
    &&& forall|i: int|
        0 <= i < list.len() ==> views((#[trigger] list[i]).1@) == content_of(
            searcher,
            seg,
            field,
            docs[i],
        )
}

/// Whether the reconstruction of a field in a segment meets a term that it
/// cannot decode.
pub open spec fn segment_undecodable(
    searcher: tantivy::Searcher,
    seg: int,
    field: int,
    docs: Seq<u32>,
) -> bool {
    let spec = snapshot_schema(searcher)[field];
    strategy_of(spec) == Strategy::Positional && undecodable(
        segment_terms(searcher, seg, field),
        spec.value_type,
        docs,
    )
}

/// What the reconstruction of a field in one segment owes.
pub open spec fn segment_outcome(
    searcher: tantivy::Searcher,
    seg: int,
    field: int,
    docs: Seq<u32>,
    r: Result<Vec<DocContent>, ViewerError>,
) -> bool {
    match r {
        Ok(list) => holds_contents(list@, searcher, seg, field, docs) && !segment_undecodable(
            searcher,
            seg,
            field,
            docs,
        ),
        Err(ViewerError::InvalidTermValue) => segment_undecodable(searcher, seg, field, docs),
        Err(ViewerError::Storage(_)) => strategy_of(snapshot_schema(searcher)[field])
            != Strategy::Nothing,
        Err(_) => false,
    }
}

/// One empty content for each requested document.
fn empty_contents(docs: &Vec<u32>) -> (out: Vec<DocContent>)
    ensures
        entry_docs(out@) == docs@,
        forall|i: int| 0 <= i < out@.len() ==> (#[trigger] out@[i]).1@.len() == 0,
{
    let mut out: Vec<DocContent> = Vec::new();
    let mut i: usize = 0;
    while i < docs.len()
        invariant
            i <= docs@.len(),
            out@.len() == i,
            forall|j: int| 0 <= j < i ==> (#[trigger] out@[j]).0 == docs@[j] && out@[j].1@.len() == 0,
        decreases docs@.len() - i,
    {
        out.push((docs[i], Vec::new()));
        i = i + 1;
    }
    assert(entry_docs(out@) =~= docs@);
    out
}

/// Entering the first `t + 1` terms enters the first `t` and then term `t`.
proof fn lemma_rebuilt_step(terms: Seq<TermEntry>, ty: ValueType, doc: u32, t: int)
    requires
        0 <= t < terms.len(),
    ensures
        rebuilt(terms.take(t + 1), ty, doc) == enter_term(
            rebuilt(terms.take(t), ty, doc),
            terms[t].postings,
            terms[t].key,
            ty,
            doc,
        ),
{
    assert(terms.take(t + 1).drop_last() =~= terms.take(t));
}

/// The content of the field in each requested document of one segment,
/// rebuilt from the postings of the field's terms.
fn reconstruct_positional(
    searcher: &tantivy::Searcher,
    seg: usize,
    field: u32,
    ty: ValueType,
    docs: &Vec<u32>,
) -> (r: Result<Vec<DocContent>, ViewerError>)
    requires
        seg < snapshot_segments(*searcher).len(),
        field < snapshot_schema(*searcher).len(),
        supported(ty),
        docs_ascending(docs@),
    ensures
        match r {
            Ok(list) => {
                &&& entry_docs(list@) == docs@
                &&& forall|i: int|
                    0 <= i < list@.len() ==> views((#[trigger] list@[i]).1@) == rebuilt(
                        segment_terms(*searcher, seg as int, field as int),
                        ty,
                        docs@[i],
                    )
                &&& !undecodable(segment_terms(*searcher, seg as int, field as int), ty, docs@)
            },
            Err(ViewerError::InvalidTermValue) => undecodable(
                segment_terms(*searcher, seg as int, field as int),
                ty,
                docs@,
            ),
            Err(ViewerError::Storage(_)) => true,
            Err(_) => false,
        },
{
    let ghost terms = segment_terms(*searcher, seg as int, field as int);
    let reader = match inverted_index(searcher, seg, field) {
        Ok(reader) => reader,
        Err(e) => {
            return Err(ViewerError::Storage(e));
        },
    };
    let mut cursor = match open_cursor(&reader) {
        Ok(cursor) => cursor,
        Err(e) => {
            return Err(ViewerError::Storage(e));
        },
    };
    let mut out = empty_contents(docs);
    proof {
        assert(terms.take(0) =~= Seq::<TermEntry>::empty());
        assert forall|i: int| 0 <= i < out@.len() implies views((#[trigger] out@[i]).1@) == rebuilt(
            terms.take(0),
            ty,
            docs@[i],
        ) by {
            assert(views(out@[i].1@) =~= Seq::<Option<ValueView>>::empty());
        }
    }
    let mut more = cursor_advance(&mut cursor);
    while more
        invariant
            supported(ty),
            docs_ascending(docs@),
            terms == segment_terms(*searcher, seg as int, field as int),
            terms == reader_terms(*reader),
            terms_sorted(terms),
            cursor_terms(cursor) == terms,
            0 <= cursor_pos(cursor) <= terms.len(),
            more == on_term(cursor),
            entry_docs(out@) == docs@,
            forall|i: int|
                0 <= i < out@.len() ==> views((#[trigger] out@[i]).1@) == rebuilt(
                    terms.take(cursor_pos(cursor)),
                    ty,
                    docs@[i],
                ),
            forall|t: int|
                0 <= t < cursor_pos(cursor) && hits_any((#[trigger] terms[t]).postings, docs@)
                    ==> value_of(terms[t].key, ty) is Some,
        decreases terms.len() - cursor_pos(cursor),
    {
        let ghost t = cursor_pos(cursor);
        let ghost before = out@;
        let mut postings = match open_postings(&reader, &cursor) {
            Ok(postings) => postings,
            Err(e) => {
                return Err(ViewerError::Storage(e));
            },
        };
        match walk_term(&mut postings, cursor_key(&cursor), ty, &mut out) {
            Ok(()) => {},
            Err(_) => {
                proof {
                    assert(hits_any(terms[t].postings, docs@));
                }
                return Err(ViewerError::InvalidTermValue);
            },
        }
        more = cursor_advance(&mut cursor);
        proof {
            assert forall|i: int| 0 <= i < out@.len() implies views((#[trigger] out@[i]).1@)
                == rebuilt(terms.take(t + 1), ty, docs@[i]) by {
                lemma_rebuilt_step(terms, ty, docs@[i], t);
                assert(before[i].0 == docs@[i]);
            }
        }
    }
    proof {
        assert(terms.take(terms.len() as int) =~= terms);
    }
    Ok(out)
}

/// The byte strings with the given ordinals, appended to a content.
fn append_bytes(
    searcher: &tantivy::Searcher,
    seg: usize,
    field: &str,
    ords: &Vec<u64>,
    output: &mut Vec<Option<TantivyValue>>,
) -> (r: Result<(), ViewerError>)
    requires
        seg < snapshot_segments(*searcher).len(),
    ensures
        r is Ok ==> views(final(output)@) == views(old(output)@) + bytes_content(
            *searcher,
            seg as int,
            field@,
            ords@,
        ),
        r matches Err(e) ==> e is Storage,
{
    let mut i: usize = 0;
    proof {
        assert(ords@.take(0) =~= Seq::<u64>::empty());
        assert(views(output@) =~= views(old(output)@) + bytes_content(
            *searcher,
            seg as int,
            field@,
            ords@.take(0),
        ));
    }
    while i < ords.len()
        invariant
            seg < snapshot_segments(*searcher).len(),
            i <= ords@.len(),
            views(output@) == views(old(output)@) + bytes_content(
                *searcher,
                seg as int,
                field@,
                ords@.take(i as int),
            ),
        decreases ords@.len() - i,
    {
        let ghost before = output@;
        proof {
            assert(ords@.take(i as int + 1).drop_last() =~= ords@.take(i as int));
        }
        match fast_bytes_term(searcher, seg, field, ords[i]) {
            Ok(Some(bytes)) => {
                output.push(Some(TantivyValue::Bytes(bytes)));
                proof {
                    assert(views(output@) =~= views(before).push(Some(ValueView::Bytes(bytes@))));
                    assert(views(output@) =~= views(old(output)@) + bytes_content(
                        *searcher,
                        seg as int,
                        field@,
                        ords@.take(i as int + 1),
                    ));
                }
            },
            Ok(None) => {},
            Err(e) => {
                return Err(ViewerError::Storage(e));
            },
        }
        i = i + 1;
    }
    proof {
        assert(ords@.take(ords@.len() as int) =~= ords@);
    }
    Ok(())
}

/// The values that the column of an integer field holds for one document,
/// appended to the document's content.
///
/// Fails with `UnsupportedFieldAccess`, before anything is read, where the
/// field has no columnar storage. A call that fails leaves the content as it
/// was.
pub(crate) fn reconstruct_numeric(
    searcher: &tantivy::Searcher,
    seg: usize,
    field: u32,
    name: &str,
    signed: bool,
    doc: DocId,
    output: &mut Vec<Option<TantivyValue>>,
) -> (r: Result<(), ViewerError>)
    requires
        seg < snapshot_segments(*searcher).len(),
        doc < snapshot_segments(*searcher)[seg as int].max_doc,
        field_named(snapshot_schema(*searcher), name@, field as int),
    ensures
        match r {
            Ok(_) => snapshot_schema(*searcher)[field as int].fast && views(final(output)@)
                == views(old(output)@) + if signed {
                i64_content(segment_fast_i64(*searcher, seg as int, name@, doc))
            } else {
                u64_content(segment_fast_u64(*searcher, seg as int, name@, doc))
            },
            Err(ViewerError::UnsupportedFieldAccess) => !snapshot_schema(
                *searcher,
            )[field as int].fast,
            Err(ViewerError::Storage(_)) => snapshot_schema(*searcher)[field as int].fast,
            Err(_) => false,
        },
        r is Err ==> final(output)@ == old(output)@,
{
    if !field_is_fast(searcher, field) {
        return Err(ViewerError::UnsupportedFieldAccess);
    }
    if signed {
        let values = match fast_i64_values(searcher, seg, name, doc) {
            Ok(values) => values,
            Err(e) => {
                return Err(ViewerError::Storage(e));
            },
        };
        let mut i: usize = 0;
        while i < values.len()
            invariant
                i <= values@.len(),
                views(output@) == views(old(output)@) + i64_content(values@.take(i as int)),
            decreases values@.len() - i,
        {
            let ghost before = output@;
            output.push(Some(TantivyValue::I64(values[i])));
            proof {
                assert(views(output@) =~= views(before).push(Some(ValueView::I64(values@[i as int]))));
                assert(views(output@) =~= views(old(output)@) + i64_content(
                    values@.take(i as int + 1),
                ));
            }
            i = i + 1;
        }
        proof {
            assert(values@.take(values@.len() as int) =~= values@);
        }
    } else {
        let values = match fast_u64_values(searcher, seg, name, doc) {
            Ok(values) => values,
            Err(e) => {
                return Err(ViewerError::Storage(e));
            },
        };
        let mut i: usize = 0;
        while i < values.len()
            invariant
                i <= values@.len(),
                views(output@) == views(old(output)@) + u64_content(values@.take(i as int)),
            decreases values@.len() - i,
        {
            let ghost before = output@;
            output.push(Some(TantivyValue::U64(values[i])));
            proof {
                assert(views(output@) =~= views(before).push(Some(ValueView::U64(values@[i as int]))));
                assert(views(output@) =~= views(old(output)@) + u64_content(
                    values@.take(i as int + 1),
                ));
            }
            i = i + 1;
        }
        proof {
            assert(values@.take(values@.len() as int) =~= values@);
        }
    }
    Ok(())
}

/// The content of the field in each requested document of one segment, read
/// from the field's column.
fn reconstruct_columnar(
    searcher: &tantivy::Searcher,
    seg: usize,
    field: u32,
    name: &str,
    ty: ValueType,
    docs: &Vec<u32>,
) -> (r: Result<Vec<DocContent>, ViewerError>)
    requires
        seg < snapshot_segments(*searcher).len(),
        field_named(snapshot_schema(*searcher), name@, field as int),
        ty == snapshot_schema(*searcher)[field as int].value_type,
        snapshot_schema(*searcher)[field as int].fast,
    ensures
        r matches Ok(list) ==> entry_docs(list@) == docs@ && forall|i: int|
            0 <= i < list@.len() ==> views((#[trigger] list@[i]).1@) == column_content(
                *searcher,
                seg as int,
                snapshot_schema(*searcher)[field as int],
                docs@[i],
            ),
        r matches Err(e) ==> e is Storage,
{
    let max_doc = segment_max_doc(searcher, seg);
    let mut out = empty_contents(docs);
    let ghost spec = snapshot_schema(*searcher)[field as int];
    let mut i: usize = 0;
    while i < out.len()
        invariant
            seg < snapshot_segments(*searcher).len(),
            max_doc == snapshot_segments(*searcher)[seg as int].max_doc,
            spec == snapshot_schema(*searcher)[field as int],
            field_named(snapshot_schema(*searcher), name@, field as int),
            spec.fast,
            ty == spec.value_type,
            i <= out@.len(),
            entry_docs(out@) == docs@,
            forall|j: int| i <= j < out@.len() ==> (#[trigger] out@[j]).1@.len() == 0,
            forall|j: int|
                0 <= j < i ==> views((#[trigger] out@[j]).1@) == column_content(
                    *searcher,
                    seg as int,
                    spec,
                    docs@[j],
                ),
        decreases out@.len() - i,
    {
        let doc = out[i].0;
        let ghost before = out@;
        proof {
            assert(docs@[i as int] == out@[i as int].0);
            assert(views(out@[i as int].1@) =~= Seq::<Option<ValueView>>::empty());
        }
        if doc < max_doc {
            match ty {
                ValueType::U64 => {
                    match reconstruct_numeric(
                        searcher,
                        seg,
                        field,
                        name,
                        false,
                        doc,
                        &mut out[i].1,
                    ) {
                        Ok(()) => {},
                        Err(e) => {
                            return Err(e);
                        },
                    }
                },
                ValueType::I64 => {
                    match reconstruct_numeric(
                        searcher,
                        seg,
                        field,
                        name,
                        true,
                        doc,
                        &mut out[i].1,
                    ) {
                        Ok(()) => {},
                        Err(e) => {
                            return Err(e);
                        },
                    }
                },
                ValueType::Bytes => {
                    let ords = match fast_bytes_ords(searcher, seg, name, doc) {
                        Ok(ords) => ords,
                        Err(e) => {
                            return Err(ViewerError::Storage(e));
                        },
                    };
                    match append_bytes(searcher, seg, name, &ords, &mut out[i].1) {
                        Ok(()) => {},
                        Err(e) => {
                            return Err(e);
                        },
                    }
                },
                _ => {},
            }
        }
        proof {
            assert(views(out@[i as int].1@) =~= column_content(
                *searcher,
                seg as int,
                spec,
                docs@[i as int],
            ));
            assert(entry_docs(out@) =~= docs@) by {
                assert forall|j: int| 0 <= j < out@.len() implies out@[j].0 == docs@[j] by {
                    assert(docs@[j] == before[j].0);
                }
            }
        }
        i = i + 1;
    }
    Ok(out)
}

/// The content of a field in each requested document of one segment.
///
/// Fails with `Unimplemented` where the field is indexed and its type is one
/// that the codec does not handle, and with `InvalidTermValue` where a term
/// that occurs in a requested document has a key that encodes no value. A
/// field with neither index nor column is not read: the call succeeds, with
/// an empty content for each document.
pub(crate) fn reconstruct_segment(
    searcher: &tantivy::Searcher,
    seg: usize,
    field: u32,
    name: &str,
    docs: &Vec<u32>,
) -> (r: Result<Vec<DocContent>, ViewerError>)
    requires
        seg < snapshot_segments(*searcher).len(),
        field_named(snapshot_schema(*searcher), name@, field as int),
        docs_ascending(docs@),
    ensures
        unsupported_index(snapshot_schema(*searcher)[field as int]) ==> (r matches Err(
            ViewerError::Unimplemented,
        )),
        !unsupported_index(snapshot_schema(*searcher)[field as int]) ==> segment_outcome(
            *searcher,
            seg as int,
            field as int,
            docs@,
            r,
        ),
{
    let ty = field_value_type(searcher, field);
    let indexing = field_indexing(searcher, field);
    let fast = field_is_fast(searcher, field);
    match choose_strategy(indexing, ty, fast) {
        Strategy::Positional => {
            match ty {
                ValueType::Str | ValueType::U64 | ValueType::I64 | ValueType::Bytes => {},
                _ => {
                    return Err(ViewerError::Unimplemented);
                },
            }
            reconstruct_positional(searcher, seg, field, ty, docs)
        },
        Strategy::Columnar => reconstruct_columnar(searcher, seg, field, name, ty, docs),
        Strategy::Nothing => {
            let out = empty_contents(docs);
            proof {
                assert forall|i: int| 0 <= i < out@.len() implies views((#[trigger] out@[i]).1@)
                    == content_of(*searcher, seg as int, field as int, docs@[i]) by {
                    assert(views(out@[i].1@) =~= Seq::<Option<ValueView>>::empty());
                }
            }
            Ok(out)
        },
    }
}

/// The field is indexed, and its type is one that the codec does not handle.
pub open spec fn unsupported_index(field: FieldSpec) -> bool {
    field.indexing != Indexing::NotIndexed && !supported(field.value_type)
}

/// The documents requested of each segment, and what was reconstructed of
/// them.
pub type Request = HashMap<SegmentId, Vec<DocId>>;

/// The reconstructed documents of each segment.
pub type Reconstruction = HashMap<SegmentId, Vec<DocContent>>;

/// The id of segment `s` of the snapshot.
pub open spec fn id_at(searcher: tantivy::Searcher, s: int) -> Option<SegmentId> {
    segment_id_of(snapshot_segments(searcher)[s].uuid)
}

/// Segment `s` is one of the first `n` segments of the snapshot, and has the id.
pub open spec fn segment_with_id(searcher: tantivy::Searcher, id: SegmentId, n: int, s: int) -> bool {
    0 <= s < n && n <= snapshot_segments(searcher).len() && id_at(searcher, s) == Some(id)
}

/// Whether the snapshot has a segment with the id.
pub open spec fn has_segment(searcher: tantivy::Searcher, id: SegmentId) -> bool {
    exists|s: int|
        segment_with_id(searcher, id, snapshot_segments(searcher).len() as int, s)
}

/// No segment between `s` and `n` has the id of segment `s`.
pub open spec fn last_before(searcher: tantivy::Searcher, s: int, n: int) -> bool {
    forall|t: int| s < t < n ==> #[trigger] id_at(searcher, t) != id_at(searcher, s)
}

/// The request is well formed: the documents of each segment are in
/// ascending order, none twice.
pub open spec fn request_sorted(docs: Map<SegmentId, Vec<DocId>>) -> bool {
    forall|id: SegmentId| docs.contains_key(id) ==> docs_ascending(#[trigger] docs[id]@)
}

/// What the first `n` segments of the snapshot contribute to a reconstruction.
pub open spec fn reconstructed_upto(
    out: Map<SegmentId, Vec<DocContent>>,
    searcher: tantivy::Searcher,
    field: int,
    docs: Map<SegmentId, Vec<DocId>>,
    n: int,
) -> bool {
    &&& forall|id: SegmentId| #[trigger]
        out.contains_key(id) <==> docs.contains_key(id) && exists|s: int|
            segment_with_id(searcher, id, n, s)
    &&& forall|s: int, id: SegmentId|
        #[trigger] segment_with_id(searcher, id, n, s) && docs.contains_key(id) && last_before(
            searcher,
            s,
            n,
        ) ==> holds_contents(out[id]@, searcher, s, field, docs[id]@)
    &&& forall|s: int, id: SegmentId|
        #[trigger] segment_with_id(searcher, id, n, s) && docs.contains_key(id)
            ==> !segment_undecodable(searcher, s, field, docs[id]@)
}

/// Whether the reconstruction of a request meets a term that it cannot decode.
pub open spec fn request_undecodable(
    searcher: tantivy::Searcher,
    field: int,
    docs: Map<SegmentId, Vec<DocId>>,
) -> bool {
    exists|s: int, id: SegmentId|
        #[trigger] segment_with_id(searcher, id, snapshot_segments(searcher).len() as int, s)
            && docs.contains_key(id) && segment_undecodable(searcher, s, field, docs[id]@)
}

/// Whether the reconstruction of a request reads the index: the field has an
/// index or a column, and the snapshot has one of the requested segments.
pub open spec fn request_reads(
    searcher: tantivy::Searcher,
    field: int,
    docs: Map<SegmentId, Vec<DocId>>,
) -> bool {
    strategy_of(snapshot_schema(searcher)[field]) != Strategy::Nothing && exists|
        s: int,
        id: SegmentId,
    |
        #[trigger] segment_with_id(searcher, id, snapshot_segments(searcher).len() as int, s)
            && docs.contains_key(id)
}

/// What `reconstruct_in` owes for a field that the schema has under id `field`.
pub open spec fn reconstruct_of_field(
    searcher: tantivy::Searcher,
    field: int,
    docs: Map<SegmentId, Vec<DocId>>,
    r: Result<Reconstruction, ViewerError>,
) -> bool {
    if unsupported_index(snapshot_schema(searcher)[field]) {
        r matches Err(ViewerError::Unimplemented)
    } else {
        match r {
            Ok(out) => reconstructed_upto(
                out@,
                searcher,
                field,
                docs,
                snapshot_segments(searcher).len() as int,
            ),
            Err(ViewerError::InvalidTermValue) => request_undecodable(searcher, field, docs),
            Err(ViewerError::Storage(_)) => request_reads(searcher, field, docs),
            Err(_) => false,
        }
    }
}

/// What `reconstruct_in` owes: `FieldNotFound` where the schema has no field
/// of that name, and else what `reconstruct_of_field` says.
pub open spec fn reconstruct_outcome(
    searcher: tantivy::Searcher,
    field: Seq<char>,
    docs: Map<SegmentId, Vec<DocId>>,
    r: Result<Reconstruction, ViewerError>,
) -> bool {
    &&& (forall|id: int| !field_named(snapshot_schema(searcher), field, id)) ==> (r matches Err(
        ViewerError::FieldNotFound,
    ))
    &&& forall|id: int| #[trigger]
        field_named(snapshot_schema(searcher), field, id) ==> reconstruct_of_field(
            searcher,
            id,
            docs,
            r,
        )
}

/// The content of a field in the requested documents of a snapshot, segment
/// by segment. The documents of each segment come back in the order of the
/// request; a requested segment that the snapshot lacks is left out.
///
/// The index is read only for a field with an index or a column, and only
/// for a requested segment that the snapshot has: without both the call
/// succeeds.
pub fn reconstruct_in(searcher: &tantivy::Searcher, field: &str, docs: &Request) -> (r: Result<
    Reconstruction,
    ViewerError,
>)
    requires
        request_sorted(docs@),
    ensures
        reconstruct_outcome(*searcher, field@, docs@, r),
{
    let id = match find_field(searcher, field) {
        Some(id) => id,
        None => {
            return Err(ViewerError::FieldNotFound);
        },
    };
    assert(field_named(snapshot_schema(*searcher), field@, id as int));
    assert(forall|other: int| #[trigger]
        field_named(snapshot_schema(*searcher), field@, other) ==> other == id);
    let ty = field_value_type(searcher, id);
    let indexing = field_indexing(searcher, id);
    match indexing {
        Indexing::NotIndexed => {},
        _ => {
            match ty {
                ValueType::Str | ValueType::U64 | ValueType::I64 | ValueType::Bytes => {},
                _ => {
                    return Err(ViewerError::Unimplemented);
                },
            }
        },
    }
    let n = segment_count(searcher);
    let mut out: Reconstruction = HashMap::new();
    let mut s: usize = 0;
    while s < n
        invariant
            n == snapshot_segments(*searcher).len(),
            s <= n,
            request_sorted(docs@),
            field_named(snapshot_schema(*searcher), field@, id as int),
            forall|other: int| #[trigger]
                field_named(snapshot_schema(*searcher), field@, other) ==> other == id,
            !unsupported_index(snapshot_schema(*searcher)[id as int]),
            reconstructed_upto(out@, *searcher, id as int, docs@, s as int),
        decreases n - s,
    {
        let ghost before = out@;
        let uuid = segment_uuid(searcher, s);
        let mut added = false;
        let ghost this_id = id_at(*searcher, s as int).unwrap();
        match parse_segment_id(uuid.as_str()) {
            Some(segment) => {
                match docs.get(&segment) {
                    Some(list) => {
                        match reconstruct_segment(searcher, s, id, field, list) {
                            Ok(contents) => {
                                out.insert(segment, contents);
                                added = true;
                            },
                            Err(e) => {
                                proof {
                                    assert(segment_with_id(
                                        *searcher,
                                        segment,
                                        n as int,
                                        s as int,
                                    ));
                                }
                                return Err(e);
                            },
                        }
                    },
                    None => {},
                }
            },
            None => {},
        }
        proof {
            let next = s as int + 1;
            assert forall|key: SegmentId| #[trigger]
                out@.contains_key(key) <==> docs@.contains_key(key) && exists|t: int|
                    segment_with_id(*searcher, key, next, t) by {
                if key == this_id {
                    assert(segment_with_id(*searcher, key, next, s as int));
                } else if before.contains_key(key) {
                    let t = choose|t: int| segment_with_id(*searcher, key, s as int, t);
                    assert(segment_with_id(*searcher, key, next, t));
                } else if docs@.contains_key(key) && exists|t: int|
                    segment_with_id(*searcher, key, next, t) {
                    let t = choose|t: int| segment_with_id(*searcher, key, next, t);
                    assert(segment_with_id(*searcher, key, s as int, t));
                }
            }
            assert forall|t: int, key: SegmentId|
                #[trigger] segment_with_id(*searcher, key, next, t) && docs@.contains_key(key)
                    && last_before(*searcher, t, next) implies holds_contents(
                out@[key]@,
                *searcher,
                t,
                id as int,
                docs@[key]@,
            ) by {
                if t < s {
                    assert(segment_with_id(*searcher, key, s as int, t));
                    assert(id_at(*searcher, s as int) != id_at(*searcher, t));
                    assert(last_before(*searcher, t, s as int));
                }
            }
            assert forall|t: int, key: SegmentId|
                #[trigger] segment_with_id(*searcher, key, next, t) && docs@.contains_key(
                    key,
                ) implies !segment_undecodable(*searcher, t, id as int, docs@[key]@) by {
                if t < s {
                    assert(segment_with_id(*searcher, key, s as int, t));
                }
            }
        }
        s = s + 1;
    }
    Ok(out)
}

/// The content of a field in the requested documents of an index, in the
/// snapshot that a new reader on the index shows.
pub fn reconstruct(index: &tantivy::Index, field: &str, docs: &Request) -> (r: Result<
    Reconstruction,
    ViewerError,
>)
    requires
        request_sorted(docs@),
    ensures
        (r matches Err(ViewerError::FieldNotFound)) <==> !index_field_names(*index).contains(
            field@,
        ),
        index_field_names(*index).contains(field@) ==> ((r matches Err(ViewerError::Storage(_)))
            || exists|searcher: tantivy::Searcher|
            shows_index(searcher, *index) && reconstruct_outcome(searcher, field@, docs@, r)),
{
    if !index_has_field(index, field) {
        return Err(ViewerError::FieldNotFound);
    }
    let reader = match index_reader(index) {
        Ok(reader) => reader,
        Err(e) => {
            return Err(ViewerError::Storage(e));
        },
    };
    let searcher = reader_searcher(&reader);
    let r = reconstruct_in(&searcher, field, docs);
    proof {
        assert(shows_index(searcher, *index) && reconstruct_outcome(searcher, field@, docs@, r));
        lemma_known_field(searcher, *index, field@);
    }
    r
}

/// What `reconstruct_one_in` owes for a field that the schema has under id
/// `field`.
pub open spec fn reconstruct_one_of_field(
    searcher: tantivy::Searcher,
    field: int,
    segment: SegmentId,
    doc: DocId,
    r: Result<Vec<Option<TantivyValue>>, ViewerError>,
) -> bool {
    let n = snapshot_segments(searcher).len() as int;
    if unsupported_index(snapshot_schema(searcher)[field]) {
        r matches Err(ViewerError::Unimplemented)
    } else if !has_segment(searcher, segment) {
        r matches Err(ViewerError::SegmentNotFound)
    } else {
        match r {
            Ok(content) => {
                &&& exists|s: int|
                    #[trigger] segment_with_id(searcher, segment, n, s) && last_before(
                        searcher,
                        s,
                        n,
                    ) && views(content@) == content_of(searcher, s, field, doc)
                &&& strategy_of(snapshot_schema(searcher)[field]) == Strategy::Nothing
                    ==> content@.len() == 0
            },
            Err(ViewerError::InvalidTermValue) => exists|s: int|
                #[trigger] segment_with_id(searcher, segment, n, s) && segment_undecodable(
                    searcher,
                    s,
                    field,
                    seq![doc],
                ),
            Err(ViewerError::Storage(_)) => strategy_of(snapshot_schema(searcher)[field])
                != Strategy::Nothing,
            Err(_) => false,
        }
    }
}

/// What `reconstruct_one_in` owes.
pub open spec fn reconstruct_one_outcome(
    searcher: tantivy::Searcher,
    field: Seq<char>,
    segment: SegmentId,
    doc: DocId,
    r: Result<Vec<Option<TantivyValue>>, ViewerError>,
) -> bool {
    &&& (forall|id: int| !field_named(snapshot_schema(searcher), field, id)) ==> (r matches Err(
        ViewerError::FieldNotFound,
    ))
    &&& forall|id: int| #[trigger]
        field_named(snapshot_schema(searcher), field, id) ==> reconstruct_one_of_field(
            searcher,
            id,
            segment,
            doc,
            r,
        )
}

/// The content of a field in one document of a snapshot.
///
/// Fails with `SegmentNotFound` where, and only where, the field is one that
/// can be reconstructed and the snapshot has no segment with the id. For a
/// field with neither index nor column the content of a document of any
/// segment of the snapshot is empty, and nothing is read.
pub fn reconstruct_one_in(
    searcher: &tantivy::Searcher,
    field: &str,
    segment: SegmentId,
    doc: DocId,
) -> (r: Result<Vec<Option<TantivyValue>>, ViewerError>)
    ensures
        reconstruct_one_outcome(*searcher, field@, segment, doc, r),
{
    let mut request: Request = HashMap::new();
    let mut one: Vec<DocId> = Vec::new();
    one.push(doc);
    request.insert(segment, one);
    assert(request@[segment]@ =~= seq![doc]);
    let ghost n = snapshot_segments(*searcher).len() as int;
    let mut result = match reconstruct_in(searcher, field, &request) {
        Ok(result) => result,
        Err(e) => {
            proof {
                assert forall|id: int| #[trigger]
                    field_named(
                        snapshot_schema(*searcher),
                        field@,
                        id,
                    ) implies reconstruct_one_of_field(*searcher, id, segment, doc, Err(e)) by {
                    assert(reconstruct_of_field(*searcher, id, request@, Err(e)));
                    if !unsupported_index(snapshot_schema(*searcher)[id]) {
                        if e is InvalidTermValue {
                            let (s, key) = choose|s: int, key: SegmentId|
                                #[trigger] segment_with_id(*searcher, key, n, s)
                                    && request@.contains_key(key) && segment_undecodable(
                                    *searcher,
                                    s,
                                    id,
                                    request@[key]@,
                                );
                            assert(segment_with_id(*searcher, segment, n, s));
                        } else {
                            let (s, key) = choose|s: int, key: SegmentId|
                                #[trigger] segment_with_id(*searcher, key, n, s)
                                    && request@.contains_key(key);
                            assert(segment_with_id(*searcher, segment, n, s));
                        }
                    }
                }
            }
            return Err(e);
        },
    };
    let ghost whole = result@;
    proof {
        assert forall|id: int| #[trigger]
            field_named(snapshot_schema(*searcher), field@, id) implies !unsupported_index(
            snapshot_schema(*searcher)[id],
        ) && reconstructed_upto(whole, *searcher, id, request@, n) by {
            assert(reconstruct_of_field(*searcher, id, request@, Ok(result)));
        }
    }
    let taken = result.remove(&segment);
    proof {
        if whole.contains_key(segment) {
            assert forall|id: int| #[trigger]
                field_named(snapshot_schema(*searcher), field@, id) implies exists|s: int|
                #[trigger] segment_with_id(*searcher, segment, n, s) && last_before(*searcher, s, n)
                    && holds_contents(whole[segment]@, *searcher, s, id, seq![doc]) by {
                assert(has_segment(*searcher, segment));
                lemma_last_segment(*searcher, segment);
                let s = choose|s: int|
                    segment_with_id(*searcher, segment, n, s) && last_before(*searcher, s, n);
                assert(segment_with_id(*searcher, segment, n, s));
            }
        }
    }
    match taken {
        Some(list) => {
            let mut list = list;
            let ghost full = list@;
            match list.pop() {
                Some(entry) => {
                    proof {
                        assert forall|id: int| #[trigger]
                            field_named(
                                snapshot_schema(*searcher),
                                field@,
                                id,
                            ) implies reconstruct_one_of_field(
                            *searcher,
                            id,
                            segment,
                            doc,
                            Ok(entry.1),
                        ) by {
                            let s = choose|s: int|
                                #[trigger] segment_with_id(*searcher, segment, n, s)
                                    && last_before(*searcher, s, n) && holds_contents(
                                    full,
                                    *searcher,
                                    s,
                                    id,
                                    seq![doc],
                                );
                            assert(entry_docs(full).len() == 1);
                            assert(full[0] == entry);
                            assert(views(entry.1@).len() == entry.1@.len());
                        }
                    }
                    Ok(entry.1)
                },
                None => {
                    proof {
                        if exists|id: int| field_named(snapshot_schema(*searcher), field@, id) {
                            let id = choose|id: int|
                                field_named(snapshot_schema(*searcher), field@, id);
                            let s = choose|s: int|
                                #[trigger] segment_with_id(*searcher, segment, n, s)
                                    && last_before(*searcher, s, n) && holds_contents(
                                    full,
                                    *searcher,
                                    s,
                                    id,
                                    seq![doc],
                                );
                            assert(entry_docs(full).len() == 1);
                            assert(false);
                        }
                    }
                    Err(ViewerError::SegmentNotFound)
                },
            }
        },
        None => {
            proof {
                assert forall|id: int| #[trigger]
                    field_named(
                        snapshot_schema(*searcher),
                        field@,
                        id,
                    ) implies reconstruct_one_of_field(
                    *searcher,
                    id,
                    segment,
                    doc,
                    Err(ViewerError::SegmentNotFound),
                ) by {
                    if has_segment(*searcher, segment) {
                        let s = choose|s: int| segment_with_id(*searcher, segment, n, s);
                        assert(segment_with_id(*searcher, segment, n, s));
                        assert(whole.contains_key(segment));
                    }
                }
            }
            Err(ViewerError::SegmentNotFound)
        },
    }
}

/// Of the segments with one id, one is the last.
proof fn lemma_last_segment(searcher: tantivy::Searcher, id: SegmentId)
    requires
        has_segment(searcher, id),
    ensures
        exists|s: int|
            segment_with_id(searcher, id, snapshot_segments(searcher).len() as int, s)
                && last_before(searcher, s, snapshot_segments(searcher).len() as int),
{
    let n = snapshot_segments(searcher).len() as int;
    let first = choose|s: int| segment_with_id(searcher, id, n, s);
    lemma_last_from(searcher, id, first);
}

proof fn lemma_last_from(searcher: tantivy::Searcher, id: SegmentId, s: int)
    requires
        segment_with_id(searcher, id, snapshot_segments(searcher).len() as int, s),
    ensures
        exists|t: int|
            segment_with_id(searcher, id, snapshot_segments(searcher).len() as int, t)
                && last_before(searcher, t, snapshot_segments(searcher).len() as int),
    decreases snapshot_segments(searcher).len() - s,
{
    let n = snapshot_segments(searcher).len() as int;
    if !last_before(searcher, s, n) {
        let t = choose|t: int| s < t < n && #[trigger] id_at(searcher, t) == id_at(searcher, s);
        lemma_last_from(searcher, id, t);
    }
}

/// The content of a field in one document of an index, in the snapshot that
/// a new reader on the index shows.
pub fn reconstruct_one(index: &tantivy::Index, field: &str, segment: SegmentId, doc: DocId) -> (r:
    Result<Vec<Option<TantivyValue>>, ViewerError>)
    ensures
        (r matches Err(ViewerError::FieldNotFound)) <==> !index_field_names(*index).contains(
            field@,
        ),
        index_field_names(*index).contains(field@) ==> ((r matches Err(ViewerError::Storage(_)))
            || exists|searcher: tantivy::Searcher|
            shows_index(searcher, *index) && reconstruct_one_outcome(
                searcher,
                field@,
                segment,
                doc,
                r,
            )),
{
    if !index_has_field(index, field) {
        return Err(ViewerError::FieldNotFound);
    }
    let reader = match index_reader(index) {
        Ok(reader) => reader,
        Err(e) => {
            return Err(ViewerError::Storage(e));
        },
    };
    let searcher = reader_searcher(&reader);
    let r = reconstruct_one_in(&searcher, field, segment, doc);
    proof {
        assert(shows_index(searcher, *index) && reconstruct_one_outcome(
            searcher,
            field@,
            segment,
            doc,
            r,
        ));
        lemma_known_field(searcher, *index, field@);
    }
    r
}

} // verus!
