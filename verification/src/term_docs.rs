//! Exact term lookup: the documents that contain one term.

use vstd::prelude::*;
use crate::error::ViewerError;
use crate::index::{
    current_doc, field_indexing, field_named, field_value_type, find_field, index_field_names,
    index_has_field, index_reader, inverted_index, lemma_known_field, lookup_postings,
    posting_docs, postings_advance, postings_doc, postings_list, postings_pos, postings_sorted,
    reader_searcher, segment_count, segment_terms, segment_uuid, shows_index, snapshot_schema,
    snapshot_segments, terms_sorted, Indexing, TermEntry, TERMINATED,
};
use crate::parse::{encode_term_text, key_of_text, textual};
use crate::bytes::lemma_lex_asymmetric;
use crate::segment::{parse_segment_id, segment_id_of, DocId, SegmentId};

verus! {

/// The documents of the term with the key in a dictionary, in ascending
/// order; none where the dictionary lacks the key.
pub open spec fn docs_of_key(terms: Seq<TermEntry>, key: Seq<u8>) -> Seq<u32> {
    if exists|i: int| 0 <= i < terms.len() && (#[trigger] terms[i]).key == key {
        posting_docs(
            terms[choose|i: int| 0 <= i < terms.len() && (#[trigger] terms[i]).key == key].postings,
        )
    } else {
        Seq::empty()
    }
}

/// The documents, each with the segment's id.
pub open spec fn tagged(id: Option<SegmentId>, docs: Seq<u32>) -> Seq<(SegmentId, DocId)> {
    match id {
        Some(id) => Seq::new(docs.len(), |i: int| (id, docs[i])),
        None => Seq::empty(),
    }
}

/// The documents that contain the term in the first `n` segments of the
/// snapshot: segment by segment, and within a segment in ascending order.
pub open spec fn hits_upto(searcher: tantivy::Searcher, field: int, key: Seq<u8>, n: int) -> Seq<
    (SegmentId, DocId),
>
    decreases n,
{
    if n <= 0 {
        Seq::empty()
    } else {
        hits_upto(searcher, field, key, n - 1) + tagged(
            segment_id_of(snapshot_segments(searcher)[n - 1].uuid),
            docs_of_key(segment_terms(searcher, n - 1, field), key),
        )
    }
}

/// What `term_docs_in` owes for a field that the schema has under id `field`.
pub open spec fn term_docs_of_field(
    searcher: tantivy::Searcher,
    field: int,
    text: Seq<char>,
    r: Result<Vec<(SegmentId, DocId)>, ViewerError>,
) -> bool {
    let spec = snapshot_schema(searcher)[field];
    let n = snapshot_segments(searcher).len() as int;
    if !textual(spec.value_type) {
        r matches Err(ViewerError::Unimplemented)
    } else {
        match key_of_text(text, spec.value_type) {
            None => r matches Err(ViewerError::InvalidTermValue),
            Some(key) => if spec.indexing == Indexing::NotIndexed {
                r matches Err(ViewerError::UnsupportedFieldAccess)
            } else {
                match r {
                    Ok(hits) => {
                        &&& hits@ == hits_upto(searcher, field, key, n)
                        &&& dictionaries_sorted(searcher, field)
                    },
                    Err(ViewerError::Storage(_)) => n > 0,
                    Err(_) => false,
                }
            },
        }
    }
}

/// The field's dictionary in each segment of the snapshot is in order, and
/// so is each of its postings lists.
pub open spec fn dictionaries_sorted(searcher: tantivy::Searcher, field: int) -> bool {
    forall|s: int|
        0 <= s < snapshot_segments(searcher).len() ==> terms_sorted(
            #[trigger] segment_terms(searcher, s, field),
        )
}

/// What `term_docs_in` owes: `FieldNotFound` where the schema has no field of
/// that name, and else what `term_docs_of_field` says.
pub open spec fn term_docs_outcome(
    searcher: tantivy::Searcher,
    field: Seq<char>,
    text: Seq<char>,
    r: Result<Vec<(SegmentId, DocId)>, ViewerError>,
) -> bool {
    &&& (forall|id: int| !field_named(snapshot_schema(searcher), field, id)) ==> (r matches Err(
        ViewerError::FieldNotFound,
    ))
    &&& forall|id: int| #[trigger]
        field_named(snapshot_schema(searcher), field, id) ==> term_docs_of_field(
            searcher,
            id,
            text,
            r,
        )
}

/// In a sorted dictionary, the documents of the key at a place are those of
/// the term at that place.
proof fn lemma_docs_at(terms: Seq<TermEntry>, i: int)
    requires
        terms_sorted(terms),
        0 <= i < terms.len(),
    ensures
        docs_of_key(terms, terms[i].key) == posting_docs(terms[i].postings),
{
    let key = terms[i].key;
    let c = choose|c: int| 0 <= c < terms.len() && (#[trigger] terms[c]).key == key;
    if c < i {
        lemma_lex_asymmetric(terms[c].key, terms[i].key);
    } else if i < c {
        lemma_lex_asymmetric(terms[i].key, terms[c].key);
    }
}

/// The documents that a postings cursor has yet to show, appended to the
/// hits, each with the segment's id.
fn collect_docs(
    postings: &mut tantivy::postings::SegmentPostings,
    segment: SegmentId,
    hits: &mut Vec<(SegmentId, DocId)>,
)
    requires
        postings_sorted(postings_list(*old(postings))),
        postings_pos(*old(postings)) == 0,
    ensures
        final(hits)@ == old(hits)@ + tagged(
            Some(segment),
            posting_docs(postings_list(*old(postings))),
        ),
{
    let ghost list = postings_list(*postings);
    let ghost docs = posting_docs(list);
    let mut doc = postings_doc(postings);
    proof {
        assert(old(hits)@ + tagged(Some(segment), docs.take(0)) =~= old(hits)@);
    }
    while doc != TERMINATED
        invariant
            list == postings_list(*postings),
            docs == posting_docs(list),
            postings_sorted(list),
            0 <= postings_pos(*postings) <= list.len(),
            doc == current_doc(*postings),
            hits@ == old(hits)@ + tagged(Some(segment), docs.take(postings_pos(*postings))),
        decreases list.len() - postings_pos(*postings),
    {
        let ghost pos = postings_pos(*postings);
        let ghost before = hits@;
        hits.push((segment, doc));
        doc = postings_advance(postings);
        proof {
            assert(docs.take(pos + 1) =~= docs.take(pos).push(docs[pos]));
            assert(hits@ =~= old(hits)@ + tagged(Some(segment), docs.take(pos + 1)));
        }
    }
    proof {
        assert(postings_pos(*postings) == list.len());
        assert(docs.take(list.len() as int) =~= docs);
    }
}

/// The documents of a snapshot that contain a term, given as text: segment
/// by segment, and within a segment in ascending order.
///
/// The text is looked at before the index. The call fails with
/// `Unimplemented` where a term of the field cannot be given as text, with
/// `InvalidTermValue` where the text denotes no value of the field's type,
/// and only then with `UnsupportedFieldAccess` where the field is not
/// indexed. A snapshot without segments is not read, and gives no hits.
pub fn term_docs_in(searcher: &tantivy::Searcher, field: &str, term_str: &str) -> (r: Result<
    Vec<(SegmentId, DocId)>,
    ViewerError,
>)
    ensures
        term_docs_outcome(*searcher, field@, term_str@, r),
{
    let id = match find_field(searcher, field) {
        Some(id) => id,
        None => {
            return Err(ViewerError::FieldNotFound);
        },
    };
    assert(field_named(snapshot_schema(*searcher), field@, id as int));
    let ty = field_value_type(searcher, id);
    let key = match encode_term_text(term_str, ty) {
        Ok(key) => key,
        Err(e) => {
            return Err(e);
        },
    };
    if let Indexing::NotIndexed = field_indexing(searcher, id) {
        return Err(ViewerError::UnsupportedFieldAccess);
    }
    let n = segment_count(searcher);
    let mut hits: Vec<(SegmentId, DocId)> = Vec::new();
    let mut s: usize = 0;
    while s < n
        invariant
            n == snapshot_segments(*searcher).len(),
            s <= n,
            field_named(snapshot_schema(*searcher), field@, id as int),
            forall|other: int| #[trigger]
                field_named(snapshot_schema(*searcher), field@, other) ==> other == id,
            snapshot_schema(*searcher)[id as int].indexing != Indexing::NotIndexed,
            textual(snapshot_schema(*searcher)[id as int].value_type),
            key_of_text(term_str@, snapshot_schema(*searcher)[id as int].value_type) == Some(key@),
            hits@ == hits_upto(*searcher, id as int, key@, s as int),
            forall|t: int|
                0 <= t < s ==> terms_sorted(#[trigger] segment_terms(*searcher, t, id as int)),
        decreases n - s,
    {
        let ghost terms = segment_terms(*searcher, s as int, id as int);
        let ghost before = hits@;
        let reader = match inverted_index(searcher, s, id) {
            Ok(reader) => reader,
            Err(e) => {
                return Err(ViewerError::Storage(e));
            },
        };
        let uuid = segment_uuid(searcher, s);
        let found = match lookup_postings(&reader, id, key.as_slice()) {
            Ok(found) => found,
            Err(e) => {
                return Err(ViewerError::Storage(e));
            },
        };
        match found {
            Some(postings) => {
                let mut postings = postings;
                proof {
                    let i = choose|i: int|
                        0 <= i < terms.len() && (#[trigger] terms[i]).key == key@ && posting_docs(
                            postings_list(postings),
                        ) == posting_docs(terms[i].postings);
                    lemma_docs_at(terms, i);
                }
                match parse_segment_id(uuid.as_str()) {
                    Some(segment) => {
                        collect_docs(&mut postings, segment, &mut hits);
                    },
                    None => {},
                }
            },
            None => {
                proof {
                    assert(docs_of_key(terms, key@) =~= Seq::<u32>::empty());
                    assert(hits@ =~= before + tagged(
                        segment_id_of(snapshot_segments(*searcher)[s as int].uuid),
                        docs_of_key(terms, key@),
                    ));
                }
            },
        }
        s = s + 1;
    }
    Ok(hits)
}

/// The documents of an index that contain a term, given as text, in the
/// snapshot that a new reader on the index shows.
pub fn term_docs(index: &tantivy::Index, field: &str, term_str: &str) -> (r: Result<
    Vec<(SegmentId, DocId)>,
    ViewerError,
>)
    ensures
        (r matches Err(ViewerError::FieldNotFound)) <==> !index_field_names(*index).contains(
            field@,
        ),
        index_field_names(*index).contains(field@) ==> ((r matches Err(ViewerError::Storage(_)))
            || exists|searcher: tantivy::Searcher|
            shows_index(searcher, *index) && term_docs_outcome(searcher, field@, term_str@, r)),
{
    if !index_has_field(index, field) {
        return Err(ViewerError::FieldNotFound);
    }
    let reader = match index_reader(index) {
        Ok(reader) => reader,
        Err(e) => {
            return Err(ViewerError::Storage(e));
        },
    };
    let searcher = reader_searcher(&reader);
    let r = term_docs_in(&searcher, field, term_str);
    proof {
        assert(shows_index(searcher, *index) && term_docs_outcome(searcher, field@, term_str@, r));
        lemma_known_field(searcher, *index, field@);
    }
    r
}

} // verus!
