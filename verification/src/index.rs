//! The index as the library sees it.
//!
//! A `Searcher` is one immutable snapshot of an index: a schema, and a list
//! of segments that each hold, per field, a sorted term dictionary with
//! postings, and columnar values. This module gives that content names that
//! contracts can speak of, and holds every call that reads it. Nothing here
//! is proved: each function states what tantivy's documentation and source
//! say of the call it makes.

use std::sync::Arc;
use vstd::prelude::*;
use crate::bytes::lex_lt;
use crate::value::ValueType;

verus! {

#[verifier::external_type_specification]
#[verifier::external_body]
pub struct ExIndex(tantivy::Index);

#[verifier::external_type_specification]
#[verifier::external_body]
pub struct ExIndexReader(tantivy::IndexReader);

#[verifier::external_type_specification]
#[verifier::external_body]
pub struct ExSearcher(tantivy::Searcher);

#[verifier::external_type_specification]
#[verifier::external_body]
pub struct ExInvertedIndexReader(tantivy::InvertedIndexReader);

#[verifier::external_type_specification]
#[verifier::external_body]
pub struct ExSegmentPostings(tantivy::postings::SegmentPostings);

/// A cursor over the terms of one dictionary, in key order.
///
/// It holds tantivy's `TermStreamer`, whose type is generic over an automaton
/// trait and cannot be declared to the verifier as it stands.
#[verifier::external_body]
pub struct TermCursor<'a> {
    inner: tantivy::termdict::TermStreamer<'a>,
}

/// The document id that a postings cursor shows once it has passed its last
/// document: tantivy's `TERMINATED`. No document has this id or a larger one.
pub const TERMINATED: u32 = 0x7fff_ffff;

/// How much of a term's occurrences the index records for a field.
#[derive(Clone, Copy, Debug, PartialEq, Eq, Structural)]
pub enum Indexing {
    /// The field is not indexed.
    NotIndexed,
    /// Only the documents of each term.
    Basic,
    /// The documents, and how often the term occurs in each.
    WithFreqs,
    /// The documents, the frequencies, and the position of each occurrence.
    WithFreqsAndPositions,
}

/// What the schema says of one field.
pub struct FieldSpec {
    pub name: Seq<char>,
    pub value_type: ValueType,
    pub indexing: Indexing,
    pub fast: bool,
}

/// One document in the postings list of a term.
pub struct Posting {
    /// The document.
    pub doc: u32,
    /// How often the term occurs in the document; 1 where the field records
    /// no frequencies.
    pub term_freq: u32,
    /// The token positions at which the term occurs in the document; empty
    /// where the field records no positions.
    pub positions: Seq<u32>,
}

/// One term of a field's dictionary in one segment.
pub struct TermEntry {
    /// The dictionary key.
    pub key: Seq<u8>,
    /// The number of documents that the dictionary records for the term.
    pub doc_freq: u32,
    /// The postings list of the term.
    pub postings: Seq<Posting>,
}

/// One segment of a snapshot.
pub struct SegmentSpec {
    /// The segment's id, as 32 hexadecimal digits.
    pub uuid: Seq<char>,
    /// One more than the largest document id of the segment.
    pub max_doc: u32,
}

/// A postings list is in order: document ids strictly ascending, all below
/// `TERMINATED`.
pub open spec fn postings_sorted(p: Seq<Posting>) -> bool {
    &&& forall|i: int, j: int| 0 <= i < j < p.len() ==> p[i].doc < p[j].doc
    &&& forall|i: int| 0 <= i < p.len() ==> (#[trigger] p[i]).doc < TERMINATED
}

/// A dictionary is in order: keys strictly ascending, and each postings list
/// in order.
pub open spec fn terms_sorted(t: Seq<TermEntry>) -> bool {
    &&& forall|i: int, j: int| 0 <= i < j < t.len() ==> lex_lt(t[i].key, t[j].key)
    &&& forall|i: int| 0 <= i < t.len() ==> postings_sorted((#[trigger] t[i]).postings)
}

/// The document ids of a postings list.
pub open spec fn posting_docs(p: Seq<Posting>) -> Seq<u32> {
    Seq::new(p.len(), |i: int| p[i].doc)
}

/// The names of the fields of an index's schema, by field id.
pub uninterp spec fn index_field_names(index: tantivy::Index) -> Seq<Seq<char>>;

/// The names of the fields of the schema of the index that a reader reads,
/// by field id.
pub uninterp spec fn reader_field_names(reader: tantivy::IndexReader) -> Seq<Seq<char>>;

/// The fields of a snapshot's schema, by field id.
pub uninterp spec fn snapshot_schema(searcher: tantivy::Searcher) -> Seq<FieldSpec>;

/// The segments of a snapshot, in the order in which the snapshot lists them.
pub uninterp spec fn snapshot_segments(searcher: tantivy::Searcher) -> Seq<SegmentSpec>;

/// The dictionary of field `field` in segment `seg` of a snapshot, with the
/// postings of each term; empty where the field is not indexed.
pub uninterp spec fn segment_terms(searcher: tantivy::Searcher, seg: int, field: int) -> Seq<
    TermEntry,
>;

/// The unsigned values that the column of field `field` holds for document
/// `doc` of segment `seg`, in storage order.
pub uninterp spec fn segment_fast_u64(
    searcher: tantivy::Searcher,
    seg: int,
    field: Seq<char>,
    doc: u32,
) -> Seq<u64>;

/// The signed values that the column of field `field` holds for document
/// `doc` of segment `seg`, in storage order.
pub uninterp spec fn segment_fast_i64(
    searcher: tantivy::Searcher,
    seg: int,
    field: Seq<char>,
    doc: u32,
) -> Seq<i64>;

/// The ordinals of the byte strings that the bytes column of field `field`
/// holds for document `doc` of segment `seg`, in storage order; none where
/// the segment has no such column.
pub uninterp spec fn segment_bytes_ords(
    searcher: tantivy::Searcher,
    seg: int,
    field: Seq<char>,
    doc: u32,
) -> Seq<u64>;

/// The byte string with ordinal `ord` in the bytes column of field `field`
/// of segment `seg`, where the column has that ordinal.
pub uninterp spec fn segment_bytes_term(
    searcher: tantivy::Searcher,
    seg: int,
    field: Seq<char>,
    ord: u64,
) -> Option<Seq<u8>>;

/// The terms that an inverted index reader reads, in key order.
pub uninterp spec fn reader_terms(reader: tantivy::InvertedIndexReader) -> Seq<TermEntry>;

/// The terms that a cursor walks, in key order.
pub uninterp spec fn cursor_terms(cursor: TermCursor<'_>) -> Seq<TermEntry>;

/// The place of a cursor among its terms: -1 before the first, the length
/// once it has passed the last.
pub uninterp spec fn cursor_pos(cursor: TermCursor<'_>) -> int;

/// The postings that a postings cursor walks.
pub uninterp spec fn postings_list(postings: tantivy::postings::SegmentPostings) -> Seq<Posting>;

/// The place of a postings cursor in its list: the length once it has passed
/// the last document.
pub uninterp spec fn postings_pos(postings: tantivy::postings::SegmentPostings) -> int;

/// The document that a postings cursor shows.
pub open spec fn current_doc(postings: tantivy::postings::SegmentPostings) -> u32 {
    if 0 <= postings_pos(postings) < postings_list(postings).len() {
        postings_list(postings)[postings_pos(postings)].doc
    } else {
        TERMINATED
    }
}

/// The term on which a cursor stands.
pub open spec fn current_term(cursor: TermCursor<'_>) -> TermEntry {
    cursor_terms(cursor)[cursor_pos(cursor)]
}

/// Whether a cursor stands on a term.
pub open spec fn on_term(cursor: TermCursor<'_>) -> bool {
    0 <= cursor_pos(cursor) < cursor_terms(cursor).len()
}

/// The names of the fields of a schema, by field id.
pub open spec fn schema_names(schema: Seq<FieldSpec>) -> Seq<Seq<char>> {
    Seq::new(schema.len(), |i: int| schema[i].name)
}

/// The snapshot is one of the index: its schema has the fields of the
/// index's schema, under the same ids.
pub open spec fn shows_index(searcher: tantivy::Searcher, index: tantivy::Index) -> bool {
    schema_names(snapshot_schema(searcher)) == index_field_names(index)
}

/// A field of the index is a field of each of its snapshots.
pub proof fn lemma_known_field(searcher: tantivy::Searcher, index: tantivy::Index, name: Seq<char>)
    requires
        shows_index(searcher, index),
        index_field_names(index).contains(name),
    ensures
        exists|id: int| field_named(snapshot_schema(searcher), name, id),
{
    let names = index_field_names(index);
    let i = choose|i: int| 0 <= i < names.len() && names[i] == name;
    assert(schema_names(snapshot_schema(searcher))[i] == name);
    assert(field_named(snapshot_schema(searcher), name, i));
}

/// The id of the field named `name`, if the schema has one.
pub open spec fn field_named(schema: Seq<FieldSpec>, name: Seq<char>, id: int) -> bool {
    0 <= id < schema.len() && schema[id].name == name
}

/// `Schema::get_field` on the schema of an index (`Index::schema`): whether
/// the schema has a field of that name.
#[verifier::external_body]
pub(crate) fn index_has_field(index: &tantivy::Index, name: &str) -> (r: bool)
    ensures
        r == index_field_names(*index).contains(name@),
{
    index.schema().get_field(name).is_ok()
}

/// `Index::reader`: a reader on the index. It may fail, and nothing is said
/// of which segments the reader will show. The reader keeps a copy of the
/// index, so the schema that it reads is the schema of the index.
#[verifier::external_body]
pub(crate) fn index_reader(index: &tantivy::Index) -> (r: Result<
    tantivy::IndexReader,
    tantivy::TantivyError,
>)
    ensures
        r matches Ok(reader) ==> reader_field_names(reader) == index_field_names(*index),
{
    index.reader()
}

/// `IndexReader::searcher`: the snapshot that the reader currently shows.
/// A reader makes each snapshot with the schema of its index.
#[verifier::external_body]
pub(crate) fn reader_searcher(reader: &tantivy::IndexReader) -> (r: tantivy::Searcher)
    ensures
        schema_names(snapshot_schema(r)) == reader_field_names(*reader),
{
    reader.searcher()
}

/// `Schema::get_field` on the schema of a snapshot (`Searcher::schema`): the
/// id of the field of that name, `None` where the schema has none. A schema
/// has no two fields of one name.
#[verifier::external_body]
pub(crate) fn find_field(searcher: &tantivy::Searcher, name: &str) -> (r: Option<u32>)
    ensures
        r matches Some(id) ==> forall|other: int|
            field_named(snapshot_schema(*searcher), name@, other) <==> other == id,
        r is None ==> forall|id: int| !field_named(snapshot_schema(*searcher), name@, id),
{
    searcher.schema().get_field(name).ok().map(|f| f.field_id())
}

/// `Schema::num_fields` on the schema of a snapshot: the number of fields.
#[verifier::external_body]
pub(crate) fn field_count(searcher: &tantivy::Searcher) -> (n: usize)
    ensures
        n == snapshot_schema(*searcher).len(),
{
    searcher.schema().num_fields()
}

/// `Schema::get_field_name` on the schema of a snapshot: the name of a field
/// (the call panics on an id that the schema lacks).
#[verifier::external_body]
pub(crate) fn field_name(searcher: &tantivy::Searcher, field: u32) -> (r: String)
    requires
        field < snapshot_schema(*searcher).len(),
    ensures
        r@ == snapshot_schema(*searcher)[field as int].name,
{
    searcher.schema().get_field_name(tantivy::schema::Field::from_field_id(field)).to_string()
}

/// `FieldType::value_type` of a field's entry in the snapshot's schema
/// (`Schema::get_field_entry`, which panics on an id the schema lacks).
#[verifier::external_body]
pub(crate) fn field_value_type(searcher: &tantivy::Searcher, field: u32) -> (r: ValueType)
    requires
        field < snapshot_schema(*searcher).len(),
    ensures
        r == snapshot_schema(*searcher)[field as int].value_type,
{
    let entry = searcher.schema().get_field_entry(tantivy::schema::Field::from_field_id(field));
    match entry.field_type().value_type() {
        tantivy::schema::Type::Str => ValueType::Str,
        tantivy::schema::Type::U64 => ValueType::U64,
        tantivy::schema::Type::I64 => ValueType::I64,
        tantivy::schema::Type::F64 => ValueType::F64,
        tantivy::schema::Type::Bool => ValueType::Bool,
        tantivy::schema::Type::Date => ValueType::Date,
        tantivy::schema::Type::Facet => ValueType::Facet,
        tantivy::schema::Type::Bytes => ValueType::Bytes,
        tantivy::schema::Type::Json => ValueType::Json,
        tantivy::schema::Type::IpAddr => ValueType::IpAddr,
    }
}

/// `FieldType::get_index_record_option` of a field's entry in the snapshot's
/// schema: what the index records for the field, `NotIndexed` where the
/// option is `None`.
#[verifier::external_body]
pub(crate) fn field_indexing(searcher: &tantivy::Searcher, field: u32) -> (r: Indexing)
    requires
        field < snapshot_schema(*searcher).len(),
    ensures
        r == snapshot_schema(*searcher)[field as int].indexing,
{
    let entry = searcher.schema().get_field_entry(tantivy::schema::Field::from_field_id(field));
    match entry.field_type().get_index_record_option() {
        None => Indexing::NotIndexed,
        Some(tantivy::schema::IndexRecordOption::Basic) => Indexing::Basic,
        Some(tantivy::schema::IndexRecordOption::WithFreqs) => Indexing::WithFreqs,
        Some(tantivy::schema::IndexRecordOption::WithFreqsAndPositions) => {
            Indexing::WithFreqsAndPositions
        },
    }
}

/// `FieldEntry::is_fast` of a field's entry in the snapshot's schema: whether
/// the field has columnar storage.
#[verifier::external_body]
pub(crate) fn field_is_fast(searcher: &tantivy::Searcher, field: u32) -> (r: bool)
    requires
        field < snapshot_schema(*searcher).len(),
    ensures
        r == snapshot_schema(*searcher)[field as int].fast,
{
    searcher.schema().get_field_entry(tantivy::schema::Field::from_field_id(field)).is_fast()
}

/// `Searcher::segment_readers`, its length: the number of segments.
#[verifier::external_body]
pub(crate) fn segment_count(searcher: &tantivy::Searcher) -> (n: usize)
    ensures
        n == snapshot_segments(*searcher).len(),
{
    searcher.segment_readers().len()
}

/// `SegmentId::uuid_string` of a segment's id (`SegmentReader::segment_id`):
/// the id as 32 hexadecimal digits, which denote a segment id.
#[verifier::external_body]
pub(crate) fn segment_uuid(searcher: &tantivy::Searcher, seg: usize) -> (r: String)
    requires
        seg < snapshot_segments(*searcher).len(),
    ensures
        r@ == snapshot_segments(*searcher)[seg as int].uuid,
        crate::segment::segment_id_of(r@) is Some,
{
    searcher.segment_readers()[seg].segment_id().uuid_string()
}

/// `SegmentReader::max_doc`: one more than the segment's largest document id.
#[verifier::external_body]
pub(crate) fn segment_max_doc(searcher: &tantivy::Searcher, seg: usize) -> (r: u32)
    requires
        seg < snapshot_segments(*searcher).len(),
    ensures
        r == snapshot_segments(*searcher)[seg as int].max_doc,
{
    searcher.segment_readers()[seg].max_doc()
}

/// `SegmentReader::inverted_index`: a reader on the dictionary and postings
/// of one field in one segment. It may fail; a reader that comes back reads
/// that field's terms. A dictionary is a sorted map, so the keys are strictly
/// ascending, and a postings list holds its documents in ascending order,
/// all below `TERMINATED`. The call panics on a field id that the schema
/// lacks.
#[verifier::external_body]
pub(crate) fn inverted_index(searcher: &tantivy::Searcher, seg: usize, field: u32) -> (r: Result<
    Arc<tantivy::InvertedIndexReader>,
    tantivy::TantivyError,
>)
    requires
        seg < snapshot_segments(*searcher).len(),
        field < snapshot_schema(*searcher).len(),
    ensures
        r matches Ok(reader) ==> reader_terms(*reader) == segment_terms(
            *searcher,
            seg as int,
            field as int,
        ) && terms_sorted(reader_terms(*reader)),
{
    searcher.segment_readers()[seg].inverted_index(tantivy::schema::Field::from_field_id(field))
}

/// `TermDictionary::stream` on a reader's dictionary
/// (`InvertedIndexReader::terms`): a cursor over all its terms, placed before
/// the first. It may fail.
#[verifier::external_body]
pub(crate) fn open_cursor<'a>(reader: &'a tantivy::InvertedIndexReader) -> (r: Result<
    TermCursor<'a>,
    tantivy::TantivyError,
>)
    ensures
        r matches Ok(cursor) ==> cursor_terms(cursor) == reader_terms(*reader) && cursor_pos(
            cursor,
        ) == -1,
{
    match reader.terms().stream() {
        Ok(inner) => Ok(TermCursor { inner }),
        Err(e) => Err(tantivy::TantivyError::from(e)),
    }
}

/// `TermStreamer::advance`: moves the cursor to the next term and says
/// whether there was one.
#[verifier::external_body]
pub(crate) fn cursor_advance(cursor: &mut TermCursor<'_>) -> (r: bool)
    requires
        -1 <= cursor_pos(*old(cursor)) < cursor_terms(*old(cursor)).len(),
    ensures
        cursor_terms(*final(cursor)) == cursor_terms(*old(cursor)),
        cursor_pos(*final(cursor)) == cursor_pos(*old(cursor)) + 1,
        r == on_term(*final(cursor)),
{
    cursor.inner.advance()
}

/// `TermStreamer::key`: the key of the term on which the cursor stands.
#[verifier::external_body]
pub(crate) fn cursor_key<'a>(cursor: &'a TermCursor<'_>) -> (r: &'a [u8])
    requires
        on_term(*cursor),
    ensures
        r@ == current_term(*cursor).key,
{
    cursor.inner.key()
}

/// `TermStreamer::value`, its field `doc_freq`: the number of documents that
/// the dictionary records for the term on which the cursor stands.
#[verifier::external_body]
pub(crate) fn cursor_doc_freq(cursor: &TermCursor<'_>) -> (r: u32)
    requires
        on_term(*cursor),
    ensures
        r == current_term(*cursor).doc_freq,
{
    cursor.inner.value().doc_freq
}

/// `InvertedIndexReader::read_postings_from_terminfo` for the term on which
/// a cursor of that reader stands, asking for frequencies and positions: a
/// postings cursor on the term's list, placed on its first document. It may
/// fail.
#[verifier::external_body]
pub(crate) fn open_postings(
    reader: &tantivy::InvertedIndexReader,
    cursor: &TermCursor<'_>,
) -> (r: Result<tantivy::postings::SegmentPostings, tantivy::TantivyError>)
    requires
        cursor_terms(*cursor) == reader_terms(*reader),
        on_term(*cursor),
    ensures
        r matches Ok(p) ==> postings_list(p) == current_term(*cursor).postings && postings_pos(p)
            == 0,
{
    match reader.read_postings_from_terminfo(
        cursor.inner.value(),
        tantivy::schema::IndexRecordOption::WithFreqsAndPositions,
    ) {
        Ok(p) => Ok(p),
        Err(e) => Err(tantivy::TantivyError::from(e)),
    }
}

/// `InvertedIndexReader::read_postings` for the term whose key is `key`
/// (`Term::from_field_bytes`), asking for documents only: `None` where the
/// dictionary lacks the key, else a postings cursor that walks the documents
/// of that term, placed on the first. It may fail.
#[verifier::external_body]
pub(crate) fn lookup_postings(
    reader: &tantivy::InvertedIndexReader,
    field: u32,
    key: &[u8],
) -> (r: Result<Option<tantivy::postings::SegmentPostings>, tantivy::TantivyError>)
    ensures
        r matches Ok(None) ==> forall|i: int|
            0 <= i < reader_terms(*reader).len() ==> (#[trigger] reader_terms(*reader)[i]).key
                != key@,
        r matches Ok(Some(p)) ==> postings_pos(p) == 0 && postings_sorted(postings_list(p))
            && exists|i: int|
            0 <= i < reader_terms(*reader).len() && (#[trigger] reader_terms(*reader)[i]).key
                == key@ && posting_docs(postings_list(p)) == posting_docs(
                reader_terms(*reader)[i].postings,
            ),
{
    let term = tantivy::Term::from_field_bytes(tantivy::schema::Field::from_field_id(field), key);
    match reader.read_postings(&term, tantivy::schema::IndexRecordOption::Basic) {
        Ok(p) => Ok(p),
        Err(e) => Err(tantivy::TantivyError::from(e)),
    }
}

/// `DocSet::doc` of a postings cursor: the document it shows, `TERMINATED`
/// once it has passed the last.
#[verifier::external_body]
pub(crate) fn postings_doc(postings: &tantivy::postings::SegmentPostings) -> (r: u32)
    requires
        0 <= postings_pos(*postings) <= postings_list(*postings).len(),
    ensures
        r == current_doc(*postings),
{
    tantivy::DocSet::doc(postings)
}

/// `DocSet::seek` of a postings cursor: moves forward to the first document
/// that is `target` or larger and returns it, or `TERMINATED` where there is
/// none. The cursor must not stand past `target` already.
#[verifier::external_body]
pub(crate) fn postings_seek(postings: &mut tantivy::postings::SegmentPostings, target: u32) -> (r:
    u32)
    requires
        postings_sorted(postings_list(*old(postings))),
        0 <= postings_pos(*old(postings)) <= postings_list(*old(postings)).len(),
        current_doc(*old(postings)) <= target <= TERMINATED,
    ensures
        postings_list(*final(postings)) == postings_list(*old(postings)),
        postings_pos(*old(postings)) <= postings_pos(*final(postings)) <= postings_list(
            *final(postings),
        ).len(),
        forall|i: int|
            0 <= i < postings_pos(*final(postings)) ==> (#[trigger] postings_list(
                *final(postings),
            )[i]).doc < target,
        current_doc(*final(postings)) >= target,
        r == current_doc(*final(postings)),
{
    tantivy::DocSet::seek(postings, target)
}

/// `DocSet::advance` of a postings cursor: moves to the next document and
/// returns it, or `TERMINATED` where there is none.
#[verifier::external_body]
pub(crate) fn postings_advance(postings: &mut tantivy::postings::SegmentPostings) -> (r: u32)
    requires
        0 <= postings_pos(*old(postings)) < postings_list(*old(postings)).len(),
    ensures
        postings_list(*final(postings)) == postings_list(*old(postings)),
        postings_pos(*final(postings)) == postings_pos(*old(postings)) + 1,
        r == current_doc(*final(postings)),
{
    tantivy::DocSet::advance(postings)
}

/// `Postings::term_freq` of a postings cursor: how often the term occurs in
/// the document it shows.
#[verifier::external_body]
pub(crate) fn postings_term_freq(postings: &tantivy::postings::SegmentPostings) -> (r: u32)
    requires
        0 <= postings_pos(*postings) < postings_list(*postings).len(),
    ensures
        r == postings_list(*postings)[postings_pos(*postings)].term_freq,
{
    tantivy::Postings::term_freq(postings)
}

/// `Postings::positions` of a postings cursor: overwrites `out` with the
/// positions at which the term occurs in the document it shows. The cursor
/// stays where it is.
#[verifier::external_body]
pub(crate) fn postings_positions(
    postings: &mut tantivy::postings::SegmentPostings,
    out: &mut Vec<u32>,
)
    requires
        0 <= postings_pos(*old(postings)) < postings_list(*old(postings)).len(),
    ensures
        postings_list(*final(postings)) == postings_list(*old(postings)),
        postings_pos(*final(postings)) == postings_pos(*old(postings)),
        final(out)@ == postings_list(*old(postings))[postings_pos(*old(postings))].positions,
{
    tantivy::Postings::positions(postings, out)
}

/// `Column::values_for_doc` on the `u64` column of a field
/// (`FastFieldReaders::u64`): the values of one document, in storage order.
/// Opening the column may fail.
#[verifier::external_body]
pub(crate) fn fast_u64_values(searcher: &tantivy::Searcher, seg: usize, field: &str, doc: u32) -> (r:
    Result<Vec<u64>, tantivy::TantivyError>)
    requires
        seg < snapshot_segments(*searcher).len(),
        doc < snapshot_segments(*searcher)[seg as int].max_doc,
    ensures
        r matches Ok(values) ==> values@ == segment_fast_u64(*searcher, seg as int, field@, doc),
{
    let column = searcher.segment_readers()[seg].fast_fields().u64(field)?;
    Ok(column.values_for_doc(doc).collect())
}

/// `Column::values_for_doc` on the `i64` column of a field
/// (`FastFieldReaders::i64`): the values of one document, in storage order.
/// Opening the column may fail.
#[verifier::external_body]
pub(crate) fn fast_i64_values(searcher: &tantivy::Searcher, seg: usize, field: &str, doc: u32) -> (r:
    Result<Vec<i64>, tantivy::TantivyError>)
    requires
        seg < snapshot_segments(*searcher).len(),
        doc < snapshot_segments(*searcher)[seg as int].max_doc,
    ensures
        r matches Ok(values) ==> values@ == segment_fast_i64(*searcher, seg as int, field@, doc),
{
    let column = searcher.segment_readers()[seg].fast_fields().i64(field)?;
    Ok(column.values_for_doc(doc).collect())
}

/// `BytesColumn::term_ords` on the bytes column of a field
/// (`FastFieldReaders::bytes`): the ordinals of the byte strings of one
/// document, in storage order; none where the segment has no such column.
/// Opening the column may fail.
#[verifier::external_body]
pub(crate) fn fast_bytes_ords(searcher: &tantivy::Searcher, seg: usize, field: &str, doc: u32) -> (r:
    Result<Vec<u64>, tantivy::TantivyError>)
    requires
        seg < snapshot_segments(*searcher).len(),
        doc < snapshot_segments(*searcher)[seg as int].max_doc,
    ensures
        r matches Ok(ords) ==> ords@ == segment_bytes_ords(*searcher, seg as int, field@, doc),
{
    match searcher.segment_readers()[seg].fast_fields().bytes(field)? {
        Some(column) => Ok(column.term_ords(doc).collect()),
        None => Ok(Vec::new()),
    }
}

/// `BytesColumn::ord_to_bytes` on the bytes column of a field
/// (`FastFieldReaders::bytes`): the byte string with the given ordinal,
/// `None` where the column has no such ordinal or the segment no such
/// column. Opening the column and reading from it may fail.
#[verifier::external_body]
pub(crate) fn fast_bytes_term(searcher: &tantivy::Searcher, seg: usize, field: &str, ord: u64) -> (r:
    Result<Option<Vec<u8>>, tantivy::TantivyError>)
    requires
        seg < snapshot_segments(*searcher).len(),
    ensures
        r matches Ok(Some(bytes)) ==> segment_bytes_term(*searcher, seg as int, field@, ord)
            == Some(bytes@),
        r matches Ok(None) ==> segment_bytes_term(*searcher, seg as int, field@, ord) is None,
{
    let mut bytes: Vec<u8> = Vec::new();
    match searcher.segment_readers()[seg].fast_fields().bytes(field)? {
        Some(column) => Ok(if column.ord_to_bytes(ord, &mut bytes)? { Some(bytes) } else { None }),
        None => Ok(None),
    }
}

} // verus!
