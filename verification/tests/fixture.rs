use std::collections::HashMap;

use tantivy::directory::Directory;
use tantivy::schema::{
    IndexRecordOption, NumericOptions, Schema, TextFieldIndexing, TextOptions,
};
use tantivy::{Index, IndexWriter, TantivyDocument};
use tantivy_viewer::{
    find_segment, parse_segment_id, reconstruct, reconstruct_one, stringify_values, term_docs,
    top_terms, SegmentId, TantivyValue, TermCount, ViewerError,
};

fn text(s: &str) -> TantivyValue {
    TantivyValue::Text(s.to_string())
}

fn body_options(option: IndexRecordOption) -> TextOptions {
    TextOptions::default().set_indexing_options(
        TextFieldIndexing::default()
            .set_tokenizer("whitespace")
            .set_index_option(option),
    )
}

fn schema(option: IndexRecordOption) -> Schema {
    let mut builder = Schema::builder();
    builder.add_i64_field("id", NumericOptions::default().set_fast());
    builder.add_text_field("body", body_options(option));
    builder.add_u64_field("rank", NumericOptions::default().set_indexed());
    builder.add_text_field("note", TextOptions::default().set_stored());
    builder.build()
}

fn add(writer: &mut IndexWriter, schema: &Schema, id: i64, body: &str) {
    let mut doc = TantivyDocument::default();
    doc.add_i64(schema.get_field("id").unwrap(), id);
    doc.add_text(schema.get_field("body").unwrap(), body);
    doc.add_u64(schema.get_field("rank").unwrap(), (id as u64) % 2 + 10);
    doc.add_text(schema.get_field("note").unwrap(), "kept");
    writer.add_document(doc).unwrap();
}

fn build(option: IndexRecordOption, commits: &[&[(i64, &str)]]) -> Index {
    let schema = schema(option);
    let index = Index::create_in_ram(schema.clone());
    let mut writer: IndexWriter = index.writer_with_num_threads(1, 50_000_000).unwrap();
    writer.set_merge_policy(Box::new(tantivy::merge_policy::NoMergePolicy));
    for docs in commits {
        for (id, body) in docs.iter() {
            add(&mut writer, &schema, *id, body);
        }
        writer.commit().unwrap();
    }
    index
}

fn one_segment() -> Index {
    build(
        IndexRecordOption::WithFreqsAndPositions,
        &[&[(1, "A B C"), (2, "B C"), (3, "C")]],
    )
}

fn two_segments() -> Index {
    build(
        IndexRecordOption::WithFreqsAndPositions,
        &[&[(1, "A B C"), (2, "B C")], &[(3, "C")]],
    )
}

fn segments(index: &Index) -> Vec<SegmentId> {
    index
        .searchable_segment_ids()
        .unwrap()
        .into_iter()
        .map(|id| parse_segment_id(&id.uuid_string()).unwrap())
        .collect()
}

fn counts(index: &Index, field: &str, k: usize) -> Vec<(TantivyValue, i64)> {
    top_terms(index, field, k)
        .unwrap()
        .terms
        .into_iter()
        .map(|TermCount { count, term }| (term, count))
        .collect()
}

#[test]
fn fixture_reconstructs_body_of_first_document() {
    let index = one_segment();
    let segment = segments(&index)[0];
    let content = reconstruct_one(&index, "body", segment, 0).unwrap();
    assert_eq!(content, vec![Some(text("A")), Some(text("B")), Some(text("C"))]);
}

#[test]
fn fixture_top_terms_of_body() {
    let index = one_segment();
    assert_eq!(
        counts(&index, "body", 10),
        vec![(text("C"), 3), (text("B"), 2), (text("A"), 1)]
    );
}

#[test]
fn fixture_reconstructs_id_of_second_document() {
    let index = one_segment();
    let segment = segments(&index)[0];
    let content = reconstruct_one(&index, "id", segment, 1).unwrap();
    assert_eq!(content, vec![Some(TantivyValue::I64(2))]);
}

#[test]
fn two_commits_give_the_counts_of_one() {
    let one = one_segment();
    let two = two_segments();
    assert_eq!(segments(&two).len(), 2);
    for k in 0..5 {
        assert_eq!(counts(&one, "body", k), counts(&two, "body", k));
    }
}

#[test]
fn top_terms_keeps_at_most_k_in_rank_order() {
    let index = two_segments();
    assert_eq!(counts(&index, "body", 1), vec![(text("C"), 3)]);
    assert_eq!(counts(&index, "body", 2), vec![(text("C"), 3), (text("B"), 2)]);
    assert_eq!(counts(&index, "body", 3).len(), 3);
    assert_eq!(counts(&index, "body", 100).len(), 3);
}

#[test]
fn equal_counts_rank_by_ascending_term() {
    let index = build(
        IndexRecordOption::WithFreqsAndPositions,
        &[&[(1, "pear fig"), (2, "kiwi")], &[(3, "apple fig")]],
    );
    assert_eq!(
        counts(&index, "body", 10),
        vec![(text("fig"), 2), (text("apple"), 1), (text("kiwi"), 1), (text("pear"), 1)]
    );
    assert_eq!(counts(&index, "body", 2), vec![(text("fig"), 2), (text("apple"), 1)]);
}

#[test]
fn full_enumeration_sums_to_the_scan_total() {
    let index = two_segments();
    let all = counts(&index, "body", 3);
    let sum: i64 = all.iter().map(|(_, count)| *count).sum();
    // "A B C", "B C", "C": six occurrences of a term in a document
    assert_eq!(sum, 6);
}

#[test]
fn zero_k_gives_an_empty_list() {
    let index = one_segment();
    assert_eq!(counts(&index, "body", 0), vec![]);
    assert_eq!(counts(&index, "id", 0), vec![]);
}

#[test]
fn unknown_field_is_field_not_found() {
    let index = one_segment();
    let segment = segments(&index)[0];
    assert!(matches!(top_terms(&index, "nope", 3), Err(ViewerError::FieldNotFound)));
    assert!(matches!(top_terms(&index, "nope", 0), Err(ViewerError::FieldNotFound)));
    assert!(matches!(term_docs(&index, "nope", "A"), Err(ViewerError::FieldNotFound)));
    assert!(matches!(
        reconstruct_one(&index, "nope", segment, 0),
        Err(ViewerError::FieldNotFound)
    ));
    let mut request = HashMap::new();
    request.insert(segment, vec![0u32]);
    assert!(matches!(reconstruct(&index, "nope", &request), Err(ViewerError::FieldNotFound)));
}

#[test]
fn top_terms_of_a_field_without_index_is_unsupported() {
    let index = one_segment();
    assert!(matches!(top_terms(&index, "id", 3), Err(ViewerError::UnsupportedFieldAccess)));
    assert!(matches!(term_docs(&index, "id", "1"), Err(ViewerError::UnsupportedFieldAccess)));
}

#[test]
fn top_terms_of_an_integer_field_decodes_keys() {
    let index = one_segment();
    // rank is 11 for ids 1 and 3, and 10 for id 2
    assert_eq!(
        counts(&index, "rank", 10),
        vec![(TantivyValue::U64(11), 2), (TantivyValue::U64(10), 1)]
    );
}

#[test]
fn term_docs_lists_documents_by_segment() {
    let index = two_segments();
    let ids = segments(&index);
    let hits = term_docs(&index, "body", "C").unwrap();
    assert_eq!(hits.len(), 3);
    let mut expected = Vec::new();
    for (segment, docs) in index.searchable_segment_ids().unwrap().iter().zip([2u32, 1u32]) {
        for doc in 0..docs {
            expected.push((parse_segment_id(&segment.uuid_string()).unwrap(), doc));
        }
    }
    let mut sorted_hits = hits.clone();
    sorted_hits.sort();
    expected.sort();
    assert_eq!(sorted_hits, expected);
    assert_eq!(ids.len(), 2);
    assert_eq!(term_docs(&index, "body", "Z").unwrap(), vec![]);
    // a term is matched exactly, not by prefix or case
    assert_eq!(term_docs(&index, "body", "c").unwrap(), vec![]);
}

#[test]
fn term_docs_parses_integer_terms() {
    let index = one_segment();
    let segment = segments(&index)[0];
    assert_eq!(term_docs(&index, "rank", "10").unwrap(), vec![(segment, 1)]);
    assert_eq!(term_docs(&index, "rank", "+11").unwrap(), vec![(segment, 0), (segment, 2)]);
    assert!(matches!(term_docs(&index, "rank", "ten"), Err(ViewerError::InvalidTermValue)));
    assert!(matches!(term_docs(&index, "rank", "-1"), Err(ViewerError::InvalidTermValue)));
    assert!(matches!(term_docs(&index, "rank", ""), Err(ViewerError::InvalidTermValue)));
    assert!(matches!(
        term_docs(&index, "rank", "18446744073709551616"),
        Err(ViewerError::InvalidTermValue)
    ));
}

#[test]
fn reconstruct_serves_many_documents_in_one_pass() {
    let index = one_segment();
    let segment = segments(&index)[0];
    let mut request = HashMap::new();
    request.insert(segment, vec![0u32, 1, 2, 7]);
    let out = reconstruct(&index, "body", &request).unwrap();
    assert_eq!(out.len(), 1);
    let docs = &out[&segment];
    assert_eq!(docs.len(), 4);
    assert_eq!(docs[0], (0, vec![Some(text("A")), Some(text("B")), Some(text("C"))]));
    assert_eq!(docs[1], (1, vec![Some(text("B")), Some(text("C"))]));
    assert_eq!(docs[2], (2, vec![Some(text("C"))]));
    assert_eq!(docs[3], (7, vec![]));
}

#[test]
fn reconstruct_skips_documents_between_requests() {
    let index = one_segment();
    let segment = segments(&index)[0];
    let mut request = HashMap::new();
    request.insert(segment, vec![2u32]);
    let out = reconstruct(&index, "body", &request).unwrap();
    assert_eq!(out[&segment], vec![(2, vec![Some(text("C"))])]);
    let mut request = HashMap::new();
    request.insert(segment, vec![0u32, 2]);
    let out = reconstruct(&index, "body", &request).unwrap();
    assert_eq!(
        out[&segment],
        vec![
            (0, vec![Some(text("A")), Some(text("B")), Some(text("C"))]),
            (2, vec![Some(text("C"))])
        ]
    );
}

#[test]
fn reconstruct_covers_each_requested_segment() {
    let index = two_segments();
    let ids = segments(&index);
    let mut request = HashMap::new();
    request.insert(ids[0], vec![0u32]);
    request.insert(ids[1], vec![0u32]);
    request.insert(12345u128, vec![0u32]);
    let out = reconstruct(&index, "id", &request).unwrap();
    assert_eq!(out.len(), 2);
    let mut values: Vec<Vec<Option<TantivyValue>>> =
        ids.iter().map(|id| out[id][0].1.clone()).collect();
    values.sort();
    assert_eq!(
        values,
        vec![vec![Some(TantivyValue::I64(1))], vec![Some(TantivyValue::I64(3))]]
    );
}

#[test]
fn reconstruct_leaves_gaps_where_no_term_was_indexed() {
    let schema = schema(IndexRecordOption::WithFreqsAndPositions);
    let index = Index::create_in_ram(schema.clone());
    let mut writer: IndexWriter = index.writer_with_num_threads(1, 50_000_000).unwrap();
    // two values of one field: the second starts one position after a gap
    let mut doc = TantivyDocument::default();
    doc.add_text(schema.get_field("body").unwrap(), "x y");
    doc.add_text(schema.get_field("body").unwrap(), "z");
    writer.add_document(doc).unwrap();
    writer.commit().unwrap();
    let segment = segments(&index)[0];
    let content = reconstruct_one(&index, "body", segment, 0).unwrap();
    assert_eq!(content, vec![Some(text("x")), Some(text("y")), None, Some(text("z"))]);
}

#[test]
fn reconstruct_without_positions_appends_by_frequency() {
    let index = build(IndexRecordOption::WithFreqs, &[&[(1, "b a b")]]);
    let segment = segments(&index)[0];
    let content = reconstruct_one(&index, "body", segment, 0).unwrap();
    assert_eq!(content, vec![Some(text("a")), Some(text("b")), Some(text("b"))]);
    let index = build(IndexRecordOption::Basic, &[&[(1, "b a b")]]);
    let segment = segments(&index)[0];
    let content = reconstruct_one(&index, "body", segment, 0).unwrap();
    assert_eq!(content, vec![Some(text("a")), Some(text("b"))]);
}

#[test]
fn reconstruct_of_a_field_without_index_or_column_is_empty() {
    let index = one_segment();
    let segment = segments(&index)[0];
    assert_eq!(reconstruct_one(&index, "note", segment, 0).unwrap(), vec![]);
}

#[test]
fn reconstruct_one_of_an_absent_segment_is_segment_not_found() {
    let index = one_segment();
    assert!(matches!(
        reconstruct_one(&index, "body", 7u128, 0),
        Err(ViewerError::SegmentNotFound)
    ));
}

#[test]
fn find_segment_matches_by_prefix() {
    let index = one_segment();
    let full = index.searchable_segment_ids().unwrap()[0].uuid_string();
    let id = parse_segment_id(&full).unwrap();
    assert_eq!(find_segment(&index, &full[..8]).unwrap(), Some(id));
    assert_eq!(find_segment(&index, "").unwrap(), Some(id));
    assert_eq!(find_segment(&index, &full).unwrap(), Some(id));
    assert_eq!(find_segment(&index, "zz").unwrap(), None);
    let longer = format!("{}0", full);
    assert_eq!(find_segment(&index, &longer).unwrap(), None);
}

#[test]
fn stringify_follows_each_value_with_a_blank() {
    let index = one_segment();
    let segment = segments(&index)[0];
    let content = reconstruct_one(&index, "body", segment, 0).unwrap();
    assert_eq!(stringify_values(content), "A B C ");
}

#[test]
fn an_index_that_cannot_be_read_gives_a_storage_error() {
    let index = one_segment();
    let segment = segments(&index)[0];
    index.directory().delete(std::path::Path::new("meta.json")).unwrap();
    assert!(matches!(top_terms(&index, "body", 3), Err(ViewerError::Storage(_))));
    assert!(matches!(term_docs(&index, "body", "A"), Err(ViewerError::Storage(_))));
    assert!(matches!(
        reconstruct_one(&index, "body", segment, 0),
        Err(ViewerError::Storage(_))
    ));
    assert!(matches!(find_segment(&index, ""), Err(ViewerError::Storage(_))));
    // the schema is still known, and no terms are found without reading
    assert!(matches!(top_terms(&index, "nope", 3), Err(ViewerError::FieldNotFound)));
    assert_eq!(top_terms(&index, "body", 0).unwrap().terms.len(), 0);
}

#[test]
fn a_term_is_read_before_the_index_is_asked() {
    let index = one_segment();
    // the id is a signed column without index
    assert!(matches!(term_docs(&index, "id", "abc"), Err(ViewerError::InvalidTermValue)));
    assert!(matches!(term_docs(&index, "id", ""), Err(ViewerError::InvalidTermValue)));
    assert!(matches!(
        term_docs(&index, "id", "9223372036854775808"),
        Err(ViewerError::InvalidTermValue)
    ));
    assert!(matches!(term_docs(&index, "id", "-7"), Err(ViewerError::UnsupportedFieldAccess)));
    // a text is always a term of a text field
    assert_eq!(term_docs(&index, "body", "").unwrap(), vec![]);
    assert!(matches!(term_docs(&index, "note", "abc"), Err(ViewerError::UnsupportedFieldAccess)));
}

#[test]
fn a_field_without_index_or_column_is_never_an_error() {
    let index = two_segments();
    let ids = segments(&index);
    let mut request = HashMap::new();
    request.insert(ids[0], vec![0u32, 1, 500]);
    request.insert(ids[1], vec![]);
    request.insert(99u128, vec![3u32]);
    let out = reconstruct(&index, "note", &request).unwrap();
    assert_eq!(out.len(), 2);
    assert_eq!(out[&ids[0]], vec![(0, vec![]), (1, vec![]), (500, vec![])]);
    assert_eq!(out[&ids[1]], vec![]);
    assert_eq!(reconstruct_one(&index, "note", ids[1], 0).unwrap(), vec![]);
    assert!(matches!(
        reconstruct_one(&index, "note", 99u128, 0),
        Err(ViewerError::SegmentNotFound)
    ));
    assert!(matches!(
        reconstruct_one(&index, "id", 99u128, 0),
        Err(ViewerError::SegmentNotFound)
    ));
    // a request that names no segment of the index reads nothing
    let mut elsewhere = HashMap::new();
    elsewhere.insert(99u128, vec![0u32]);
    assert_eq!(reconstruct(&index, "body", &elsewhere).unwrap().len(), 0);
}
