use std::collections::HashMap;

use tantivy::schema::{
    BytesOptions, IndexRecordOption, NumericOptions, Schema, TextFieldIndexing, TextOptions,
};
use tantivy::{Index, IndexWriter, TantivyDocument};
use tantivy_viewer::fields::get_fields;
use tantivy_viewer::index::Indexing;
use tantivy_viewer::{
    parse_segment_id, reconstruct, reconstruct_one, term_docs, top_terms, SegmentId,
    TantivyValue, TermCount, ValueType, ViewerError,
};

fn schema() -> Schema {
    let mut builder = Schema::builder();
    builder.add_u64_field("score", NumericOptions::default().set_fast());
    builder.add_i64_field("delta", NumericOptions::default().set_indexed());
    builder.add_bytes_field("blob", BytesOptions::default().set_fast());
    builder.add_f64_field("weight", NumericOptions::default().set_indexed());
    builder.add_text_field(
        "tags",
        TextOptions::default().set_indexing_options(
            TextFieldIndexing::default()
                .set_tokenizer("raw")
                .set_index_option(IndexRecordOption::Basic),
        ),
    );
    builder.build()
}

fn index() -> Index {
    let schema = schema();
    let index = Index::create_in_ram(schema.clone());
    let mut writer: IndexWriter = index.writer_with_num_threads(1, 50_000_000).unwrap();
    let score = schema.get_field("score").unwrap();
    let delta = schema.get_field("delta").unwrap();
    let blob = schema.get_field("blob").unwrap();
    let weight = schema.get_field("weight").unwrap();
    let tags = schema.get_field("tags").unwrap();

    let mut doc = TantivyDocument::default();
    doc.add_u64(score, 7);
    doc.add_u64(score, 3);
    doc.add_i64(delta, -5);
    doc.add_bytes(blob, vec![1u8, 2, 3]);
    doc.add_f64(weight, 1.5);
    doc.add_text(tags, "red apple");
    writer.add_document(doc).unwrap();

    let mut doc = TantivyDocument::default();
    doc.add_i64(delta, 3);
    doc.add_text(tags, "green");
    writer.add_document(doc).unwrap();

    let mut doc = TantivyDocument::default();
    doc.add_u64(score, 42);
    doc.add_i64(delta, -5);
    doc.add_bytes(blob, vec![9u8]);
    writer.add_document(doc).unwrap();

    writer.commit().unwrap();
    index
}

fn segment(index: &Index) -> SegmentId {
    parse_segment_id(&index.searchable_segment_ids().unwrap()[0].uuid_string()).unwrap()
}

fn counts(index: &Index, field: &str, k: usize) -> Vec<(TantivyValue, i64)> {
    top_terms(index, field, k)
        .unwrap()
        .terms
        .into_iter()
        .map(|TermCount { count, term }| (term, count))
        .collect()
}

#[test]
fn an_unsigned_column_gives_its_values_in_storage_order() {
    let index = index();
    let segment = segment(&index);
    assert_eq!(
        reconstruct_one(&index, "score", segment, 0).unwrap(),
        vec![Some(TantivyValue::U64(7)), Some(TantivyValue::U64(3))]
    );
    assert_eq!(reconstruct_one(&index, "score", segment, 1).unwrap(), vec![]);
    assert_eq!(
        reconstruct_one(&index, "score", segment, 2).unwrap(),
        vec![Some(TantivyValue::U64(42))]
    );
}

#[test]
fn a_document_beyond_the_segment_has_no_content() {
    let index = index();
    let segment = segment(&index);
    assert_eq!(reconstruct_one(&index, "score", segment, 3).unwrap(), vec![]);
    assert_eq!(reconstruct_one(&index, "score", segment, u32::MAX).unwrap(), vec![]);
    assert_eq!(reconstruct_one(&index, "delta", segment, 3).unwrap(), vec![]);
    assert_eq!(reconstruct_one(&index, "delta", segment, 0x7fff_ffff).unwrap(), vec![]);
    assert_eq!(reconstruct_one(&index, "delta", segment, u32::MAX).unwrap(), vec![]);
    assert_eq!(reconstruct_one(&index, "blob", segment, 77).unwrap(), vec![]);
}

#[test]
fn a_bytes_column_gives_its_byte_strings() {
    let index = index();
    let segment = segment(&index);
    assert_eq!(
        reconstruct_one(&index, "blob", segment, 0).unwrap(),
        vec![Some(TantivyValue::Bytes(vec![1, 2, 3]))]
    );
    assert_eq!(reconstruct_one(&index, "blob", segment, 1).unwrap(), vec![]);
    assert_eq!(
        reconstruct_one(&index, "blob", segment, 2).unwrap(),
        vec![Some(TantivyValue::Bytes(vec![9]))]
    );
}

#[test]
fn an_indexed_integer_field_is_rebuilt_from_its_terms() {
    let index = index();
    let segment = segment(&index);
    let mut request = HashMap::new();
    request.insert(segment, vec![0u32, 1, 2]);
    let out = reconstruct(&index, "delta", &request).unwrap();
    assert_eq!(
        out[&segment],
        vec![
            (0, vec![Some(TantivyValue::I64(-5))]),
            (1, vec![Some(TantivyValue::I64(3))]),
            (2, vec![Some(TantivyValue::I64(-5))]),
        ]
    );
}

#[test]
fn signed_terms_rank_in_numeric_order_on_equal_counts() {
    let schema = schema();
    let index = Index::create_in_ram(schema.clone());
    let mut writer: IndexWriter = index.writer_with_num_threads(1, 50_000_000).unwrap();
    for value in [4i64, -9, 0, i64::MIN, i64::MAX, -9] {
        let mut doc = TantivyDocument::default();
        doc.add_i64(schema.get_field("delta").unwrap(), value);
        writer.add_document(doc).unwrap();
    }
    writer.commit().unwrap();
    assert_eq!(
        counts(&index, "delta", 10),
        vec![
            (TantivyValue::I64(-9), 2),
            (TantivyValue::I64(i64::MIN), 1),
            (TantivyValue::I64(0), 1),
            (TantivyValue::I64(4), 1),
            (TantivyValue::I64(i64::MAX), 1),
        ]
    );
    assert_eq!(
        counts(&index, "delta", 3),
        vec![
            (TantivyValue::I64(-9), 2),
            (TantivyValue::I64(i64::MIN), 1),
            (TantivyValue::I64(0), 1),
        ]
    );
    let segment = segment(&index);
    assert_eq!(term_docs(&index, "delta", "-9").unwrap(), vec![(segment, 1), (segment, 5)]);
    assert_eq!(
        term_docs(&index, "delta", "-9223372036854775808").unwrap(),
        vec![(segment, 3)]
    );
}

#[test]
fn a_field_of_a_type_without_codec_is_unimplemented() {
    let index = index();
    let segment = segment(&index);
    assert!(matches!(top_terms(&index, "weight", 5), Err(ViewerError::Unimplemented)));
    assert!(matches!(term_docs(&index, "weight", "1.5"), Err(ViewerError::Unimplemented)));
    assert!(matches!(
        reconstruct_one(&index, "weight", segment, 0),
        Err(ViewerError::Unimplemented)
    ));
    assert_eq!(top_terms(&index, "weight", 0).unwrap().terms.len(), 0);
}

#[test]
fn untokenized_text_is_one_term() {
    let index = index();
    let segment = segment(&index);
    assert_eq!(
        counts(&index, "tags", 5),
        vec![
            (TantivyValue::Text("green".to_string()), 1),
            (TantivyValue::Text("red apple".to_string()), 1)
        ]
    );
    assert_eq!(term_docs(&index, "tags", "red apple").unwrap(), vec![(segment, 0)]);
    assert_eq!(term_docs(&index, "tags", "red").unwrap(), vec![]);
    assert_eq!(
        reconstruct_one(&index, "tags", segment, 0).unwrap(),
        vec![Some(TantivyValue::Text("red apple".to_string()))]
    );
}

#[test]
fn the_schema_is_listed_by_field_id() {
    let index = index();
    let fields = get_fields(&index).unwrap().fields;
    let names: Vec<&str> = fields.iter().map(|f| f.name.as_str()).collect();
    assert_eq!(names, vec!["score", "delta", "blob", "weight", "tags"]);
    let types: Vec<ValueType> = fields.iter().map(|f| f.value_type).collect();
    assert_eq!(
        types,
        vec![ValueType::U64, ValueType::I64, ValueType::Bytes, ValueType::F64, ValueType::Str]
    );
    let fast: Vec<bool> = fields.iter().map(|f| f.fast).collect();
    assert_eq!(fast, vec![true, false, true, false, false]);
    let indexing: Vec<Indexing> = fields.iter().map(|f| f.indexing).collect();
    assert_eq!(
        indexing,
        vec![
            Indexing::NotIndexed,
            Indexing::Basic,
            Indexing::NotIndexed,
            Indexing::Basic,
            Indexing::Basic
        ]
    );
}

#[test]
fn the_type_of_a_field_is_looked_up_by_name() {
    let index = index();
    assert_eq!(tantivy_viewer::field_type(&index, "delta").unwrap(), ValueType::I64);
    assert_eq!(tantivy_viewer::field_type(&index, "tags").unwrap(), ValueType::Str);
    assert_eq!(tantivy_viewer::field_type(&index, "weight").unwrap(), ValueType::F64);
    assert!(matches!(
        tantivy_viewer::field_type(&index, "nope"),
        Err(ViewerError::FieldNotFound)
    ));
}
