use std::collections::{BTreeMap, HashMap};

use tantivy::schema::{
    IndexRecordOption, NumericOptions, Schema, TextFieldIndexing, TextOptions,
};
use tantivy::{Index, IndexWriter, TantivyDocument, Term};
use tantivy_viewer::{
    parse_segment_id, reconstruct, term_docs, top_terms, SegmentId, TantivyValue,
};

const WORDS: [&str; 12] = [
    "ant", "bee", "cat", "dog", "eel", "fox", "gnu", "hen", "ibis", "jay", "Kiwi", "lynx",
];

struct Lcg(u64);

impl Lcg {
    fn next(&mut self, bound: u64) -> u64 {
        self.0 = self.0.wrapping_mul(6364136223846793005).wrapping_add(1442695040888963407);
        (self.0 >> 33) % bound
    }
}

fn documents(seed: u64, n: usize) -> Vec<Vec<&'static str>> {
    let mut rng = Lcg(seed);
    (0..n)
        .map(|_| {
            let len = rng.next(9) as usize;
            (0..len)
                .map(|_| {
                    // a skewed choice, so that some words are rare
                    let a = rng.next(WORDS.len() as u64);
                    let b = rng.next(WORDS.len() as u64);
                    WORDS[a.min(b) as usize]
                })
                .collect()
        })
        .collect()
}

fn schema() -> Schema {
    let mut builder = Schema::builder();
    builder.add_u64_field("id", NumericOptions::default().set_indexed().set_fast());
    builder.add_text_field(
        "body",
        TextOptions::default().set_indexing_options(
            TextFieldIndexing::default()
                .set_tokenizer("whitespace")
                .set_index_option(IndexRecordOption::WithFreqsAndPositions),
        ),
    );
    builder.build()
}

/// The documents in commits of the given sizes; the last commit takes the rest.
fn build(docs: &[Vec<&'static str>], commits: &[usize]) -> Index {
    let schema = schema();
    let index = Index::create_in_ram(schema.clone());
    let mut writer: IndexWriter = index.writer_with_num_threads(1, 50_000_000).unwrap();
    writer.set_merge_policy(Box::new(tantivy::merge_policy::NoMergePolicy));
    let mut next: usize = 0;
    let mut sizes = commits.to_vec();
    sizes.push(usize::MAX);
    for size in sizes {
        let end = docs.len().min(next.saturating_add(size));
        if next == end {
            break;
        }
        for (i, words) in docs[next..end].iter().enumerate() {
            let mut doc = TantivyDocument::default();
            doc.add_u64(schema.get_field("id").unwrap(), (next + i) as u64);
            doc.add_text(schema.get_field("body").unwrap(), words.join(" "));
            writer.add_document(doc).unwrap();
        }
        writer.commit().unwrap();
        next = end;
    }
    index
}

fn segments(index: &Index) -> Vec<SegmentId> {
    index
        .searchable_segment_ids()
        .unwrap()
        .into_iter()
        .map(|id| parse_segment_id(&id.uuid_string()).unwrap())
        .collect()
}

/// For each segment the ids of its documents, by document number.
fn layout(index: &Index) -> HashMap<SegmentId, Vec<u64>> {
    let mut out = HashMap::new();
    for segment in segments(index) {
        let mut request = HashMap::new();
        let max_doc = index
            .reader()
            .unwrap()
            .searcher()
            .segment_readers()
            .iter()
            .find(|r| parse_segment_id(&r.segment_id().uuid_string()) == Some(segment))
            .unwrap()
            .max_doc();
        request.insert(segment, (0..max_doc).collect::<Vec<u32>>());
        // the id is indexed, so it is rebuilt from its one term
        let ids = reconstruct(index, "id", &request).unwrap();
        out.insert(
            segment,
            ids[&segment]
                .iter()
                .map(|(_, values)| match values.as_slice() {
                    [Some(TantivyValue::U64(id))] => *id,
                    other => panic!("one id for each document, not {:?}", other),
                })
                .collect(),
        );
    }
    out
}

fn expected_counts(docs: &[Vec<&'static str>]) -> Vec<(TantivyValue, i64)> {
    let mut counts: BTreeMap<&str, i64> = BTreeMap::new();
    for words in docs {
        let mut seen: Vec<&str> = words.clone();
        seen.sort();
        seen.dedup();
        for word in seen {
            *counts.entry(word).or_insert(0) += 1;
        }
    }
    let mut ranked: Vec<(TantivyValue, i64)> = counts
        .into_iter()
        .map(|(word, count)| (TantivyValue::Text(word.to_string()), count))
        .collect();
    ranked.sort_by(|a, b| b.1.cmp(&a.1).then(a.0.cmp(&b.0)));
    ranked
}

fn check_top_terms(index: &Index, docs: &[Vec<&'static str>]) {
    let expected = expected_counts(docs);
    for k in [0usize, 1, 2, 3, 5, 11, 12, 13, 1000] {
        let got: Vec<(TantivyValue, i64)> = top_terms(index, "body", k)
            .unwrap()
            .terms
            .into_iter()
            .map(|t| (t.term, t.count))
            .collect();
        let want: Vec<(TantivyValue, i64)> = expected.iter().take(k).cloned().collect();
        assert_eq!(got, want, "k = {}", k);
    }
    let all = top_terms(index, "body", expected.len()).unwrap().terms;
    let total: i64 = all.iter().map(|t| t.count).sum();
    let scan: i64 = docs
        .iter()
        .map(|words| {
            let mut seen = words.clone();
            seen.sort();
            seen.dedup();
            seen.len() as i64
        })
        .sum();
    assert_eq!(total, scan);
}

fn check_reconstruct(index: &Index, docs: &[Vec<&'static str>], step: usize, offset: usize) {
    let layout = layout(index);
    let mut request = HashMap::new();
    for (segment, ids) in layout.iter() {
        let wanted: Vec<u32> =
            (0..ids.len() as u32).filter(|doc| (*doc as usize) % step == offset % step).collect();
        request.insert(*segment, wanted);
    }
    let out = reconstruct(index, "body", &request).unwrap();
    assert_eq!(out.len(), request.len());
    for (segment, wanted) in request.iter() {
        let got = &out[segment];
        assert_eq!(got.len(), wanted.len());
        for (entry, doc) in got.iter().zip(wanted.iter()) {
            assert_eq!(entry.0, *doc);
            let id = layout[segment][*doc as usize] as usize;
            let want: Vec<Option<TantivyValue>> =
                docs[id].iter().map(|w| Some(TantivyValue::Text(w.to_string()))).collect();
            assert_eq!(entry.1, want, "segment {:x} doc {}", segment, doc);
        }
    }
}

fn check_term_docs(index: &Index, docs: &[Vec<&'static str>]) {
    let layout = layout(index);
    for word in WORDS.iter().chain(["zebra", "kiwi", ""].iter()) {
        let got = term_docs(index, "body", word).unwrap();
        // segment by segment, ascending within a segment
        let mut want = Vec::new();
        for segment in segments(index) {
            for (doc, id) in layout[&segment].iter().enumerate() {
                if docs[*id as usize].contains(word) {
                    want.push((segment, doc as u32));
                }
            }
        }
        assert_eq!(got, want, "{:?}", word);
    }
}

#[test]
fn one_large_segment_agrees_with_a_scan() {
    let docs = documents(7, 700);
    let index = build(&docs, &[]);
    assert_eq!(segments(&index).len(), 1);
    check_top_terms(&index, &docs);
    check_term_docs(&index, &docs);
    check_reconstruct(&index, &docs, 1, 0);
    check_reconstruct(&index, &docs, 2, 1);
    check_reconstruct(&index, &docs, 97, 5);
    check_reconstruct(&index, &docs, 300, 299);
}

#[test]
fn many_segments_agree_with_a_scan() {
    let docs = documents(11, 500);
    let index = build(&docs, &[1, 2, 150, 3, 200, 40]);
    assert_eq!(segments(&index).len(), 7);
    check_top_terms(&index, &docs);
    check_term_docs(&index, &docs);
    check_reconstruct(&index, &docs, 1, 0);
    check_reconstruct(&index, &docs, 3, 2);
    check_reconstruct(&index, &docs, 64, 63);
}

#[test]
fn segmentation_does_not_change_the_ranking() {
    let docs = documents(23, 300);
    let one = build(&docs, &[]);
    let many = build(&docs, &[10, 10, 10, 100, 1]);
    for k in 0..14 {
        let a: Vec<(TantivyValue, i64)> =
            top_terms(&one, "body", k).unwrap().terms.into_iter().map(|t| (t.term, t.count)).collect();
        let b: Vec<(TantivyValue, i64)> =
            top_terms(&many, "body", k).unwrap().terms.into_iter().map(|t| (t.term, t.count)).collect();
        assert_eq!(a, b);
    }
}

#[test]
fn an_empty_index_has_no_terms() {
    let index = build(&[], &[]);
    assert_eq!(segments(&index).len(), 0);
    assert_eq!(top_terms(&index, "body", 5).unwrap().terms.len(), 0);
    assert_eq!(term_docs(&index, "body", "ant").unwrap(), vec![]);
    let mut request = HashMap::new();
    request.insert(1u128, vec![0u32]);
    assert_eq!(reconstruct(&index, "body", &request).unwrap().len(), 0);
}

#[test]
fn deleted_documents_still_count() {
    let docs = documents(5, 60);
    let schema = schema();
    let index = build(&docs, &[]);
    let before: Vec<(TantivyValue, i64)> =
        top_terms(&index, "body", 20).unwrap().terms.into_iter().map(|t| (t.term, t.count)).collect();
    let mut writer: IndexWriter = index.writer_with_num_threads(1, 50_000_000).unwrap();
    writer.set_merge_policy(Box::new(tantivy::merge_policy::NoMergePolicy));
    for id in [0u64, 7, 8, 59] {
        writer.delete_term(Term::from_field_u64(schema.get_field("id").unwrap(), id));
    }
    writer.commit().unwrap();
    assert_eq!(index.reader().unwrap().searcher().num_docs(), 56);
    let after: Vec<(TantivyValue, i64)> =
        top_terms(&index, "body", 20).unwrap().terms.into_iter().map(|t| (t.term, t.count)).collect();
    assert_eq!(before, after);
    assert_eq!(before, expected_counts(&docs));
    check_reconstruct(&index, &docs, 1, 0);
}
