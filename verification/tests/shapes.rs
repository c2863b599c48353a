use tantivy_viewer::collect::{collect_within, truncate_docs, truncate_hits, DocCollector};
use tantivy_viewer::query::{
    contains_blank, push_query_to_string, push_term_str, query_to_string, search_query, Clause,
    Occur, QueryShape, RangeBound, TermText,
};
use tantivy_viewer::reconstruct::{choose_strategy, is_fast, Strategy};
use tantivy_viewer::index::Indexing;
use tantivy_viewer::space_usage::{add_bytes, concept_slot, space_usage, ComponentUsage, Concept};
use tantivy_viewer::walk::{
    classify, is_ascending, next_step, state_after, CursorState, SkipResult, Step,
};
use tantivy_viewer::{DebugQuery, DebugTree, ReconstructEntry, TantivyValue, ValueType};

fn term(field: &str, text: &str) -> QueryShape {
    QueryShape::Term { field: field.to_string(), term: TermText::Str(text.to_string()) }
}

fn clause(occur: Occur, query: QueryShape) -> Clause {
    Clause { occur, query }
}

#[test]
fn a_term_query_shows_field_and_term() {
    assert_eq!(query_to_string(&term("body", "fox")), "body:fox");
    assert_eq!(query_to_string(&term("body", "quick fox")), "body:\"quick fox\"");
    assert_eq!(
        query_to_string(&QueryShape::Term { field: "n".to_string(), term: TermText::U64(42) }),
        "n:42"
    );
    assert_eq!(
        query_to_string(&QueryShape::Term { field: "n".to_string(), term: TermText::I64(-42) }),
        "n:-42"
    );
    assert_eq!(
        query_to_string(&QueryShape::Term { field: "f".to_string(), term: TermText::Facet }),
        "f:<cannot write HierarchicalFacet>"
    );
    assert_eq!(
        query_to_string(&QueryShape::Term { field: "b".to_string(), term: TermText::Bytes }),
        "b:<cannot search for bytes>"
    );
}

#[test]
fn a_phrase_query_stands_in_quotes() {
    let phrase = QueryShape::Phrase {
        field: "body".to_string(),
        terms: vec![TermText::Str("quick".to_string()), TermText::Str("brown fox".to_string())],
    };
    assert_eq!(query_to_string(&phrase), "body:\"quick brown fox\"");
    let empty = QueryShape::Phrase { field: "body".to_string(), terms: vec![] };
    assert_eq!(query_to_string(&empty), "body:\"\"");
}

#[test]
fn a_range_query_shows_its_ends() {
    let range = |lower, upper| QueryShape::Range { field: "n".to_string(), lower, upper };
    assert_eq!(
        query_to_string(&range(
            RangeBound::Included(TermText::U64(1)),
            RangeBound::Excluded(TermText::U64(9))
        )),
        "n:[1 TO 9}"
    );
    assert_eq!(
        query_to_string(&range(
            RangeBound::Excluded(TermText::I64(-3)),
            RangeBound::Included(TermText::I64(3))
        )),
        "n:{-3 TO 3]"
    );
    assert_eq!(
        query_to_string(&range(RangeBound::Unbounded, RangeBound::Unbounded)),
        "n:[ TO ]"
    );
    assert_eq!(
        query_to_string(&range(
            RangeBound::Included(TermText::Str("a b".to_string())),
            RangeBound::Unbounded
        )),
        "n:[a b TO ]"
    );
}

#[test]
fn a_boolean_query_signs_its_clauses() {
    let query = QueryShape::Boolean(vec![
        clause(Occur::Should, term("a", "x")),
        clause(Occur::Must, term("b", "y")),
        clause(Occur::MustNot, QueryShape::All),
    ]);
    assert_eq!(query_to_string(&query), "a:x +b:y -*");
    assert_eq!(query_to_string(&QueryShape::Boolean(vec![])), "");
    assert_eq!(query_to_string(&QueryShape::All), "*");
}

#[test]
fn a_nested_boolean_query_stands_in_parentheses() {
    let inner = || {
        QueryShape::Boolean(vec![
            clause(Occur::Should, term("a", "x")),
            clause(Occur::Should, term("a", "y")),
        ])
    };
    let query = QueryShape::Boolean(vec![
        clause(Occur::Must, inner()),
        clause(Occur::Should, inner()),
        clause(Occur::MustNot, QueryShape::Boolean(vec![])),
    ]);
    assert_eq!(query_to_string(&query), "+(a:x a:y) (a:x a:y) -()");
    // nothing stands before an unsigned first clause, so it gets no parentheses
    let leading = QueryShape::Boolean(vec![
        clause(Occur::Should, inner()),
        clause(Occur::Should, term("b", "z")),
    ]);
    assert_eq!(query_to_string(&leading), "a:x a:y b:z");
    let mut output = "q=".to_string();
    push_query_to_string(&inner(), &mut output);
    assert_eq!(output, "q=(a:x a:y)");
}

#[test]
fn a_term_is_quoted_only_where_allowed() {
    let mut output = String::new();
    push_term_str(&TermText::Str("a b".to_string()), false, &mut output);
    assert_eq!(output, "a b");
    push_term_str(&TermText::Str("a b".to_string()), true, &mut output);
    assert_eq!(output, "a b\"a b\"");
    assert!(contains_blank("a b"));
    assert!(!contains_blank("a\tb"));
    assert!(!contains_blank(""));
}

#[test]
fn the_parts_of_a_query_are_its_clauses() {
    let query = QueryShape::Boolean(vec![
        clause(Occur::Must, term("a", "x")),
        clause(Occur::Should, QueryShape::All),
    ]);
    let parts = query.children();
    assert_eq!(parts.len(), 2);
    assert_eq!(query_to_string(parts[0]), "a:x");
    assert_eq!(query_to_string(parts[1]), "*");
    assert_eq!(term("a", "x").children().len(), 0);
    assert_eq!(QueryShape::All.children().len(), 0);
}

#[test]
fn the_counted_query_joins_the_second_query() {
    assert_eq!(query_to_string(&search_query(term("a", "x"), None)), "a:x");
    assert_eq!(
        query_to_string(&search_query(term("a", "x"), Some(term("b", "y")))),
        "+a:x +b:y"
    );
}

#[test]
fn the_empty_tree_counts_nothing() {
    let tree = DebugTree::empty();
    assert_eq!(tree.count, 0);
    assert_eq!(tree.query_string, "");
    assert_eq!(tree.search_string, "");
    assert_eq!(tree.salient_docs_query_string, None);
    assert!(tree.children.is_empty());
    let node = DebugTree::node(3, "a".to_string(), "b".to_string(), vec![tree]);
    assert_eq!(node.count, 3);
    assert_eq!(node.query_string, "a");
    assert_eq!(node.search_string, "b");
    assert_eq!(node.children.len(), 1);
}

#[test]
fn an_empty_second_query_counts_as_none() {
    let asked = |second: Option<&str>| DebugQuery {
        query: Some("x".to_string()),
        salient_docs_query: second.map(|s| s.to_string()),
    };
    assert_eq!(asked(None).salient(), None);
    assert_eq!(asked(Some("")).salient(), None);
    assert_eq!(asked(Some("y")).salient(), Some(&"y".to_string()));
}

#[test]
fn an_entry_holds_the_values_as_text() {
    let entry = ReconstructEntry::new(
        "body".to_string(),
        vec![Some(TantivyValue::Text("A".to_string())), None, Some(TantivyValue::U64(2))],
    );
    assert_eq!(entry.field, "body");
    assert_eq!(entry.contents, "A 2 ");
}

#[test]
fn the_collector_groups_documents_by_segment() {
    let mut collector = DocCollector::new();
    collector.set_segment(7);
    collector.collect(1);
    collector.collect(4);
    collector.set_segment(8);
    collector.set_segment(9);
    collector.collect(2);
    assert_eq!(collector.into_docs(), vec![(7, vec![1, 4]), (8, vec![]), (9, vec![2])]);
    assert_eq!(DocCollector::new().into_docs(), vec![]);
    // a document collected before any segment is set goes to the first segment
    let mut early = DocCollector::new();
    early.collect(99);
    early.set_segment(7);
    early.collect(1);
    assert_eq!(early.into_docs(), vec![(7, vec![99, 1])]);
    let mut lost = DocCollector::new();
    lost.collect(99);
    assert_eq!(lost.into_docs(), vec![]);
}

#[test]
fn a_budget_admits_only_live_documents() {
    let mut collector = DocCollector::new();
    collector.set_segment(1);
    assert_eq!(collect_within(&mut collector, 2, 10, false), 1);
    assert_eq!(collect_within(&mut collector, 1, 11, true), 1);
    assert_eq!(collect_within(&mut collector, 1, 12, false), 0);
    assert_eq!(collect_within(&mut collector, 0, 13, false), 0);
    assert_eq!(collector.into_docs(), vec![(1, vec![10, 12])]);
}

#[test]
fn groups_are_cut_to_the_limit() {
    let groups = vec![(1u128, vec![1u32, 2, 3]), (2, vec![]), (3, vec![4, 5]), (4, vec![6])];
    assert_eq!(truncate_docs(&groups, 10), (vec![(1, vec![1, 2, 3]), (3, vec![4, 5]), (4, vec![6])], false));
    assert_eq!(truncate_docs(&groups, 6), (vec![(1, vec![1, 2, 3]), (3, vec![4, 5]), (4, vec![6])], false));
    assert_eq!(truncate_docs(&groups, 4), (vec![(1, vec![1, 2, 3]), (3, vec![4])], true));
    // a limit used up by the groups before it leaves the rest unseen
    assert_eq!(truncate_docs(&groups, 3), (vec![(1, vec![1, 2, 3])], false));
    assert_eq!(truncate_docs(&groups, 2), (vec![(1, vec![1, 2])], true));
    assert_eq!(truncate_docs(&groups, 0), (vec![], false));
    assert_eq!(truncate_docs(&vec![], 5), (vec![], false));
}

#[test]
fn hits_are_cut_to_the_limit() {
    let hits = vec![(1u128, 1u32), (1, 2), (2, 1)];
    assert_eq!(truncate_hits(hits.clone(), 5), (hits.clone(), false));
    assert_eq!(truncate_hits(hits.clone(), 3), (hits.clone(), false));
    assert_eq!(truncate_hits(hits.clone(), 2), (vec![(1, 1), (1, 2)], true));
    assert_eq!(truncate_hits(hits.clone(), 0), (vec![], true));
    assert_eq!(truncate_hits(vec![], 0), (vec![], false));
}

fn component(concept: Concept, fields: Vec<(u32, usize)>, total: usize) -> ComponentUsage {
    ComponentUsage { concept, fields, total }
}

#[test]
fn space_is_summed_by_field_and_by_component() {
    let usage = vec![
        component(Concept::Termdict, vec![(0, 10), (1, 5)], 15),
        component(Concept::Postings, vec![(1, 7), (1, 1), (9, 100)], 108),
        component(Concept::Store, vec![], 50),
        component(Concept::Termdict, vec![(0, 1)], 1),
        component(Concept::Deletes, vec![], 2),
    ];
    let sums = space_usage(&usage, 3, 999);
    assert_eq!(sums.total, 999);
    assert_eq!(sums.fields, vec![11, 13, 0]);
    assert_eq!(sums.concepts, vec![16, 108, 0, 0, 0, 2, 50]);
    let none = space_usage(&vec![], 0, 0);
    assert_eq!(none.fields, Vec::<usize>::new());
    assert_eq!(none.concepts, vec![0; 7]);
}

#[test]
fn sums_of_space_stop_at_the_largest_number() {
    let usage = vec![
        component(Concept::Store, vec![(0, usize::MAX)], usize::MAX),
        component(Concept::Store, vec![(0, 1)], 5),
    ];
    let sums = space_usage(&usage, 1, 0);
    assert_eq!(sums.fields, vec![usize::MAX]);
    assert_eq!(sums.concepts[6], usize::MAX);
    assert_eq!(add_bytes(usize::MAX - 1, 1), usize::MAX);
    assert_eq!(add_bytes(usize::MAX, 1), usize::MAX);
    assert_eq!(add_bytes(3, 4), 7);
    assert_eq!(concept_slot(Concept::Termdict), 0);
    assert_eq!(concept_slot(Concept::Store), 6);
}

#[test]
fn the_walk_seeks_only_forward() {
    assert_eq!(next_step(CursorState::NotSought, 5), Step::Seek);
    assert_eq!(next_step(CursorState::ReachedAt(3), 5), Step::Seek);
    assert_eq!(next_step(CursorState::ReachedAt(5), 5), Step::Emit);
    assert_eq!(next_step(CursorState::ReachedAt(7), 5), Step::Pass);
    assert_eq!(next_step(CursorState::PastEnd, 5), Step::Pass);
    assert_eq!(classify(5, 5), SkipResult::Reached);
    assert_eq!(classify(9, 5), SkipResult::OverStep);
    assert_eq!(classify(0x7fff_ffff, 5), SkipResult::End);
    assert_eq!(state_after(SkipResult::Reached, 5, 5), CursorState::ReachedAt(5));
    assert_eq!(state_after(SkipResult::OverStep, 9, 5), CursorState::ReachedAt(9));
    assert_eq!(state_after(SkipResult::End, 0x7fff_ffff, 5), CursorState::PastEnd);
}

#[test]
fn requests_are_checked_for_order() {
    assert!(is_ascending(&vec![]));
    assert!(is_ascending(&vec![3]));
    assert!(is_ascending(&vec![1, 2, 9]));
    assert!(!is_ascending(&vec![1, 1]));
    assert!(!is_ascending(&vec![2, 1]));
    assert!(!is_ascending(&vec![1, 5, 3, 7]));
}

#[test]
fn the_strategy_prefers_postings_to_columns() {
    assert_eq!(choose_strategy(Indexing::Basic, ValueType::U64, true), Strategy::Positional);
    assert_eq!(
        choose_strategy(Indexing::WithFreqsAndPositions, ValueType::Str, false),
        Strategy::Positional
    );
    assert_eq!(choose_strategy(Indexing::NotIndexed, ValueType::I64, true), Strategy::Columnar);
    assert_eq!(choose_strategy(Indexing::NotIndexed, ValueType::Bytes, true), Strategy::Columnar);
    assert_eq!(choose_strategy(Indexing::NotIndexed, ValueType::Str, true), Strategy::Nothing);
    assert_eq!(choose_strategy(Indexing::NotIndexed, ValueType::U64, false), Strategy::Nothing);
    assert!(is_fast(ValueType::U64, true));
    assert!(!is_fast(ValueType::U64, false));
    assert!(!is_fast(ValueType::Str, true));
    assert!(!is_fast(ValueType::Facet, true));
    assert!(!is_fast(ValueType::F64, true));
}

#[test]
fn a_selection_is_cut_at_its_commas() {
    let split = |text: &str| -> Vec<String> {
        tantivy_viewer::selection::split_commas(text.as_bytes())
            .into_iter()
            .map(|piece| String::from_utf8(piece).unwrap())
            .collect()
    };
    for text in ["", "a", "a,b", "title,body,id", ",", ",,", "a,", ",a", "a,,b", "né,位", " a , b "] {
        let want: Vec<String> = text.split(',').map(|s| s.to_string()).collect();
        assert_eq!(split(text), want, "{:?}", text);
    }
    assert_eq!(split("title,body"), vec!["title", "body"]);
    assert_eq!(split(""), vec![""]);
}

#[test]
fn an_answer_says_whether_all_fields_were_asked_for() {
    let query = |field: Option<&str>| tantivy_viewer::ReconstructQuery {
        field: field.map(|f| f.to_string()),
        segment: "a5c4".to_string(),
        doc: 3,
    };
    assert!(query(None).all_fields());
    assert!(!query(Some("body")).all_fields());
    let entry = ReconstructEntry::new("body".to_string(), vec![]);
    let data = tantivy_viewer::ReconstructData::new(query(Some("body")), vec![entry]);
    assert_eq!(data.segment, "a5c4");
    assert_eq!(data.doc, 3);
    assert!(!data.all_fields);
    assert_eq!(data.entries.len(), 1);
    assert_eq!(data.entries[0].field, "body");
    assert_eq!(data.entries[0].contents, "");
    assert!(tantivy_viewer::ReconstructData::new(query(None), vec![]).all_fields);
}

#[test]
fn a_value_is_placed_at_its_position() {
    let a = TantivyValue::Text("a".to_string());
    let b = TantivyValue::U64(7);
    let mut content: Vec<Option<TantivyValue>> = Vec::new();
    tantivy_viewer::content::place_value(&mut content, 2, &a);
    assert_eq!(content, vec![None, None, Some(a.clone())]);
    tantivy_viewer::content::place_value(&mut content, 0, &b);
    assert_eq!(content, vec![Some(b.clone()), None, Some(a.clone())]);
    tantivy_viewer::content::place_value(&mut content, 2, &b);
    assert_eq!(content, vec![Some(b.clone()), None, Some(b.clone())]);
    tantivy_viewer::content::place_value(&mut content, 3, &a);
    assert_eq!(content, vec![Some(b.clone()), None, Some(b.clone()), Some(a.clone())]);
}

#[test]
fn a_term_is_entered_at_its_positions_or_by_its_frequency() {
    let a = TantivyValue::Text("a".to_string());
    let mut content: Vec<Option<TantivyValue>> = vec![None];
    tantivy_viewer::content::reconstruct_doc(&mut content, &vec![3, 1], 2, &a);
    assert_eq!(content, vec![None, Some(a.clone()), None, Some(a.clone())]);
    // without positions the term is appended as often as it occurs
    tantivy_viewer::content::reconstruct_doc(&mut content, &vec![], 2, &a);
    assert_eq!(
        content,
        vec![None, Some(a.clone()), None, Some(a.clone()), Some(a.clone()), Some(a.clone())]
    );
    tantivy_viewer::content::reconstruct_doc(&mut content, &vec![], 0, &a);
    assert_eq!(content.len(), 6);
}

#[test]
fn counts_stop_at_the_largest_number() {
    assert_eq!(tantivy_viewer::ranking::add_count(0, 0), 0);
    assert_eq!(tantivy_viewer::ranking::add_count(5, 7), 12);
    assert_eq!(tantivy_viewer::ranking::add_count(i64::MAX - 7, 7), i64::MAX);
    assert_eq!(tantivy_viewer::ranking::add_count(i64::MAX - 6, 7), i64::MAX);
    assert_eq!(tantivy_viewer::ranking::add_count(i64::MAX, u32::MAX), i64::MAX);
}
