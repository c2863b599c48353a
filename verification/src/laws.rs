//! What holds of the ranking of terms, for every index.

use vstd::prelude::*;
use crate::bytes::{lemma_lex_asymmetric, lex_lt};
use crate::index::{
    field_named, postings_sorted, segment_terms, snapshot_schema, snapshot_segments,
    terms_sorted, TermEntry,
};
use crate::parse::key_of_text;
use crate::segment::{DocId, SegmentId};
use crate::term_docs::{docs_of_key, hits_upto, term_docs_of_field, term_docs_outcome};
use crate::top_terms::{field_dicts, top_terms_of_field, top_terms_outcome, TopTerms};
use crate::walk::docs_ascending;
use crate::ranking::{
    aggregate, all_keys_ascending, any_has_key, clamp_count, count_sum, dict_weight, freq_in, has_key,
    has_tally, is_aggregate, is_top_k, keys_ascending, lemma_aggregate_unique, lemma_freq_at,
    lemma_ranks_asymmetric, lemma_top_k_unique, ranks_before, tallies_ascending,
    total_freq, total_weight, Tally,
};

verus! {

/// No two of the tallies have the same count.
pub open spec fn counts_distinct(all: Seq<Tally>) -> bool {
    forall|i: int, j: int| 0 <= i < j < all.len() ==> all[i].count != all[j].count
}

/// No two of the tallies are the same.
pub open spec fn distinct(t: Seq<Tally>) -> bool {
    forall|i: int, j: int| 0 <= i < j < t.len() ==> t[i] != t[j]
}

/// Two families of dictionaries record the same terms with the same total
/// frequencies.
pub open spec fn same_totals(d1: Seq<Seq<TermEntry>>, d2: Seq<Seq<TermEntry>>) -> bool {
    forall|key: Seq<u8>|
        #![trigger any_has_key(d1, key)]
        #![trigger any_has_key(d2, key)]
        any_has_key(d1, key) == any_has_key(d2, key) && total_freq(d1, key) == total_freq(d2, key)
}

/// The sum over the tallies of the frequency that one dictionary records for
/// the tally's key.
pub open spec fn column_sum(m: Seq<Tally>, dict: Seq<TermEntry>) -> int
    decreases m.len(),
{
    if m.len() == 0 {
        0
    } else {
        column_sum(m.drop_last(), dict) + freq_in(dict, m.last().key)
    }
}

/// The sum over the dictionaries of their column sums.
pub open spec fn grid_sum(m: Seq<Tally>, dicts: Seq<Seq<TermEntry>>) -> int
    decreases dicts.len(),
{
    if dicts.len() == 0 {
        0
    } else {
        grid_sum(m, dicts.drop_last()) + column_sum(m, dicts.last())
    }
}

/// The counts of two tallies do not ascend, and with one count the first has
/// the smaller key.
pub open spec fn in_rank_order(a: Tally, b: Tally) -> bool {
    a.count >= b.count && (a.count == b.count ==> lex_lt(a.key, b.key))
}

/// A selection of the `k` first by rank holds no more than `k` tallies. Their
/// counts never ascend, and of two with one count the one with the smaller
/// key comes first.
pub proof fn law_ranking_bounded_and_ordered(sel: Seq<Tally>, all: Seq<Tally>, k: nat)
    requires
        is_top_k(sel, all, k),
    ensures
        sel.len() <= k,
        sel.len() <= all.len(),
        forall|i: int, j: int|
            0 <= i < j < sel.len() ==> in_rank_order(#[trigger] sel[i], #[trigger] sel[j]),
{
    assert forall|i: int, j: int| 0 <= i < j < sel.len() implies in_rank_order(
        #[trigger] sel[i],
        #[trigger] sel[j],
    ) by {
        assert(ranks_before(sel[i], sel[j]));
    }
}

/// Where no two terms have the same count, the counts of a selection of the
/// `k` first by rank strictly descend.
pub proof fn law_ranking_strictly_descending(sel: Seq<Tally>, all: Seq<Tally>, k: nat)
    requires
        is_top_k(sel, all, k),
        counts_distinct(all),
    ensures
        forall|i: int, j: int| 0 <= i < j < sel.len() ==> sel[i].count > sel[j].count,
{
    assert forall|i: int, j: int| 0 <= i < j < sel.len() implies sel[i].count > sel[j].count by {
        assert(ranks_before(sel[i], sel[j]));
        lemma_ranks_asymmetric(sel[i], sel[j]);
        assert(all.contains(sel[i]));
        assert(all.contains(sel[j]));
        let p = choose|p: int| 0 <= p < all.len() && all[p] == sel[i];
        let q = choose|q: int| 0 <= q < all.len() && all[q] == sel[j];
        if p < q {
            assert(all[p].count != all[q].count);
        } else if q < p {
            assert(all[q].count != all[p].count);
        }
    }
}

/// The ranking is determined: two selections of the `k` first by rank of the
/// same terms are the same list.
pub proof fn law_ranking_determined(a: Seq<Tally>, b: Seq<Tally>, all: Seq<Tally>, k: nat)
    requires
        is_top_k(a, all, k),
        is_top_k(b, all, k),
    ensures
        a == b,
{
    lemma_top_k_unique(a, b, all, k);
}

/// The documents that contain a term come in ascending order within a
/// segment, none twice.
pub proof fn law_term_documents_ascend(terms: Seq<TermEntry>, key: Seq<u8>)
    requires
        terms_sorted(terms),
    ensures
        docs_ascending(docs_of_key(terms, key)),
{
    let docs = docs_of_key(terms, key);
    if exists|i: int| 0 <= i < terms.len() && (#[trigger] terms[i]).key == key {
        let i = choose|i: int| 0 <= i < terms.len() && (#[trigger] terms[i]).key == key;
        let list = terms[i].postings;
        assert(postings_sorted(list));
        assert forall|a: int, b: int| 0 <= a < b < docs.len() implies docs[a] < docs[b] by {
            assert(list[a].doc < list[b].doc);
        }
    }
}

/// What `term_docs_in` returns lists, for each segment, the documents of the
/// term in ascending order, none twice.
pub proof fn law_term_docs_ascend(
    searcher: tantivy::Searcher,
    field: Seq<char>,
    id: int,
    text: Seq<char>,
    hits: Vec<(SegmentId, DocId)>,
    s: int,
)
    requires
        field_named(snapshot_schema(searcher), field, id),
        term_docs_outcome(searcher, field, text, Ok(hits)),
        0 <= s < snapshot_segments(searcher).len(),
    ensures
        key_of_text(text, snapshot_schema(searcher)[id].value_type) is Some,
        hits@ == hits_upto(
            searcher,
            id,
            key_of_text(text, snapshot_schema(searcher)[id].value_type).unwrap(),
            snapshot_segments(searcher).len() as int,
        ),
        docs_ascending(
            docs_of_key(
                segment_terms(searcher, s, id),
                key_of_text(text, snapshot_schema(searcher)[id].value_type).unwrap(),
            ),
        ),
{
    assert(term_docs_of_field(searcher, id, text, Ok(hits)));
    let key = key_of_text(text, snapshot_schema(searcher)[id].value_type).unwrap();
    assert(terms_sorted(segment_terms(searcher, s, id)));
    law_term_documents_ascend(segment_terms(searcher, s, id), key);
}

/// The sum of the counts is the sum without one tally, and that tally's count.
proof fn lemma_count_sum_remove(t: Seq<Tally>, p: int)
    requires
        0 <= p < t.len(),
    ensures
        count_sum(t) == count_sum(t.remove(p)) + t[p].count,
    decreases t.len(),
{
    if p == t.len() - 1 {
        assert(t.remove(p) =~= t.drop_last());
    } else {
        lemma_count_sum_remove(t.drop_last(), p);
        assert(t.remove(p).drop_last() =~= t.drop_last().remove(p));
        assert(t.remove(p).last() == t.last());
    }
}

/// Two lists of the same tallies, none twice, have the same sum of counts.
proof fn lemma_same_tallies_same_sum(a: Seq<Tally>, b: Seq<Tally>)
    requires
        a.len() == b.len(),
        distinct(a),
        distinct(b),
        forall|i: int| 0 <= i < a.len() ==> b.contains(#[trigger] a[i]),
        forall|j: int| 0 <= j < b.len() ==> a.contains(#[trigger] b[j]),
    ensures
        count_sum(a) == count_sum(b),
    decreases a.len(),
{
    if a.len() > 0 {
        let last = b.len() - 1;
        let x = b[last];
        assert(a.contains(x));
        let p = choose|p: int| 0 <= p < a.len() && a[p] == x;
        let a1 = a.remove(p);
        let b1 = b.drop_last();
        assert forall|i: int, j: int| 0 <= i < j < a1.len() implies a1[i] != a1[j] by {
            let oi = if i < p {
                i
            } else {
                i + 1
            };
            let oj = if j < p {
                j
            } else {
                j + 1
            };
            assert(a1[i] == a[oi] && a1[j] == a[oj]);
        }
        assert forall|i: int| 0 <= i < a1.len() implies b1.contains(#[trigger] a1[i]) by {
            let oi = if i < p {
                i
            } else {
                i + 1
            };
            assert(a1[i] == a[oi]);
            assert(b.contains(a[oi]));
            let q = choose|q: int| 0 <= q < b.len() && b[q] == a[oi];
            if oi < p {
                assert(a[oi] != a[p]);
            } else {
                assert(a[p] != a[oi]);
            }
            assert(b1[q] == a1[i]);
        }
        assert forall|j: int| 0 <= j < b1.len() implies a1.contains(#[trigger] b1[j]) by {
            assert(b1[j] == b[j]);
            assert(b[j] != b[last]);
            assert(a.contains(b[j]));
            let q = choose|q: int| 0 <= q < a.len() && a[q] == b[j];
            if q < p {
                assert(a1[q] == b1[j]);
            } else {
                assert(a1[q - 1] == b1[j]);
            }
        }
        lemma_same_tallies_same_sum(a1, b1);
        lemma_count_sum_remove(a, p);
    }
}

/// A dictionary records for a key other than its last what it records
/// without its last term.
proof fn lemma_freq_without_last(dict: Seq<TermEntry>, key: Seq<u8>)
    requires
        keys_ascending(dict),
        dict.len() > 0,
        key != dict.last().key,
    ensures
        freq_in(dict, key) == freq_in(dict.drop_last(), key),
{
    let shorter = dict.drop_last();
    if has_key(shorter, key) {
        let i = choose|i: int| 0 <= i < shorter.len() && (#[trigger] shorter[i]).key == key;
        assert(dict[i].key == key);
        lemma_freq_at(shorter, i);
        lemma_freq_at(dict, i);
    } else {
        if has_key(dict, key) {
            let i = choose|i: int| 0 <= i < dict.len() && (#[trigger] dict[i]).key == key;
            assert(shorter[i].key == key);
        }
    }
}

/// Two dictionaries that record the same for each of the tallies' keys have
/// the same column sum.
proof fn lemma_column_same(m: Seq<Tally>, d1: Seq<TermEntry>, d2: Seq<TermEntry>)
    requires
        forall|n: int| 0 <= n < m.len() ==> freq_in(d1, (#[trigger] m[n]).key) == freq_in(d2, m[n].key),
    ensures
        column_sum(m, d1) == column_sum(m, d2),
    decreases m.len(),
{
    if m.len() > 0 {
        assert forall|n: int| 0 <= n < m.len() - 1 implies freq_in(
            d1,
            (#[trigger] m.drop_last()[n]).key,
        ) == freq_in(d2, m.drop_last()[n].key) by {
            assert(m.drop_last()[n] == m[n]);
        }
        lemma_column_same(m.drop_last(), d1, d2);
        assert(m.last() == m[m.len() - 1]);
    }
}

/// Over tallies in key order that cover the keys of a dictionary, the column
/// sum of the dictionary is the sum of all that it records.
proof fn lemma_column_is_weight(m: Seq<Tally>, dict: Seq<TermEntry>)
    requires
        tallies_ascending(m),
        keys_ascending(dict),
        forall|j: int| 0 <= j < dict.len() ==> has_tally(m, (#[trigger] dict[j]).key),
    ensures
        column_sum(m, dict) == dict_weight(dict),
    decreases m.len(),
{
    if m.len() == 0 {
        if dict.len() > 0 {
            assert(has_tally(m, dict[0].key));
        }
    } else {
        let top = m.len() - 1;
        let shorter = m.drop_last();
        let key = m[top].key;
        assert(m.last() == m[top]);
        if has_key(dict, key) {
            let j = choose|j: int| 0 <= j < dict.len() && (#[trigger] dict[j]).key == key;
            // the key is the last of the dictionary
            if j < dict.len() - 1 {
                let later = dict[dict.len() - 1].key;
                assert(lex_lt(dict[j].key, later));
                assert(has_tally(m, dict[dict.len() - 1].key));
                let n = choose|n: int| 0 <= n < m.len() && (#[trigger] m[n]).key == later;
                lemma_lex_asymmetric(key, later);
                if n < top {
                    assert(lex_lt(m[n].key, m[top].key));
                }
            }
            let rest = dict.drop_last();
            assert forall|i: int| 0 <= i < rest.len() implies has_tally(
                shorter,
                (#[trigger] rest[i]).key,
            ) by {
                assert(rest[i] == dict[i]);
                assert(lex_lt(dict[i].key, dict[j].key));
                lemma_lex_asymmetric(dict[i].key, key);
                assert(has_tally(m, dict[i].key));
                let n = choose|n: int| 0 <= n < m.len() && (#[trigger] m[n]).key == dict[i].key;
                assert(shorter[n].key == dict[i].key);
            }
            lemma_column_is_weight(shorter, rest);
            assert forall|n: int| 0 <= n < shorter.len() implies freq_in(
                dict,
                (#[trigger] shorter[n]).key,
            ) == freq_in(rest, shorter[n].key) by {
                assert(shorter[n] == m[n]);
                assert(lex_lt(m[n].key, m[top].key));
                lemma_lex_asymmetric(m[n].key, key);
                lemma_freq_without_last(dict, shorter[n].key);
            }
            lemma_column_same(shorter, dict, rest);
            lemma_freq_at(dict, j);
        } else {
            assert forall|i: int| 0 <= i < dict.len() implies has_tally(
                shorter,
                (#[trigger] dict[i]).key,
            ) by {
                assert(has_tally(m, dict[i].key));
                let n = choose|n: int| 0 <= n < m.len() && (#[trigger] m[n]).key == dict[i].key;
                assert(shorter[n].key == dict[i].key);
            }
            lemma_column_is_weight(shorter, dict);
        }
    }
}

/// One more tally adds to the grid sum the total frequency of its key.
proof fn lemma_grid_step(m: Seq<Tally>, dicts: Seq<Seq<TermEntry>>)
    requires
        m.len() > 0,
    ensures
        grid_sum(m, dicts) == grid_sum(m.drop_last(), dicts) + total_freq(dicts, m.last().key),
    decreases dicts.len(),
{
    if dicts.len() > 0 {
        lemma_grid_step(m, dicts.drop_last());
    }
}

/// Where no count is clamped, the counts of an aggregate sum to the grid sum.
proof fn lemma_counts_are_grid(m: Seq<Tally>, dicts: Seq<Seq<TermEntry>>)
    requires
        forall|n: int| 0 <= n < m.len() ==> (#[trigger] m[n]).count == total_freq(dicts, m[n].key),
    ensures
        count_sum(m) == grid_sum(m, dicts),
    decreases m.len(),
{
    if m.len() == 0 {
        lemma_grid_empty(m, dicts);
    } else {
        assert forall|n: int| 0 <= n < m.len() - 1 implies (#[trigger] m.drop_last()[n]).count
            == total_freq(dicts, m.drop_last()[n].key) by {
            assert(m.drop_last()[n] == m[n]);
        }
        lemma_counts_are_grid(m.drop_last(), dicts);
        lemma_grid_step(m, dicts);
        assert(m.last() == m[m.len() - 1]);
    }
}

proof fn lemma_grid_empty(m: Seq<Tally>, dicts: Seq<Seq<TermEntry>>)
    requires
        m.len() == 0,
    ensures
        grid_sum(m, dicts) == 0,
    decreases dicts.len(),
{
    if dicts.len() > 0 {
        lemma_grid_empty(m, dicts.drop_last());
    }
}

/// The grid sum of an aggregate is the sum of all that the dictionaries record.
proof fn lemma_grid_is_weight(m: Seq<Tally>, dicts: Seq<Seq<TermEntry>>, n: int)
    requires
        is_aggregate(m, dicts),
        all_keys_ascending(dicts),
        0 <= n <= dicts.len(),
    ensures
        grid_sum(m, dicts.take(n)) == total_weight(dicts.take(n)),
    decreases n,
{
    if n > 0 {
        lemma_grid_is_weight(m, dicts, n - 1);
        assert(dicts.take(n).drop_last() =~= dicts.take(n - 1));
        assert(dicts.take(n).last() == dicts[n - 1]);
        assert(keys_ascending(dicts[n - 1]));
        assert forall|j: int| 0 <= j < dicts[n - 1].len() implies has_tally(
            m,
            (#[trigger] dicts[n - 1][j]).key,
        ) by {}
        lemma_column_is_weight(m, dicts[n - 1]);
    }
}

/// Enumerating a field fully gives counts that sum to what a scan of every
/// term of every segment counts: where `k` is no less than the number of
/// distinct terms and no count exceeds the largest `i64`, the counts of the
/// `k` first by rank sum to the sum of all recorded document frequencies.
pub proof fn law_full_enumeration_sums_to_scan(
    dicts: Seq<Seq<TermEntry>>,
    m: Seq<Tally>,
    sel: Seq<Tally>,
    k: nat,
)
    requires
        all_keys_ascending(dicts),
        is_aggregate(m, dicts),
        is_top_k(sel, m, k),
        k >= m.len(),
        forall|n: int| 0 <= n < m.len() ==> total_freq(dicts, (#[trigger] m[n]).key) <= i64::MAX,
    ensures
        count_sum(sel) == total_weight(dicts),
{
    assert(distinct(sel)) by {
        assert forall|i: int, j: int| 0 <= i < j < sel.len() implies sel[i] != sel[j] by {
            assert(ranks_before(sel[i], sel[j]));
            lemma_ranks_asymmetric(sel[i], sel[j]);
        }
    }
    assert(distinct(m)) by {
        assert forall|i: int, j: int| 0 <= i < j < m.len() implies m[i] != m[j] by {
            lemma_lex_asymmetric(m[i].key, m[j].key);
        }
    }
    lemma_same_tallies_same_sum(sel, m);
    lemma_counts_are_grid(m, dicts);
    lemma_grid_is_weight(m, dicts, dicts.len() as int);
    assert(dicts.take(dicts.len() as int) =~= dicts);
}

/// The ranking depends on the terms and their total frequencies alone, not
/// on how the documents are spread over segments: two families of
/// dictionaries that record the same terms with the same totals have the
/// same aggregate and the same `k` first by rank.
pub proof fn law_segmentation_is_immaterial(
    d1: Seq<Seq<TermEntry>>,
    d2: Seq<Seq<TermEntry>>,
    m1: Seq<Tally>,
    m2: Seq<Tally>,
    s1: Seq<Tally>,
    s2: Seq<Tally>,
    k: nat,
)
    requires
        same_totals(d1, d2),
        is_aggregate(m1, d1),
        is_aggregate(m2, d2),
        is_top_k(s1, m1, k),
        is_top_k(s2, m2, k),
    ensures
        m1 == m2,
        s1 == s2,
{
    assert(is_aggregate(m1, d2)) by {
        assert forall|n: int| 0 <= n < m1.len() implies any_has_key(d2, (#[trigger] m1[n]).key)
            && m1[n].count == clamp_count(total_freq(d2, m1[n].key)) by {
            assert(any_has_key(d1, m1[n].key));
        }
        assert forall|s: int, j: int| 0 <= s < d2.len() && 0 <= j < d2[s].len() implies has_tally(
            m1,
            (#[trigger] d2[s][j]).key,
        ) by {
            let key = d2[s][j].key;
            assert(has_key(d2[s], key));
            assert(any_has_key(d2, key));
            assert(any_has_key(d1, key));
            let s1 = choose|s1: int| 0 <= s1 < d1.len() && has_key(#[trigger] d1[s1], key);
            let j1 = choose|j1: int| 0 <= j1 < d1[s1].len() && (#[trigger] d1[s1][j1]).key == key;
            assert(has_tally(m1, d1[s1][j1].key));
        }
    }
    lemma_aggregate_unique(m1, m2, d2);
    lemma_top_k_unique(s1, s2, m1, k);
}

/// One segment records the same terms with the same totals as two segments
/// between which its documents are split: each term of the one is a term of
/// one of the two, and its frequency is the sum of theirs.
pub proof fn law_split_segment_has_same_totals(
    whole: Seq<TermEntry>,
    left: Seq<TermEntry>,
    right: Seq<TermEntry>,
)
    requires
        forall|key: Seq<u8>|
            #![trigger has_key(whole, key)]
            has_key(whole, key) == (has_key(left, key) || has_key(right, key)) && freq_in(
                whole,
                key,
            ) == freq_in(left, key) + freq_in(right, key),
    ensures
        same_totals(seq![whole], seq![left, right]),
{
    let one = seq![whole];
    let two = seq![left, right];
    assert forall|key: Seq<u8>|
        #![trigger any_has_key(one, key)]
        #![trigger any_has_key(two, key)]
        any_has_key(one, key) == any_has_key(two, key) && total_freq(one, key) == total_freq(
            two,
            key,
        ) by {
        assert(has_key(whole, key) == (has_key(left, key) || has_key(right, key)));
        assert(one[0] == whole && two[0] == left && two[1] == right);
        if any_has_key(one, key) {
            let s = choose|s: int| 0 <= s < one.len() && has_key(#[trigger] one[s], key);
            assert(has_key(whole, key));
            if has_key(left, key) {
                assert(has_key(two[0], key));
            } else {
                assert(has_key(two[1], key));
            }
        }
        if any_has_key(two, key) {
            let s = choose|s: int| 0 <= s < two.len() && has_key(#[trigger] two[s], key);
            assert(has_key(one[0], key));
        }
        assert(one.drop_last() =~= Seq::<Seq<TermEntry>>::empty());
        assert(two.drop_last() =~= seq![left]);
        assert(seq![left].drop_last() =~= Seq::<Seq<TermEntry>>::empty());
        reveal_with_fuel(total_freq, 3);
    }
}

/// What `top_terms_in` returns is no longer than `k` and in rank order: the
/// counts never ascend, and of two terms with one count the one with the
/// smaller key comes first.
pub proof fn law_top_terms_ranked(
    searcher: tantivy::Searcher,
    field: Seq<char>,
    id: int,
    k: nat,
    t: TopTerms,
)
    requires
        field_named(snapshot_schema(searcher), field, id),
        top_terms_outcome(searcher, field, k, Ok(t)),
    ensures
        t.tallies().len() <= k,
        forall|i: int, j: int|
            0 <= i < j < t.tallies().len() ==> in_rank_order(
                #[trigger] t.tallies()[i],
                #[trigger] t.tallies()[j],
            ),
{
    assert(top_terms_of_field(searcher, id, k, Ok(t)));
    if k > 0 {
        let all = aggregate(field_dicts(searcher, id));
        law_ranking_bounded_and_ordered(t.tallies(), all, k);
    }
}

/// No dictionary has a term.
pub open spec fn no_terms(dicts: Seq<Seq<TermEntry>>) -> bool {
    forall|s: int| 0 <= s < dicts.len() ==> (#[trigger] dicts[s]).len() == 0
}

/// Dictionaries without terms record nothing.
pub proof fn law_no_terms_weigh_nothing(dicts: Seq<Seq<TermEntry>>)
    requires
        no_terms(dicts),
    ensures
        total_weight(dicts) == 0,
    decreases dicts.len(),
{
    if dicts.len() > 0 {
        assert(dicts.last() == dicts[dicts.len() - 1]);
        assert forall|s: int| 0 <= s < dicts.drop_last().len() implies (
        #[trigger] dicts.drop_last()[s]).len() == 0 by {
            assert(dicts.drop_last()[s] == dicts[s]);
        }
        law_no_terms_weigh_nothing(dicts.drop_last());
    }
}

/// Where `top_terms_in` is asked for no fewer terms than the field has, and
/// no count exceeds the largest `i64`, the counts that it returns sum to the
/// sum of all document frequencies that the segments record for the field.
/// Zero terms are all the terms of a field that has none.
pub proof fn law_top_terms_sum_to_scan(
    searcher: tantivy::Searcher,
    field: Seq<char>,
    id: int,
    k: nat,
    t: TopTerms,
)
    requires
        field_named(snapshot_schema(searcher), field, id),
        top_terms_outcome(searcher, field, k, Ok(t)),
        k > 0 ==> k >= aggregate(field_dicts(searcher, id)).len(),
        k == 0 ==> no_terms(field_dicts(searcher, id)),
        forall|key: Seq<u8>| total_freq(field_dicts(searcher, id), key) <= i64::MAX,
    ensures
        count_sum(t.tallies()) == total_weight(field_dicts(searcher, id)),
{
    assert(top_terms_of_field(searcher, id, k, Ok(t)));
    let dicts = field_dicts(searcher, id);
    if k > 0 {
        law_full_enumeration_sums_to_scan(dicts, aggregate(dicts), t.tallies(), k);
    } else {
        law_no_terms_weigh_nothing(dicts);
        assert(t.tallies() =~= Seq::<Tally>::empty());
    }
}

/// What `top_terms_in` returns for a field depends on the field's terms and
/// their total frequencies alone: two snapshots whose segments record the
/// same terms with the same totals give the same terms with the same counts
/// in the same order, however the documents are spread over the segments.
pub proof fn law_top_terms_ignore_segmentation(
    s1: tantivy::Searcher,
    s2: tantivy::Searcher,
    field: Seq<char>,
    id1: int,
    id2: int,
    k: nat,
    t1: TopTerms,
    t2: TopTerms,
)
    requires
        field_named(snapshot_schema(s1), field, id1),
        field_named(snapshot_schema(s2), field, id2),
        top_terms_outcome(s1, field, k, Ok(t1)),
        top_terms_outcome(s2, field, k, Ok(t2)),
        same_totals(field_dicts(s1, id1), field_dicts(s2, id2)),
    ensures
        t1.tallies() == t2.tallies(),
{
    assert(top_terms_of_field(s1, id1, k, Ok(t1)));
    assert(top_terms_of_field(s2, id2, k, Ok(t2)));
    if k == 0 {
        assert(t1.tallies() =~= t2.tallies());
    } else {
        let d1 = field_dicts(s1, id1);
        let d2 = field_dicts(s2, id2);
        law_segmentation_is_immaterial(
            d1,
            d2,
            aggregate(d1),
            aggregate(d2),
            t1.tallies(),
            t2.tallies(),
            k,
        );
    }
}

} // verus!
