//! The most frequent terms of a field.
//!
//! One cursor per segment walks that segment's dictionary in key order. The
//! cursors are merged: each round takes the smallest key that any cursor
//! shows, adds up the document frequencies of all cursors that show it, and
//! moves those cursors on. The keys so come out in ascending order, each once
//! with its aggregate count, and a bounded selection keeps the `k` first of
//! them by rank.

use std::sync::Arc;
use vstd::prelude::*;
use crate::bytes::{
    bytes_eq, bytes_lt, bytes_to_vec, lemma_lex_asymmetric, lemma_lex_irreflexive,
    lemma_lex_total, lemma_lex_transitive, lex_le, lex_lt,
};
use crate::codec::{key_of, lemma_key_of_value, supported, value_of};
use crate::error::ViewerError;
use crate::index::{
    current_term, cursor_advance, cursor_doc_freq, cursor_key, cursor_pos, cursor_terms,
    field_indexing, field_named, field_value_type, find_field, index_field_names,
    index_has_field, index_reader, inverted_index, lemma_known_field, on_term, open_cursor,
    reader_searcher, reader_terms, segment_count, segment_terms, shows_index, snapshot_schema,
    snapshot_segments, terms_sorted, Indexing, TermCursor, TermEntry,
};
use crate::ranking::{
    add_count, aggregate, all_keys_ascending, any_has_key, clamp_count, freq_in, has_key,
    has_tally, is_aggregate, is_top_k, keys_ascending, lemma_aggregate_unique, lemma_freq_at,
    lemma_top_k_unique, offer, tallies, tallies_ascending, top_k, total_freq, KeyCount, Tally,
};
use crate::value::{TantivyValue, ValueType};

verus! {

/// A term with the number of documents that contain it, over all segments.
#[derive(Eq, PartialEq, Ord, PartialOrd, Debug)]
pub struct TermCount {
    pub count: i64,
    pub term: TantivyValue,
}

/// The most frequent terms of a field, the most frequent first.
#[derive(Debug)]
pub struct TopTerms {
    pub terms: Vec<TermCount>,
}

impl View for TermCount {
    type V = Tally;

    open spec fn view(&self) -> Tally {
        Tally { key: key_of(self.term@), count: self.count as int }
    }
}

impl TopTerms {
    /// The terms by key, with their counts, in the order of the list.
    pub open spec fn tallies(&self) -> Seq<Tally> {
        Seq::new(self.terms@.len(), |i: int| self.terms@[i]@)
    }
}

/// The dictionaries of a field, one for each segment of the snapshot.
pub open spec fn field_dicts(searcher: tantivy::Searcher, field: int) -> Seq<Seq<TermEntry>> {
    Seq::new(snapshot_segments(searcher).len(), |seg: int| segment_terms(searcher, seg, field))
}

/// What `top_terms_in` owes for a field that the schema has under id `field`.
///
/// With `all` the aggregate of the field's dictionaries and `best` the `k`
/// first of `all` by rank: the list holds the terms of `best` in that order,
/// each with its count and the value that its key stands for; the call fails
/// with `InvalidTermValue` only where a key of `best` stands for no value.
pub open spec fn top_terms_of_field(
    searcher: tantivy::Searcher,
    field: int,
    k: nat,
    r: Result<TopTerms, ViewerError>,
) -> bool {
    let ty = snapshot_schema(searcher)[field].value_type;
    let dicts = field_dicts(searcher, field);
    let all = aggregate(dicts);
    let best = top_k(all, k);
    if k == 0 {
        r matches Ok(t) && t.terms@.len() == 0
    } else if snapshot_schema(searcher)[field].indexing == Indexing::NotIndexed {
        r matches Err(ViewerError::UnsupportedFieldAccess)
    } else if !supported(ty) {
        r matches Err(ViewerError::Unimplemented)
    } else {
        match r {
            Ok(t) => {
                &&& all_keys_ascending(dicts)
                &&& is_aggregate(all, dicts)
                &&& is_top_k(best, all, k)
                &&& t.tallies() == best
                &&& forall|i: int|
                    0 <= i < t.terms@.len() ==> Some((#[trigger] t.terms@[i]).term@) == value_of(
                        best[i].key,
                        ty,
                    )
            },
            Err(ViewerError::InvalidTermValue) => {
                &&& is_aggregate(all, dicts)
                &&& is_top_k(best, all, k)
                &&& exists|i: int|
                    0 <= i < best.len() && value_of((#[trigger] best[i]).key, ty) is None
            },
            Err(ViewerError::Storage(_)) => snapshot_segments(searcher).len() > 0,
            Err(_) => false,
        }
    }
}

/// What `top_terms_in` owes: `FieldNotFound` where the schema has no field of
/// that name, and else what `top_terms_of_field` says.
pub open spec fn top_terms_outcome(
    searcher: tantivy::Searcher,
    field: Seq<char>,
    k: nat,
    r: Result<TopTerms, ViewerError>,
) -> bool {
    &&& (forall|id: int| !field_named(snapshot_schema(searcher), field, id)) ==> (r matches Err(
        ViewerError::FieldNotFound,
    ))
    &&& forall|id: int| #[trigger]
        field_named(snapshot_schema(searcher), field, id) ==> top_terms_of_field(
            searcher,
            id,
            k,
            r,
        )
}

/// The number of terms that the cursors have yet to pass.
pub open spec fn pending(cursors: Seq<TermCursor<'_>>) -> int
    decreases cursors.len(),
{
    if cursors.len() == 0 {
        0
    } else {
        pending(cursors.drop_last()) + (cursor_terms(cursors.last()).len() - cursor_pos(
            cursors.last(),
        ))
    }
}

/// Cursor `s` walks dictionary `s`, and stands in it or at its end.
pub open spec fn cursors_on(cursors: Seq<TermCursor<'_>>, dicts: Seq<Seq<TermEntry>>) -> bool {
    &&& cursors.len() == dicts.len()
    &&& forall|s: int|
        0 <= s < cursors.len() ==> cursor_terms(#[trigger] cursors[s]) == dicts[s] && 0
            <= cursor_pos(cursors[s]) <= dicts[s].len()
}

/// The merge has come this far: `seen` holds, in key order and with its
/// aggregate count, each key that some cursor has passed, and every key that
/// a cursor shows is larger than all of them.
pub open spec fn merged_so_far(
    seen: Seq<Tally>,
    cursors: Seq<TermCursor<'_>>,
    dicts: Seq<Seq<TermEntry>>,
) -> bool {
    &&& tallies_ascending(seen)
    &&& forall|n: int|
        0 <= n < seen.len() ==> any_has_key(dicts, (#[trigger] seen[n]).key) && seen[n].count
            == clamp_count(total_freq(dicts, seen[n].key))
    &&& forall|s: int, j: int|
        0 <= s < dicts.len() && 0 <= j < cursor_pos(cursors[s]) ==> has_tally(
            seen,
            (#[trigger] dicts[s][j]).key,
        )
    &&& forall|n: int, s: int|
        0 <= n < seen.len() && 0 <= s < cursors.len() && on_term(#[trigger] cursors[s])
            ==> lex_lt((#[trigger] seen[n]).key, current_term(cursors[s]).key)
}

/// How one round of the merge moves cursor `s`: past its term where it shows
/// `key`, and not at all where it shows another key or none.
pub open spec fn moved_past(
    before: TermCursor<'_>,
    after: TermCursor<'_>,
    key: Seq<u8>,
) -> bool {
    &&& cursor_terms(after) == cursor_terms(before)
    &&& cursor_pos(after) == if on_term(before) && current_term(before).key == key {
        cursor_pos(before) + 1
    } else {
        cursor_pos(before)
    }
}

proof fn lemma_pending_nonnegative(cursors: Seq<TermCursor<'_>>, dicts: Seq<Seq<TermEntry>>)
    requires
        cursors_on(cursors, dicts),
    ensures
        pending(cursors) >= 0,
    decreases cursors.len(),
{
    if cursors.len() > 0 {
        let n = cursors.len() - 1;
        assert(cursor_terms(cursors[n]) == dicts[n]);
        assert forall|s: int| 0 <= s < n implies cursor_terms(
            #[trigger] cursors.drop_last()[s],
        ) == dicts.drop_last()[s] && 0 <= cursor_pos(cursors.drop_last()[s])
            <= dicts.drop_last()[s].len() by {
            assert(cursors.drop_last()[s] == cursors[s]);
        }
        lemma_pending_nonnegative(cursors.drop_last(), dicts.drop_last());
    }
}

/// Moving one cursor on by one term takes one from the number pending.
proof fn lemma_pending_step(before: Seq<TermCursor<'_>>, after: Seq<TermCursor<'_>>, s: int)
    requires
        0 <= s < before.len(),
        after.len() == before.len(),
        forall|t: int| 0 <= t < before.len() && t != s ==> after[t] == before[t],
        cursor_terms(after[s]) == cursor_terms(before[s]),
        cursor_pos(after[s]) == cursor_pos(before[s]) + 1,
    ensures
        pending(after) == pending(before) - 1,
    decreases before.len(),
{
    let n = before.len() - 1;
    if s == n {
        assert(after.drop_last() =~= before.drop_last());
    } else {
        assert(after[n] == before[n]);
        lemma_pending_step(before.drop_last(), after.drop_last(), s);
    }
}

/// Adding the frequencies of the first `s + 1` dictionaries takes the sum of
/// the first `s` and adds that of dictionary `s`.
proof fn lemma_total_freq_step(dicts: Seq<Seq<TermEntry>>, s: int, key: Seq<u8>)
    requires
        0 <= s < dicts.len(),
    ensures
        total_freq(dicts.take(s + 1), key) == total_freq(dicts.take(s), key) + freq_in(
            dicts[s],
            key,
        ),
{
    assert(dicts.take(s + 1).drop_last() =~= dicts.take(s));
}

/// A dictionary whose cursor shows a key larger than `key`, after keys that
/// are all smaller, does not have `key`.
proof fn lemma_key_absent(
    seen: Seq<Tally>,
    cursors: Seq<TermCursor<'_>>,
    dicts: Seq<Seq<TermEntry>>,
    s: int,
    key: Seq<u8>,
)
    requires
        cursors_on(cursors, dicts),
        merged_so_far(seen, cursors, dicts),
        0 <= s < dicts.len(),
        keys_ascending(dicts[s]),
        forall|n: int| 0 <= n < seen.len() ==> lex_lt((#[trigger] seen[n]).key, key),
        on_term(cursors[s]) ==> lex_lt(key, current_term(cursors[s]).key),
    ensures
        !has_key(dicts[s], key),
        freq_in(dicts[s], key) == 0,
{
    let dict = dicts[s];
    let pos = cursor_pos(cursors[s]);
    assert(cursor_terms(cursors[s]) == dict);
    assert forall|j: int| 0 <= j < dict.len() implies (#[trigger] dict[j]).key != key by {
        if j < pos {
            assert(has_tally(seen, dicts[s][j].key));
            lemma_lex_irreflexive(key);
        } else if j == pos {
            lemma_lex_irreflexive(key);
        } else {
            assert(lex_lt(dict[pos].key, dict[j].key));
            lemma_lex_asymmetric(dict[pos].key, dict[j].key);
        }
    }
}

/// One round of the merge keeps what the merge has established.
proof fn lemma_round(
    seen: Seq<Tally>,
    before: Seq<TermCursor<'_>>,
    after: Seq<TermCursor<'_>>,
    dicts: Seq<Seq<TermEntry>>,
    entry: Tally,
)
    requires
        cursors_on(before, dicts),
        merged_so_far(seen, before, dicts),
        all_keys_ascending(dicts),
        after.len() == before.len(),
        forall|s: int|
            0 <= s < before.len() ==> moved_past(#[trigger] before[s], after[s], entry.key),
        any_has_key(dicts, entry.key),
        entry.count == clamp_count(total_freq(dicts, entry.key)),
        forall|n: int| 0 <= n < seen.len() ==> lex_lt((#[trigger] seen[n]).key, entry.key),
        forall|s: int|
            0 <= s < before.len() && on_term(#[trigger] before[s]) ==> lex_le(
                entry.key,
                current_term(before[s]).key,
            ),
    ensures
        cursors_on(after, dicts),
        merged_so_far(seen.push(entry), after, dicts),
{
    let grown = seen.push(entry);
    let last = seen.len() as int;
    assert forall|s: int| 0 <= s < after.len() implies cursor_terms(#[trigger] after[s])
        == dicts[s] && 0 <= cursor_pos(after[s]) <= dicts[s].len() by {
        assert(moved_past(before[s], after[s], entry.key));
        assert(cursor_terms(before[s]) == dicts[s]);
    }
    assert forall|n: int| 0 <= n < grown.len() implies any_has_key(
        dicts,
        (#[trigger] grown[n]).key,
    ) && grown[n].count == clamp_count(total_freq(dicts, grown[n].key)) by {
        if n < last {
            assert(grown[n] == seen[n]);
        }
    }
    assert forall|s: int, j: int|
        0 <= s < dicts.len() && 0 <= j < cursor_pos(after[s]) implies has_tally(
        grown,
        (#[trigger] dicts[s][j]).key,
    ) by {
        assert(moved_past(before[s], after[s], entry.key));
        assert(cursor_terms(before[s]) == dicts[s]);
        if j < cursor_pos(before[s]) {
            assert(has_tally(seen, dicts[s][j].key));
            let n = choose|n: int| 0 <= n < seen.len() && (#[trigger] seen[n]).key == dicts[s][j].key;
            assert(grown[n].key == dicts[s][j].key);
        } else {
            assert(grown[last].key == dicts[s][j].key);
        }
    }
    assert forall|n: int, s: int|
        0 <= n < grown.len() && 0 <= s < after.len() && on_term(
            #[trigger] after[s],
        ) implies lex_lt((#[trigger] grown[n]).key, current_term(after[s]).key) by {
        assert(moved_past(before[s], after[s], entry.key));
        assert(cursor_terms(before[s]) == dicts[s]);
        assert(keys_ascending(dicts[s]));
        let shown = current_term(after[s]).key;
        // the key just taken is smaller than the one the cursor shows now
        assert(lex_lt(entry.key, shown)) by {
            if on_term(before[s]) && current_term(before[s]).key == entry.key {
                assert(lex_lt(
                    dicts[s][cursor_pos(before[s])].key,
                    dicts[s][cursor_pos(after[s])].key,
                ));
            } else {
                assert(on_term(before[s]));
                assert(lex_le(entry.key, current_term(before[s]).key));
            }
        }
        if n < last {
            assert(grown[n] == seen[n]);
            lemma_lex_transitive(seen[n].key, entry.key, shown);
        }
    }
    assert(tallies_ascending(grown)) by {
        assert forall|i: int, j: int| 0 <= i < j < grown.len() implies lex_lt(
            grown[i].key,
            grown[j].key,
        ) by {
            if j < last {
                assert(grown[i] == seen[i] && grown[j] == seen[j]);
            } else {
                assert(grown[i] == seen[i]);
            }
        }
    }
}

/// Once every cursor has passed its last term, what the merge has seen is the
/// aggregate.
proof fn lemma_merge_done(
    seen: Seq<Tally>,
    cursors: Seq<TermCursor<'_>>,
    dicts: Seq<Seq<TermEntry>>,
)
    requires
        cursors_on(cursors, dicts),
        merged_so_far(seen, cursors, dicts),
        forall|s: int| 0 <= s < cursors.len() ==> !on_term(#[trigger] cursors[s]),
    ensures
        is_aggregate(seen, dicts),
        seen == aggregate(dicts),
{
    assert forall|s: int, j: int|
        0 <= s < dicts.len() && 0 <= j < dicts[s].len() implies has_tally(
        seen,
        (#[trigger] dicts[s][j]).key,
    ) by {
        assert(!on_term(cursors[s]));
        assert(cursor_terms(cursors[s]) == dicts[s]);
    }
    assert(is_aggregate(seen, dicts));
    lemma_aggregate_unique(seen, aggregate(dicts), dicts);
}

/// A reader on the field's dictionary in each segment of the snapshot.
fn open_readers(searcher: &tantivy::Searcher, field: u32) -> (r: Result<
    Vec<Arc<tantivy::InvertedIndexReader>>,
    ViewerError,
>)
    requires
        field < snapshot_schema(*searcher).len(),
    ensures
        r matches Ok(readers) ==> readers@.len() == snapshot_segments(*searcher).len()
            && forall|s: int|
            0 <= s < readers@.len() ==> reader_terms(*#[trigger] readers@[s]) == segment_terms(
                *searcher,
                s,
                field as int,
            ) && terms_sorted(reader_terms(*readers@[s])),
        r matches Err(e) ==> e is Storage && snapshot_segments(*searcher).len() > 0,
{
    let n = segment_count(searcher);
    let mut readers: Vec<Arc<tantivy::InvertedIndexReader>> = Vec::new();
    let mut seg: usize = 0;
    while seg < n
        invariant
            n == snapshot_segments(*searcher).len(),
            field < snapshot_schema(*searcher).len(),
            seg <= n,
            readers@.len() == seg,
            forall|s: int|
                0 <= s < seg ==> reader_terms(*#[trigger] readers@[s]) == segment_terms(
                    *searcher,
                    s,
                    field as int,
                ) && terms_sorted(reader_terms(*readers@[s])),
        decreases n - seg,
    {
        match inverted_index(searcher, seg, field) {
            Ok(reader) => {
                readers.push(reader);
            },
            Err(e) => {
                return Err(ViewerError::Storage(e));
            },
        }
        seg = seg + 1;
    }
    Ok(readers)
}

/// A cursor on each reader's dictionary, placed on its first term.
fn open_cursors<'a>(readers: &'a Vec<Arc<tantivy::InvertedIndexReader>>) -> (r: Result<
    (Vec<TermCursor<'a>>, Vec<bool>),
    ViewerError,
>)
    ensures
        r matches Ok((cursors, live)) ==> cursors@.len() == readers@.len() && live@.len()
            == readers@.len() && forall|s: int|
            0 <= s < cursors@.len() ==> cursor_terms(#[trigger] cursors@[s]) == reader_terms(
                *readers@[s],
            ) && cursor_pos(cursors@[s]) == 0 && live@[s] == on_term(cursors@[s]),
        r matches Err(e) ==> e is Storage && readers@.len() > 0,
{
    let mut cursors: Vec<TermCursor<'a>> = Vec::new();
    let mut live: Vec<bool> = Vec::new();
    let mut s: usize = 0;
    while s < readers.len()
        invariant
            s <= readers@.len(),
            cursors@.len() == s,
            live@.len() == s,
            forall|t: int|
                0 <= t < s ==> cursor_terms(#[trigger] cursors@[t]) == reader_terms(*readers@[t])
                    && cursor_pos(cursors@[t]) == 0 && live@[t] == on_term(cursors@[t]),
        decreases readers@.len() - s,
    {
        match open_cursor(&readers[s]) {
            Ok(cursor) => {
                let mut cursor = cursor;
                let first = cursor_advance(&mut cursor);
                cursors.push(cursor);
                live.push(first);
            },
            Err(e) => {
                return Err(ViewerError::Storage(e));
            },
        }
        s = s + 1;
    }
    Ok((cursors, live))
}

/// The cursor that shows the smallest key, or the number of cursors where
/// none shows a key.
fn smallest_head(cursors: &Vec<TermCursor<'_>>, live: &Vec<bool>) -> (best: usize)
    requires
        live@.len() == cursors@.len(),
        forall|s: int| 0 <= s < cursors@.len() ==> live@[s] == on_term(#[trigger] cursors@[s]),
    ensures
        best <= cursors@.len(),
        best < cursors@.len() ==> on_term(cursors@[best as int]) && forall|s: int|
            0 <= s < cursors@.len() && on_term(#[trigger] cursors@[s]) ==> lex_le(
                current_term(cursors@[best as int]).key,
                current_term(cursors@[s]).key,
            ),
        best == cursors@.len() ==> forall|s: int|
            0 <= s < cursors@.len() ==> !on_term(#[trigger] cursors@[s]),
{
    let n = cursors.len();
    let mut best: usize = n;
    let mut s: usize = 0;
    while s < n
        invariant
            n == cursors@.len(),
            live@.len() == n,
            forall|t: int| 0 <= t < n ==> live@[t] == on_term(#[trigger] cursors@[t]),
            s <= n,
            best <= n,
            best < n ==> best < s && on_term(cursors@[best as int]) && forall|t: int|
                0 <= t < s && on_term(#[trigger] cursors@[t]) ==> lex_le(
                    current_term(cursors@[best as int]).key,
                    current_term(cursors@[t]).key,
                ),
            best == n ==> forall|t: int| 0 <= t < s ==> !on_term(#[trigger] cursors@[t]),
        decreases n - s,
    {
        if live[s] {
            if best == n {
                best = s;
            } else {
                let smaller = bytes_lt(cursor_key(&cursors[s]), cursor_key(&cursors[best]));
                proof {
                    let here = current_term(cursors@[s as int]).key;
                    let least = current_term(cursors@[best as int]).key;
                    if smaller {
                        assert forall|t: int|
                            0 <= t < s && on_term(#[trigger] cursors@[t]) implies lex_le(
                            here,
                            current_term(cursors@[t]).key,
                        ) by {
                            let other = current_term(cursors@[t]).key;
                            if least != other {
                                lemma_lex_transitive(here, least, other);
                            }
                        }
                    } else {
                        lemma_lex_total(here, least);
                    }
                }
                if smaller {
                    best = s;
                }
            }
        }
        s = s + 1;
    }
    best
}

/// One round of the merge: adds up the document frequencies of the cursors
/// that show `key`, and moves those cursors on.
fn take_key(
    cursors: &mut Vec<TermCursor<'_>>,
    live: &mut Vec<bool>,
    key: &Vec<u8>,
    Ghost(seen): Ghost<Seq<Tally>>,
    Ghost(dicts): Ghost<Seq<Seq<TermEntry>>>,
    Ghost(best): Ghost<int>,
) -> (count: i64)
    requires
        cursors_on(old(cursors)@, dicts),
        merged_so_far(seen, old(cursors)@, dicts),
        all_keys_ascending(dicts),
        old(live)@.len() == old(cursors)@.len(),
        forall|s: int|
            0 <= s < old(cursors)@.len() ==> old(live)@[s] == on_term(#[trigger] old(cursors)@[s]),
        0 <= best < old(cursors)@.len(),
        on_term(old(cursors)@[best]),
        current_term(old(cursors)@[best]).key == key@,
        forall|s: int|
            0 <= s < old(cursors)@.len() && on_term(#[trigger] old(cursors)@[s]) ==> lex_le(
                key@,
                current_term(old(cursors)@[s]).key,
            ),
    ensures
        final(cursors)@.len() == old(cursors)@.len(),
        final(live)@.len() == old(cursors)@.len(),
        forall|s: int|
            0 <= s < old(cursors)@.len() ==> moved_past(
                #[trigger] old(cursors)@[s],
                final(cursors)@[s],
                key@,
            ),
        forall|s: int|
            0 <= s < final(cursors)@.len() ==> final(live)@[s] == on_term(
                #[trigger] final(cursors)@[s],
            ),
        count == clamp_count(total_freq(dicts, key@)),
        pending(final(cursors)@) < pending(old(cursors)@),
{
    let n = cursors.len();
    let mut count: i64 = 0;
    let mut s: usize = 0;
    proof {
        assert(dicts.take(0) =~= Seq::<Seq<TermEntry>>::empty());
        assert forall|n: int| 0 <= n < seen.len() implies lex_lt(
            (#[trigger] seen[n]).key,
            key@,
        ) by {
            assert(on_term(old(cursors)@[best]));
        }
    }
    while s < n
        invariant
            n == old(cursors)@.len(),
            cursors@.len() == n,
            live@.len() == n,
            s <= n,
            cursors_on(old(cursors)@, dicts),
            merged_so_far(seen, old(cursors)@, dicts),
            all_keys_ascending(dicts),
            0 <= best < n,
            on_term(old(cursors)@[best]),
            current_term(old(cursors)@[best]).key == key@,
            forall|n: int| 0 <= n < seen.len() ==> lex_lt((#[trigger] seen[n]).key, key@),
            forall|t: int|
                0 <= t < n && on_term(#[trigger] old(cursors)@[t]) ==> lex_le(
                    key@,
                    current_term(old(cursors)@[t]).key,
                ),
            forall|t: int| s <= t < n ==> cursors@[t] == old(cursors)@[t],
            forall|t: int| s <= t < n ==> live@[t] == on_term(#[trigger] old(cursors)@[t]),
            forall|t: int|
                0 <= t < s ==> moved_past(#[trigger] old(cursors)@[t], cursors@[t], key@),
            forall|t: int| 0 <= t < s ==> live@[t] == on_term(#[trigger] cursors@[t]),
            count >= 0,
            count == clamp_count(total_freq(dicts.take(s as int), key@)),
            pending(cursors@) <= pending(old(cursors)@),
            s > best ==> pending(cursors@) < pending(old(cursors)@),
        decreases n - s,
    {
        let ghost round_start = cursors@;
        let ghost here = old(cursors)@[s as int];
        proof {
            lemma_total_freq_step(dicts, s as int, key@);
            assert(cursor_terms(here) == dicts[s as int]);
            assert(keys_ascending(dicts[s as int]));
        }
        let mut shows_key = false;
        if live[s] {
            shows_key = bytes_eq(cursor_key(&cursors[s]), key.as_slice());
        }
        if shows_key {
            let doc_freq = cursor_doc_freq(&cursors[s]);
            proof {
                lemma_freq_at(dicts[s as int], cursor_pos(here));
            }
            count = add_count(count, doc_freq);
            let more = cursor_advance(&mut cursors[s]);
            live[s] = more;
            proof {
                lemma_pending_step(round_start, cursors@, s as int);
            }
        } else {
            proof {
                if on_term(here) {
                    assert(lex_le(key@, current_term(here).key));
                }
                lemma_key_absent(seen, old(cursors)@, dicts, s as int, key@);
            }
        }
        s = s + 1;
    }
    proof {
        assert(dicts.take(n as int) =~= dicts);
    }
    count
}

/// Merges the cursors and selects the `k` first keys by rank.
fn merge_top(
    cursors: &mut Vec<TermCursor<'_>>,
    live: &mut Vec<bool>,
    k: usize,
    Ghost(dicts): Ghost<Seq<Seq<TermEntry>>>,
) -> (sel: Vec<KeyCount>)
    requires
        old(cursors)@.len() == dicts.len(),
        old(live)@.len() == dicts.len(),
        all_keys_ascending(dicts),
        forall|s: int|
            0 <= s < dicts.len() ==> cursor_terms(#[trigger] old(cursors)@[s]) == dicts[s]
                && cursor_pos(old(cursors)@[s]) == 0 && old(live)@[s] == on_term(
                old(cursors)@[s],
            ),
    ensures
        is_aggregate(aggregate(dicts), dicts),
        is_top_k(tallies(sel@), aggregate(dicts), k as nat),
{
    let mut sel: Vec<KeyCount> = Vec::new();
    let ghost mut seen: Seq<Tally> = Seq::empty();
    proof {
        assert(is_top_k(tallies(sel@), seen, k as nat));
    }
    loop
        invariant_except_break
            cursors_on(cursors@, dicts),
            merged_so_far(seen, cursors@, dicts),
            all_keys_ascending(dicts),
            live@.len() == cursors@.len(),
            forall|s: int| 0 <= s < cursors@.len() ==> live@[s] == on_term(#[trigger] cursors@[s]),
            is_top_k(tallies(sel@), seen, k as nat),
        ensures
            is_aggregate(aggregate(dicts), dicts),
            is_top_k(tallies(sel@), aggregate(dicts), k as nat),
        decreases pending(cursors@),
    {
        let best = smallest_head(cursors, live);
        if best == cursors.len() {
            proof {
                lemma_merge_done(seen, cursors@, dicts);
            }
            break ;
        }
        let key = bytes_to_vec(cursor_key(&cursors[best]));
        let ghost before = cursors@;
        let count = take_key(cursors, live, &key, Ghost(seen), Ghost(dicts), Ghost(best as int));
        let ghost entry = Tally { key: key@, count: count as int };
        proof {
            assert(any_has_key(dicts, key@)) by {
                assert(cursor_terms(before[best as int]) == dicts[best as int]);
                assert(has_key(dicts[best as int], key@));
            }
            assert forall|n: int| 0 <= n < seen.len() implies lex_lt(
                (#[trigger] seen[n]).key,
                key@,
            ) by {
                assert(on_term(before[best as int]));
            }
            lemma_round(seen, before, cursors@, dicts, entry);
            lemma_pending_nonnegative(cursors@, dicts);
        }
        offer(&mut sel, k, key, count, Ghost(seen));
        proof {
            seen = seen.push(entry);
        }
    }
    sel
}

/// The value of each selected key, in the order of the selection.
fn decode_selection(sel: Vec<KeyCount>, ty: ValueType) -> (r: Result<TopTerms, ViewerError>)
    requires
        supported(ty),
    ensures
        match r {
            Ok(t) => {
                &&& t.tallies() == tallies(sel@)
                &&& forall|i: int|
                    0 <= i < t.terms@.len() ==> Some((#[trigger] t.terms@[i]).term@) == value_of(
                        sel@[i].key@,
                        ty,
                    )
            },
            Err(ViewerError::InvalidTermValue) => exists|i: int|
                0 <= i < sel@.len() && value_of((#[trigger] sel@[i]).key@, ty) is None,
            Err(_) => false,
        },
{
    let mut terms: Vec<TermCount> = Vec::new();
    let mut i: usize = 0;
    while i < sel.len()
        invariant
            supported(ty),
            i <= sel@.len(),
            terms@.len() == i,
            forall|j: int|
                0 <= j < i ==> Some((#[trigger] terms@[j]).term@) == value_of(sel@[j].key@, ty)
                    && terms@[j].count == sel@[j].count,
        decreases sel@.len() - i,
    {
        match TantivyValue::from_term(sel[i].key.as_slice(), ty) {
            Ok(term) => {
                terms.push(TermCount { count: sel[i].count, term });
            },
            Err(_) => {
                return Err(ViewerError::InvalidTermValue);
            },
        }
        i = i + 1;
    }
    let top = TopTerms { terms };
    proof {
        assert forall|j: int| 0 <= j < top.terms@.len() implies top.tallies()[j] == tallies(
            sel@,
        )[j] by {
            assert(Some(top.terms@[j].term@) == value_of(sel@[j].key@, ty));
            lemma_key_of_value(sel@[j].key@, ty);
        }
        assert(top.tallies() =~= tallies(sel@));
    }
    Ok(top)
}

/// The `k` most frequent terms of a field in a snapshot.
///
/// A term's count is the sum of the document frequencies that the segments
/// record for it; deleted documents are counted. The list is in rank order:
/// the larger count first, and of two terms with one count the one with the
/// smaller key first. A count that does not fit an `i64` is reported as the
/// largest `i64`. With `k` zero the list is empty, whatever the field holds.
///
/// Fails with `FieldNotFound` where the schema has no such field, with
/// `UnsupportedFieldAccess` where the field is not indexed, with
/// `Unimplemented` where the codec does not handle the field's type, and with
/// `InvalidTermValue` where a selected key encodes no value of that type. A
/// snapshot without segments is not read, and gives an empty list.
pub fn top_terms_in(searcher: &tantivy::Searcher, field: &str, k: usize) -> (r: Result<
    TopTerms,
    ViewerError,
>)
    ensures
        top_terms_outcome(*searcher, field@, k as nat, r),
{
    let id = match find_field(searcher, field) {
        Some(id) => id,
        None => {
            return Err(ViewerError::FieldNotFound);
        },
    };
    assert(field_named(snapshot_schema(*searcher), field@, id as int));
    if k == 0 {
        return Ok(TopTerms { terms: Vec::new() });
    }
    if let Indexing::NotIndexed = field_indexing(searcher, id) {
        return Err(ViewerError::UnsupportedFieldAccess);
    }
    let ty = field_value_type(searcher, id);
    match ty {
        ValueType::Str | ValueType::U64 | ValueType::I64 | ValueType::Bytes => {},
        _ => {
            return Err(ViewerError::Unimplemented);
        },
    }
    let ghost dicts = field_dicts(*searcher, id as int);
    let readers = match open_readers(searcher, id) {
        Ok(readers) => readers,
        Err(e) => {
            return Err(e);
        },
    };
    let (mut cursors, mut live) = match open_cursors(&readers) {
        Ok(pair) => pair,
        Err(e) => {
            return Err(e);
        },
    };
    proof {
        assert forall|s: int| 0 <= s < dicts.len() implies keys_ascending(#[trigger] dicts[s]) by {
            assert(terms_sorted(reader_terms(*readers@[s])));
        }
    }
    let sel = merge_top(&mut cursors, &mut live, k, Ghost(dicts));
    let ghost chosen = sel@;
    let r = decode_selection(sel, ty);
    proof {
        let best = top_k(aggregate(dicts), k as nat);
        assert(is_top_k(tallies(chosen), aggregate(dicts), k as nat));
        lemma_top_k_unique(tallies(chosen), best, aggregate(dicts), k as nat);
        assert forall|i: int| 0 <= i < chosen.len() implies (#[trigger] best[i]).key
            == chosen[i].key@ by {
            assert(tallies(chosen)[i] == chosen[i]@);
        }
        if r is Err {
            let i = choose|i: int|
                0 <= i < chosen.len() && value_of((#[trigger] chosen[i]).key@, ty) is None;
            assert(value_of(best[i].key, ty) is None);
        }
    }
    r
}

/// The `k` most frequent terms of a field of an index, in the snapshot that
/// a new reader on the index shows. With `k` zero the list is empty, and the
/// index is not read.
pub fn top_terms(index: &tantivy::Index, field: &str, k: usize) -> (r: Result<
    TopTerms,
    ViewerError,
>)
    ensures
        (r matches Err(ViewerError::FieldNotFound)) <==> !index_field_names(*index).contains(
            field@,
        ),
        index_field_names(*index).contains(field@) && k == 0 ==> (r matches Ok(t)
            && t.terms@.len() == 0),
        index_field_names(*index).contains(field@) && k > 0 ==> ((r matches Err(
            ViewerError::Storage(_),
        )) || exists|searcher: tantivy::Searcher|
            shows_index(searcher, *index) && top_terms_outcome(searcher, field@, k as nat, r)),
{
    if !index_has_field(index, field) {
        return Err(ViewerError::FieldNotFound);
    }
    if k == 0 {
        return Ok(TopTerms { terms: Vec::new() });
    }
    let reader = match index_reader(index) {
        Ok(reader) => reader,
        Err(e) => {
            return Err(ViewerError::Storage(e));
        },
    };
    let searcher = reader_searcher(&reader);
    let r = top_terms_in(&searcher, field, k);
    proof {
        assert(shows_index(searcher, *index) && top_terms_outcome(searcher, field@, k as nat, r));
        lemma_known_field(searcher, *index, field@);
    }
    r
}

} // verus!
