//! Aggregate term counts and their ranking.
//!
//! A term's aggregate count is the sum of the document frequencies that the
//! segments' dictionaries record for it. Terms are ranked by count, the
//! larger first; of two terms with one count the one with the smaller key
//! comes first, so that the ranking of a set of terms is unique.

use vstd::prelude::*;
use crate::bytes::{
    lemma_lex_asymmetric, lemma_lex_irreflexive, lemma_lex_transitive, lex_lt,
};
use crate::index::TermEntry;

verus! {

/// A term, by its key, with a count.
pub struct Tally {
    pub key: Seq<u8>,
    pub count: int,
}

/// A key with its count, as the selection holds it.
pub struct KeyCount {
    pub key: Vec<u8>,
    pub count: i64,
}

impl View for KeyCount {
    type V = Tally;

    open spec fn view(&self) -> Tally {
        Tally { key: self.key@, count: self.count as int }
    }
}

/// The tallies that a sequence of key counts holds.
pub open spec fn tallies(s: Seq<KeyCount>) -> Seq<Tally> {
    Seq::new(s.len(), |i: int| s[i]@)
}

/// Whether a dictionary has a term with the key.
pub open spec fn has_key(dict: Seq<TermEntry>, key: Seq<u8>) -> bool {
    exists|i: int| 0 <= i < dict.len() && (#[trigger] dict[i]).key == key
}

/// The document frequency that a dictionary records for a key: 0 where it
/// lacks the key.
pub open spec fn freq_in(dict: Seq<TermEntry>, key: Seq<u8>) -> int {
    if has_key(dict, key) {
        let i = choose|i: int| 0 <= i < dict.len() && (#[trigger] dict[i]).key == key;
        dict[i].doc_freq as int
    } else {
        0
    }
}

/// The sum over all dictionaries of the document frequency of a key.
pub open spec fn total_freq(dicts: Seq<Seq<TermEntry>>, key: Seq<u8>) -> int
    decreases dicts.len(),
{
    if dicts.len() == 0 {
        0
    } else {
        total_freq(dicts.drop_last(), key) + freq_in(dicts.last(), key)
    }
}

/// Whether one of the dictionaries has a term with the key.
pub open spec fn any_has_key(dicts: Seq<Seq<TermEntry>>, key: Seq<u8>) -> bool {
    exists|s: int| 0 <= s < dicts.len() && has_key(#[trigger] dicts[s], key)
}

/// The sum of all document frequencies that a dictionary records.
pub open spec fn dict_weight(dict: Seq<TermEntry>) -> int
    decreases dict.len(),
{
    if dict.len() == 0 {
        0
    } else {
        dict_weight(dict.drop_last()) + dict.last().doc_freq as int
    }
}

/// The sum of all document frequencies that the dictionaries record: what a
/// scan of every term of every segment counts.
pub open spec fn total_weight(dicts: Seq<Seq<TermEntry>>) -> int
    decreases dicts.len(),
{
    if dicts.len() == 0 {
        0
    } else {
        total_weight(dicts.drop_last()) + dict_weight(dicts.last())
    }
}

/// The sum of the counts of a sequence of tallies.
pub open spec fn count_sum(t: Seq<Tally>) -> int
    decreases t.len(),
{
    if t.len() == 0 {
        0
    } else {
        count_sum(t.drop_last()) + t.last().count
    }
}

/// A count as the library reports it: the sum itself, or the largest `i64`
/// where the sum is larger still.
pub open spec fn clamp_count(total: int) -> int {
    if total > i64::MAX {
        i64::MAX as int
    } else {
        total
    }
}

/// The keys of the dictionary are strictly ascending.
pub open spec fn keys_ascending(dict: Seq<TermEntry>) -> bool {
    forall|i: int, j: int| 0 <= i < j < dict.len() ==> lex_lt(dict[i].key, dict[j].key)
}

/// Every dictionary has strictly ascending keys.
pub open spec fn all_keys_ascending(dicts: Seq<Seq<TermEntry>>) -> bool {
    forall|s: int| 0 <= s < dicts.len() ==> keys_ascending(#[trigger] dicts[s])
}

/// The tallies are in key order, strictly ascending.
pub open spec fn tallies_ascending(t: Seq<Tally>) -> bool {
    forall|i: int, j: int| 0 <= i < j < t.len() ==> lex_lt(t[i].key, t[j].key)
}

/// Whether one of the tallies is for the key.
pub open spec fn has_tally(t: Seq<Tally>, key: Seq<u8>) -> bool {
    exists|n: int| 0 <= n < t.len() && (#[trigger] t[n]).key == key
}

/// `m` is the aggregate of the dictionaries: one tally for each key that
/// some dictionary has, in key order, with the key's total frequency as its
/// count.
pub open spec fn is_aggregate(m: Seq<Tally>, dicts: Seq<Seq<TermEntry>>) -> bool {
    &&& tallies_ascending(m)
    &&& forall|n: int|
        0 <= n < m.len() ==> any_has_key(dicts, (#[trigger] m[n]).key) && m[n].count
            == clamp_count(total_freq(dicts, m[n].key))
    &&& forall|s: int, j: int|
        0 <= s < dicts.len() && 0 <= j < dicts[s].len() ==> has_tally(
            m,
            (#[trigger] dicts[s][j]).key,
        )
}

/// The aggregate of the dictionaries.
pub open spec fn aggregate(dicts: Seq<Seq<TermEntry>>) -> Seq<Tally> {
    choose|m: Seq<Tally>| is_aggregate(m, dicts)
}

/// `a` ranks strictly before `b`: it has the larger count, or the same count
/// and the smaller key.
pub open spec fn ranks_before(a: Tally, b: Tally) -> bool {
    a.count > b.count || (a.count == b.count && lex_lt(a.key, b.key))
}

/// The tallies are in rank order, each strictly before the next.
pub open spec fn ranked(sel: Seq<Tally>) -> bool {
    forall|i: int, j: int| 0 <= i < j < sel.len() ==> ranks_before(sel[i], sel[j])
}

/// `sel` holds the `k` first of `all` by rank, in rank order; all of them
/// where `all` has no more than `k`.
pub open spec fn is_top_k(sel: Seq<Tally>, all: Seq<Tally>, k: nat) -> bool {
    &&& sel.len() == if k <= all.len() {
        k
    } else {
        all.len()
    }
    &&& ranked(sel)
    &&& forall|i: int| 0 <= i < sel.len() ==> all.contains(#[trigger] sel[i])
    &&& forall|n: int, i: int|
        0 <= n < all.len() && 0 <= i < sel.len() && !sel.contains(all[n]) ==> ranks_before(
            #[trigger] sel[i],
            #[trigger] all[n],
        )
    &&& sel.len() == all.len() ==> forall|n: int|
        0 <= n < all.len() ==> sel.contains(#[trigger] all[n])
}

/// The `k` first of `all` by rank.
pub open spec fn top_k(all: Seq<Tally>, k: nat) -> Seq<Tally> {
    choose|sel: Seq<Tally>| is_top_k(sel, all, k)
}

/// Ranking is asymmetric: of two tallies at most one ranks before the other,
/// and none before itself.
pub proof fn lemma_ranks_asymmetric(a: Tally, b: Tally)
    requires
        ranks_before(a, b),
    ensures
        !ranks_before(b, a),
        a != b,
{
    if a.count == b.count {
        lemma_lex_asymmetric(a.key, b.key);
    }
}

/// Ranking is transitive.
pub proof fn lemma_ranks_transitive(a: Tally, b: Tally, c: Tally)
    requires
        ranks_before(a, b),
        ranks_before(b, c),
    ensures
        ranks_before(a, c),
{
    if a.count == b.count && b.count == c.count {
        lemma_lex_transitive(a.key, b.key, c.key);
    }
}

/// In a dictionary with ascending keys, the frequency of the key at a place
/// is the one recorded at that place.
pub proof fn lemma_freq_at(dict: Seq<TermEntry>, j: int)
    requires
        keys_ascending(dict),
        0 <= j < dict.len(),
    ensures
        has_key(dict, dict[j].key),
        freq_in(dict, dict[j].key) == dict[j].doc_freq,
{
    let key = dict[j].key;
    let i = choose|i: int| 0 <= i < dict.len() && (#[trigger] dict[i]).key == key;
    if i < j {
        lemma_lex_asymmetric(dict[i].key, dict[j].key);
    } else if j < i {
        lemma_lex_asymmetric(dict[j].key, dict[i].key);
    }
}

/// The selection of the `k` first by rank is unique.
pub proof fn lemma_top_k_unique(a: Seq<Tally>, b: Seq<Tally>, all: Seq<Tally>, k: nat)
    requires
        is_top_k(a, all, k),
        is_top_k(b, all, k),
    ensures
        a == b,
{
    assert forall|i: int| 0 <= i < a.len() implies a[i] == b[i] by {
        lemma_top_k_agree(a, b, all, k, i);
    }
    assert(a =~= b);
}

/// Two selections of the `k` first by rank agree at each place.
proof fn lemma_top_k_agree(a: Seq<Tally>, b: Seq<Tally>, all: Seq<Tally>, k: nat, i: int)
    requires
        is_top_k(a, all, k),
        is_top_k(b, all, k),
        0 <= i < a.len(),
    ensures
        a[i] == b[i],
    decreases i,
{
    assert forall|p: int| 0 <= p < i implies a[p] == b[p] by {
        lemma_top_k_agree(a, b, all, k, p);
    }
    if a[i] != b[i] {
        lemma_later_or_outside(a, b, all, k, i);
        lemma_later_or_outside(b, a, all, k, i);
        lemma_ranks_asymmetric(a[i], b[i]);
    }
}

/// Where two selections agree before place `i` and differ there, the second
/// one's tally at `i` ranks before the first one's.
proof fn lemma_later_or_outside(a: Seq<Tally>, b: Seq<Tally>, all: Seq<Tally>, k: nat, i: int)
    requires
        is_top_k(a, all, k),
        is_top_k(b, all, k),
        0 <= i < a.len(),
        forall|p: int| 0 <= p < i ==> a[p] == b[p],
        a[i] != b[i],
    ensures
        ranks_before(b[i], a[i]),
{
    let x = a[i];
    assert(all.contains(x));
    let n = choose|n: int| 0 <= n < all.len() && all[n] == x;
    if b.contains(x) {
        let p = choose|p: int| 0 <= p < b.len() && b[p] == x;
        if p < i {
            assert(a[p] == b[p]);
            lemma_ranks_asymmetric(a[p], a[i]);
        }
        assert(ranks_before(b[i], b[p]));
    } else {
        assert(ranks_before(b[i], all[n]));
    }
}

/// The aggregate of a family of dictionaries is unique.
pub proof fn lemma_aggregate_unique(m1: Seq<Tally>, m2: Seq<Tally>, dicts: Seq<Seq<TermEntry>>)
    requires
        is_aggregate(m1, dicts),
        is_aggregate(m2, dicts),
    ensures
        m1 == m2,
{
    lemma_same_keys_same_len(m1, m2, dicts);
    lemma_same_keys_same_len(m2, m1, dicts);
    assert forall|i: int| 0 <= i < m1.len() implies m1[i] == m2[i] by {
        lemma_aggregate_agree(m1, m2, dicts, i);
    }
    assert(m1 =~= m2);
}

/// The place in an aggregate of a key that some dictionary has.
proof fn lemma_aggregate_has(m: Seq<Tally>, dicts: Seq<Seq<TermEntry>>, key: Seq<u8>) -> (n: int)
    requires
        is_aggregate(m, dicts),
        any_has_key(dicts, key),
    ensures
        0 <= n < m.len(),
        m[n].key == key,
{
    let s = choose|s: int| 0 <= s < dicts.len() && has_key(#[trigger] dicts[s], key);
    let j = choose|j: int| 0 <= j < dicts[s].len() && (#[trigger] dicts[s][j]).key == key;
    assert(has_tally(m, dicts[s][j].key));
    let n = choose|n: int| 0 <= n < m.len() && (#[trigger] m[n]).key == key;
    n
}

/// Two aggregates of one family hold the same key at each place.
proof fn lemma_aggregate_agree(
    m1: Seq<Tally>,
    m2: Seq<Tally>,
    dicts: Seq<Seq<TermEntry>>,
    i: int,
)
    requires
        is_aggregate(m1, dicts),
        is_aggregate(m2, dicts),
        0 <= i < m1.len(),
        0 <= i < m2.len(),
    ensures
        m1[i] == m2[i],
    decreases i,
{
    assert forall|p: int| 0 <= p < i implies m1[p] == m2[p] by {
        lemma_aggregate_agree(m1, m2, dicts, p);
    }
    if m1[i].key != m2[i].key {
        lemma_key_later(m1, m2, dicts, i);
        lemma_key_later(m2, m1, dicts, i);
        lemma_lex_asymmetric(m1[i].key, m2[i].key);
    }
}

/// Where two aggregates agree before place `i` and hold different keys there,
/// the second one's key at `i` is the smaller.
proof fn lemma_key_later(m1: Seq<Tally>, m2: Seq<Tally>, dicts: Seq<Seq<TermEntry>>, i: int)
    requires
        is_aggregate(m1, dicts),
        is_aggregate(m2, dicts),
        0 <= i < m1.len(),
        0 <= i < m2.len(),
        forall|p: int| 0 <= p < i ==> m1[p] == m2[p],
        m1[i].key != m2[i].key,
    ensures
        lex_lt(m2[i].key, m1[i].key),
{
    let p = lemma_aggregate_has(m2, dicts, m1[i].key);
    if p < i {
        assert(m1[p] == m2[p]);
        lemma_lex_asymmetric(m1[p].key, m1[i].key);
    }
}

/// An aggregate is no longer than another aggregate of the same family.
proof fn lemma_same_keys_same_len(m1: Seq<Tally>, m2: Seq<Tally>, dicts: Seq<Seq<TermEntry>>)
    requires
        is_aggregate(m1, dicts),
        is_aggregate(m2, dicts),
    ensures
        m1.len() <= m2.len(),
{
    if m1.len() > m2.len() {
        let extra = m2.len() as int;
        let p = lemma_aggregate_has(m2, dicts, m1[extra].key);
        lemma_aggregate_agree(m1, m2, dicts, p);
        lemma_lex_asymmetric(m1[p].key, m1[extra].key);
    }
}

/// The counts of two tallies in rank order never ascend.
pub proof fn lemma_ranked_counts(sel: Seq<Tally>, i: int, j: int)
    requires
        ranked(sel),
        0 <= i <= j < sel.len(),
    ensures
        sel[i].count >= sel[j].count,
{
    if i < j {
        assert(ranks_before(sel[i], sel[j]));
    }
}

/// Adds `amount` to `count` and stops at the largest `i64`.
pub fn add_count(count: i64, amount: u32) -> (r: i64)
    requires
        count >= 0,
    ensures
        r == clamp_count(count + amount),
        r >= 0,
{
    let room: i64 = i64::MAX - count;
    if (amount as i64) > room {
        i64::MAX
    } else {
        count + (amount as i64)
    }
}

/// Offers one more tally to a selection of the `k` first by rank. The tally's
/// key is larger than every key offered before.
pub(crate) fn offer(sel: &mut Vec<KeyCount>, k: usize, key: Vec<u8>, count: i64, Ghost(seen): Ghost<
    Seq<Tally>,
>)
    requires
        is_top_k(tallies(old(sel)@), seen, k as nat),
        forall|n: int| 0 <= n < seen.len() ==> lex_lt((#[trigger] seen[n]).key, key@),
    ensures
        is_top_k(
            tallies(final(sel)@),
            seen.push(Tally { key: key@, count: count as int }),
            k as nat,
        ),
{
    let ghost before = tallies(sel@);
    let ghost entry = Tally { key: key@, count: count as int };
    let ghost grown = seen.push(entry);
    proof {
        assert forall|n: int| 0 <= n < seen.len() implies seen[n] != entry by {
            lemma_lex_irreflexive(key@);
        }
        assert forall|i: int| 0 <= i < before.len() implies before[i] != entry by {
            assert(seen.contains(before[i]));
        }
        assert forall|n: int| 0 <= n < seen.len() implies grown[n] == seen[n] by {}
    }
    if k == 0 {
        proof {
            assert(is_top_k(tallies(sel@), grown, 0));
        }
        return ;
    }
    let mut pos: usize = 0;
    while pos < sel.len() && sel[pos].count >= count
        invariant
            pos <= sel.len(),
            forall|i: int| 0 <= i < pos ==> (#[trigger] sel[i]).count >= count,
        decreases sel.len() - pos,
    {
        pos = pos + 1;
    }
    proof {
        assert forall|i: int| 0 <= i < pos implies ranks_before(#[trigger] before[i], entry) by {
            assert(sel[i].count >= count);
            assert(seen.contains(before[i]));
        }
        assert forall|i: int| pos <= i < before.len() implies ranks_before(
            entry,
            #[trigger] before[i],
        ) by {
            lemma_ranked_counts(before, pos as int, i);
        }
    }
    if pos == k {
        proof {
            assert forall|n: int, i: int|
                0 <= n < grown.len() && 0 <= i < before.len() && !before.contains(
                    grown[n],
                ) implies ranks_before(#[trigger] before[i], #[trigger] grown[n]) by {
                if n < seen.len() {
                    assert(grown[n] == seen[n]);
                }
            }
            assert forall|i: int| 0 <= i < before.len() implies grown.contains(
                #[trigger] before[i],
            ) by {
                let n = choose|n: int| 0 <= n < seen.len() && seen[n] == before[i];
                assert(grown[n] == before[i]);
            }
            assert(is_top_k(before, grown, k as nat));
        }
        return ;
    }
    let was_full = sel.len() == k;
    sel.insert(pos, KeyCount { key, count });
    let ghost widened = tallies(sel@);
    proof {
        assert(widened =~= before.insert(pos as int, entry));
        assert(ranked(widened)) by {
            assert forall|i: int, j: int| 0 <= i < j < widened.len() implies ranks_before(
                widened[i],
                widened[j],
            ) by {
                if j < pos {
                    assert(widened[i] == before[i] && widened[j] == before[j]);
                } else if j == pos {
                    assert(widened[i] == before[i]);
                } else if i < pos {
                    assert(widened[i] == before[i] && widened[j] == before[j - 1]);
                } else if i == pos {
                    assert(widened[j] == before[j - 1]);
                } else {
                    assert(widened[i] == before[i - 1] && widened[j] == before[j - 1]);
                }
            }
        }
    }
    if was_full {
        let dropped = sel.pop();
        proof {
            let after = tallies(sel@);
            let last = before[k - 1];
            assert(after =~= widened.drop_last());
            assert(ranks_before(entry, last));
            assert forall|i: int| 0 <= i < after.len() implies grown.contains(
                #[trigger] after[i],
            ) by {
                if i < pos {
                    assert(after[i] == before[i]);
                    let n = choose|n: int| 0 <= n < seen.len() && seen[n] == before[i];
                    assert(grown[n] == after[i]);
                } else if i == pos {
                    assert(grown[seen.len() as int] == entry);
                } else {
                    assert(after[i] == before[i - 1]);
                    let n = choose|n: int| 0 <= n < seen.len() && seen[n] == before[i - 1];
                    assert(grown[n] == after[i]);
                }
            }
            assert forall|i: int| 0 <= i < k - 1 implies after.contains(#[trigger] before[i]) by {
                if i < pos {
                    assert(after[i] == before[i]);
                } else {
                    assert(after[i + 1] == before[i]);
                }
            }
            assert forall|n: int, i: int|
                0 <= n < grown.len() && 0 <= i < after.len() && !after.contains(
                    grown[n],
                ) implies ranks_before(#[trigger] after[i], #[trigger] grown[n]) by {
                let x = grown[n];
                assert(after[pos as int] == entry);
                assert(x != entry);
                assert(x == seen[n]);
                // every tally of the selection ranks before, or is, the one dropped
                assert(after[i] == last || ranks_before(after[i], last)) by {
                    if i < pos {
                        assert(after[i] == before[i]);
                    } else if i > pos {
                        assert(after[i] == before[i - 1]);
                    }
                }
                if x != last {
                    assert(!before.contains(x)) by {
                        if before.contains(x) {
                            let q = choose|q: int| 0 <= q < before.len() && before[q] == x;
                            assert(q < k - 1);
                            assert(after.contains(before[q]));
                        }
                    }
                    assert(ranks_before(before[k - 1], seen[n]));
                    if after[i] != last {
                        lemma_ranks_transitive(after[i], last, x);
                    }
                }
            }
            assert(is_top_k(after, grown, k as nat));
        }
    } else {
        proof {
            assert(before.len() == seen.len());
            assert forall|i: int| 0 <= i < widened.len() implies grown.contains(
                #[trigger] widened[i],
            ) by {
                if i < pos {
                    let n = choose|n: int| 0 <= n < seen.len() && seen[n] == before[i];
                    assert(grown[n] == widened[i]);
                } else if i == pos {
                    assert(grown[seen.len() as int] == entry);
                } else {
                    let n = choose|n: int| 0 <= n < seen.len() && seen[n] == before[i - 1];
                    assert(grown[n] == widened[i]);
                }
            }
            assert forall|n: int| 0 <= n < grown.len() implies widened.contains(
                #[trigger] grown[n],
            ) by {
                if n < seen.len() {
                    assert(before.contains(seen[n]));
                    let q = choose|q: int| 0 <= q < before.len() && before[q] == seen[n];
                    if q < pos {
                        assert(widened[q] == grown[n]);
                    } else {
                        assert(widened[q + 1] == grown[n]);
                    }
                } else {
                    assert(widened[pos as int] == grown[n]);
                }
            }
            assert(is_top_k(widened, grown, k as nat));
        }
    }
}

} // verus!
