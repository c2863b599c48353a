//! The documents that a search collects, grouped by segment, and the caps
//! that a caller puts on them.

use vstd::prelude::*;
use crate::segment::{DocId, SegmentId};

verus! {

/// The documents of one segment.
pub type Group = (SegmentId, Vec<DocId>);

/// Collects the documents of a search, segment by segment.
#[derive(Debug)]
pub struct DocCollector {
    current_segment: Option<SegmentId>,
    current_segment_docs: Vec<DocId>,
    docs: Vec<Group>,
}

/// The groups as mathematics: each segment with its documents.
pub open spec fn group_views(groups: Seq<Group>) -> Seq<(SegmentId, Seq<DocId>)> {
    Seq::new(groups.len(), |i: int| (groups[i].0, groups[i].1@))
}

impl DocCollector {
    /// The groups that are finished.
    pub closed spec fn finished(&self) -> Seq<(SegmentId, Seq<DocId>)> {
        group_views(self.docs@)
    }

    /// The segment whose documents are being collected.
    pub closed spec fn segment(&self) -> Option<SegmentId> {
        self.current_segment
    }

    /// The documents collected of that segment so far.
    pub closed spec fn pending(&self) -> Seq<DocId> {
        self.current_segment_docs@
    }

    /// The groups that the collector gives once it is done: the finished
    /// ones, and the one being collected where there is one.
    pub open spec fn groups(&self) -> Seq<(SegmentId, Seq<DocId>)> {
        match self.segment() {
            Some(segment) => self.finished().push((segment, self.pending())),
            None => self.finished(),
        }
    }

    /// A collector that has collected nothing.
    pub fn new() -> (r: DocCollector)
        ensures
            r.finished().len() == 0,
            r.segment() is None,
            r.pending().len() == 0,
    {
        let r = DocCollector {
            current_segment: None,
            current_segment_docs: Vec::new(),
            docs: Vec::new(),
        };
        assert(r.finished() =~= Seq::empty());
        r
    }

    /// Closes the group of the segment being collected, where there is one.
    pub fn finish_segment(&mut self)
        ensures
            final(self).finished() == old(self).groups(),
            final(self).segment() == old(self).segment(),
            old(self).segment() is Some ==> final(self).pending().len() == 0,
            old(self).segment() is None ==> final(self).pending() == old(self).pending(),
    {
        if let Some(segment_id) = self.current_segment {
            let mut docs: Vec<DocId> = Vec::new();
            std::mem::swap(&mut self.current_segment_docs, &mut docs);
            self.docs.push((segment_id, docs));
            assert(self.finished() =~= old(self).groups());
        }
    }

    /// Starts the group of a segment, after closing the one before it.
    pub fn set_segment(&mut self, segment: SegmentId)
        ensures
            final(self).finished() == old(self).groups(),
            final(self).segment() == Some(segment),
            old(self).segment() is Some ==> final(self).pending().len() == 0,
            old(self).segment() is None ==> final(self).pending() == old(self).pending(),
    {
        self.finish_segment();
        self.current_segment = Some(segment);
    }

    /// Adds a document to the group being collected.
    pub fn collect(&mut self, doc: DocId)
        ensures
            final(self).finished() == old(self).finished(),
            final(self).segment() == old(self).segment(),
            final(self).pending() == old(self).pending().push(doc),
    {
        self.current_segment_docs.push(doc);
    }

    /// The groups, in the order in which their segments were set.
    pub fn into_docs(self) -> (r: Vec<Group>)
        ensures
            group_views(r@) == self.groups(),
    {
        let mut done = self;
        done.finish_segment();
        done.docs
    }
}

/// What is left of a budget of documents after one more document of a
/// segment has been seen: a live document takes one from a budget that is
/// not used up, and is then collected.
pub fn collect_within(collector: &mut DocCollector, remaining: usize, doc: DocId, deleted: bool) -> (r:
    usize)
    ensures
        final(collector).finished() == old(collector).finished(),
        final(collector).segment() == old(collector).segment(),
        remaining > 0 && !deleted ==> r == remaining - 1 && final(collector).pending() == old(
            collector,
        ).pending().push(doc),
        !(remaining > 0 && !deleted) ==> r == remaining && final(collector).pending() == old(
            collector,
        ).pending(),
{
    if remaining > 0 && !deleted {
        collector.collect(doc);
        remaining - 1
    } else {
        remaining
    }
}

/// What a group of `size` documents may keep of a budget.
pub open spec fn share(budget: int, size: int) -> int {
    if budget < size {
        budget
    } else {
        size
    }
}

/// The budget that is left before group `n`, of a budget of `limit`
/// documents from which each group takes what it can.
pub open spec fn budget_before(groups: Seq<Group>, limit: int, n: int) -> int
    decreases n,
{
    if n <= 0 {
        limit
    } else {
        let before = budget_before(groups, limit, n - 1);
        before - share(before, groups[n - 1].1@.len() as int)
    }
}

/// The number of documents that group `n` may keep.
pub open spec fn taken_of(groups: Seq<Group>, limit: int, n: int) -> int {
    share(budget_before(groups, limit, n), groups[n].1@.len() as int)
}

/// The first `n` groups, each cut to what it may keep; a group that may keep
/// nothing is left out.
pub open spec fn kept_upto(groups: Seq<Group>, limit: int, n: int) -> Seq<(SegmentId, Seq<DocId>)>
    decreases n,
{
    if n <= 0 {
        Seq::empty()
    } else {
        let before = kept_upto(groups, limit, n - 1);
        let take = taken_of(groups, limit, n - 1);
        if take > 0 {
            before.push((groups[n - 1].0, groups[n - 1].1@.take(take)))
        } else {
            before
        }
    }
}

/// Whether one of the first `n` groups was reached with budget left and had
/// to be cut.
pub open spec fn cut_upto(groups: Seq<Group>, limit: int, n: int) -> bool
    decreases n,
{
    if n <= 0 {
        false
    } else {
        cut_upto(groups, limit, n - 1) || (budget_before(groups, limit, n - 1) > 0 && taken_of(
            groups,
            limit,
            n - 1,
        ) < groups[n - 1].1@.len())
    }
}

/// The first `take` documents of a list.
fn first_docs(docs: &Vec<DocId>, take: usize) -> (r: Vec<DocId>)
    requires
        take <= docs@.len(),
    ensures
        r@ == docs@.take(take as int),
{
    let mut out: Vec<DocId> = Vec::new();
    let mut i: usize = 0;
    while i < take
        invariant
            i <= take <= docs@.len(),
            out@ == docs@.take(i as int),
        decreases take - i,
    {
        out.push(docs[i]);
        assert(docs@.take(i as int + 1) =~= docs@.take(i as int).push(docs@[i as int]));
        i = i + 1;
    }
    out
}

/// Cuts the groups to `limit` documents in all: each group keeps what is
/// left of the limit when its turn comes. Says also whether a group had to be
/// cut.
pub fn truncate_docs(groups: &Vec<Group>, limit: usize) -> (r: (Vec<Group>, bool))
    ensures
        group_views(r.0@) == kept_upto(groups@, limit as int, groups@.len() as int),
        r.1 == cut_upto(groups@, limit as int, groups@.len() as int),
{
    let mut kept: Vec<Group> = Vec::new();
    let mut truncated = false;
    let mut remaining = limit;
    let mut n: usize = 0;
    proof {
        assert(group_views(kept@) =~= kept_upto(groups@, limit as int, 0));
    }
    while n < groups.len()
        invariant
            n <= groups@.len(),
            remaining == budget_before(groups@, limit as int, n as int),
            group_views(kept@) == kept_upto(groups@, limit as int, n as int),
            truncated == cut_upto(groups@, limit as int, n as int),
        decreases groups@.len() - n,
    {
        let ghost before = kept@;
        let size = groups[n].1.len();
        let take = if remaining < size {
            remaining
        } else {
            size
        };
        if take > 0 {
            kept.push((groups[n].0, first_docs(&groups[n].1, take)));
            proof {
                assert(group_views(kept@) =~= group_views(before).push(
                    (groups@[n as int].0, groups@[n as int].1@.take(take as int)),
                ));
            }
        }
        if remaining > 0 && take < size {
            truncated = true;
        }
        remaining = remaining - take;
        n = n + 1;
    }
    (kept, truncated)
}

/// Cuts a list of hits to its first `limit`, and says whether it had more.
pub fn truncate_hits(hits: Vec<(SegmentId, DocId)>, limit: usize) -> (r: (
    Vec<(SegmentId, DocId)>,
    bool,
))
    ensures
        r.0@ == if hits@.len() <= limit {
            hits@
        } else {
            hits@.take(limit as int)
        },
        r.1 == (hits@.len() > limit),
{
    let mut kept = hits;
    let truncated = kept.len() > limit;
    kept.truncate(limit);
    (kept, truncated)
}

} // verus!
