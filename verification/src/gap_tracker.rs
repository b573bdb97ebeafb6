//! The set of stream offsets received so far, kept as sorted, disjoint,
//! merged ranges.

use vstd::prelude::*;
use crate::ranges::{
    ByteRange, canonical, count_in, covered_by, covered_set, lemma_count_full, lemma_count_none,
    lemma_count_split, span,
};

verus! {

/// No range of a canonical sequence contains an offset that lies between the
/// end of range `idx - 1` and the start of range `idx`.
pub proof fn lemma_between_is_uncovered(s: Seq<ByteRange>, idx: int, o: int)
    requires
        canonical(s),
        0 <= idx <= s.len(),
        idx > 0 ==> s[idx - 1].end <= o,
        idx < s.len() ==> o < s[idx].start,
    ensures
        !covered_by(s, o),
{
    assert forall|k: int| 0 <= k < s.len() implies !(#[trigger] s[k]).contains(o) by {
        if k < idx {
            if k < idx - 1 {
                assert(s[k].end < s[idx - 1].start);
                assert(s[idx - 1].start < s[idx - 1].end);
            }
        } else {
            if k > idx {
                assert(s[idx].end < s[k].start);
                assert(s[idx].start < s[idx].end);
            }
        }
    }
}

/// Replacing ranges `lo..hi` of a canonical sequence by the one range that
/// spans them and `[start, end)` gives a canonical sequence that covers
/// what was covered and `[start, end)`, and nothing else.
pub proof fn lemma_splice(
    s: Seq<ByteRange>,
    lo: int,
    hi: int,
    start: int,
    end: int,
    merged: ByteRange,
    t: Seq<ByteRange>,
)
    requires
        canonical(s),
        0 <= lo <= hi <= s.len(),
        start < end,
        forall|k: int| 0 <= k < lo ==> (#[trigger] s[k]).end < start,
        forall|k: int| lo <= k < hi ==> (#[trigger] s[k]).end >= start && s[k].start <= end,
        forall|k: int| hi <= k < s.len() ==> (#[trigger] s[k]).start > end,
        merged.start == (if lo < hi && s[lo].start < start { s[lo].start as int } else { start }),
        merged.end == (if lo < hi && s[hi - 1].end > end { s[hi - 1].end as int } else { end }),
        t == s.subrange(0, lo).push(merged) + s.subrange(hi, s.len() as int),
    ensures
        canonical(t),
        covered_set(t) == covered_set(s).union(span(start, end)),
        t.len() == s.len() - (hi - lo) + 1,
        t.len() > 0,
        t.last().end == (if hi < s.len() { s.last().end } else { merged.end }),
{
    let shift = hi - lo - 1;
    assert(forall|i: int| 0 <= i < lo ==> t[i] == s[i]);
    assert(t[lo] == merged);
    assert(forall|i: int| lo < i < t.len() ==> t[i] == s[i + shift]);
    assert forall|i: int| 0 <= i < t.len() implies (#[trigger] t[i]).start < t[i].end by {
        if i < lo {
            assert(s[i].start < s[i].end);
        } else if i > lo {
            assert(s[i + shift].start < s[i + shift].end);
        }
    }
    assert forall|i: int, j: int| 0 <= i < j < t.len() implies (#[trigger] t[i]).end < (
    #[trigger] t[j]).start by {
        if j < lo {
            assert(s[i].end < s[j].start);
        } else if j == lo {
            assert(s[i].end < start);
            if lo < hi {
                assert(s[i].end < s[lo].start);
            }
        } else if i < lo {
            assert(s[i].end < s[j + shift].start);
        } else if i == lo {
            assert(s[j + shift].start > end);
            if lo < hi {
                assert(s[hi - 1].end < s[j + shift].start);
            }
        } else {
            assert(s[i + shift].end < s[j + shift].start);
        }
    }
    assert forall|o: int| covered_by(t, o) <==> (covered_by(s, o) || start <= o < end) by {
        if covered_by(t, o) {
            let i = choose|i: int| 0 <= i < t.len() && (#[trigger] t[i]).contains(o);
            if i < lo {
                assert(s[i].contains(o));
            } else if i > lo {
                assert(s[i + shift].contains(o));
            } else if o < start {
                assert(s[lo].contains(o));
            } else if o >= end {
                assert(s[hi - 1].contains(o));
            }
        }
        if covered_by(s, o) {
            let k = choose|k: int| 0 <= k < s.len() && (#[trigger] s[k]).contains(o);
            if k < lo {
                assert(t[k].contains(o));
            } else if k >= hi {
                assert(t[k - shift].contains(o));
            } else {
                if lo < k {
                    assert(s[lo].end < s[k].start);
                    assert(s[lo].start < s[lo].end);
                }
                if k < hi - 1 {
                    assert(s[k].end < s[hi - 1].start);
                    assert(s[hi - 1].start < s[hi - 1].end);
                }
                assert(t[lo].contains(o));
            }
        }
        if start <= o < end {
            assert(t[lo].contains(o));
        }
    }
    assert(covered_set(t) =~= covered_set(s).union(span(start, end)));
}

/// A set of offsets has one canonical sequence of ranges at most: two
/// canonical sequences that cover the same offsets are the same sequence.
pub proof fn lemma_canonical_unique(s: Seq<ByteRange>, t: Seq<ByteRange>)
    requires
        canonical(s),
        canonical(t),
        forall|o: int| covered_by(s, o) <==> covered_by(t, o),
    ensures
        s == t,
    decreases s.len(),
{
    if s.len() == 0 {
        if t.len() > 0 {
            assert(t[0].contains(t[0].start as int));
            assert(covered_by(t, t[0].start as int));
        }
        assert(s =~= t);
    } else {
        let a = s.last();
        assert(s[s.len() - 1].contains(a.end - 1));
        assert(covered_by(s, a.end - 1));
        assert(covered_by(t, a.end - 1));
        let b = t.last();
        lemma_last_range_agrees(s, t);
        lemma_last_range_agrees(t, s);
        assert(a == b);
        let s0 = s.drop_last();
        let t0 = t.drop_last();
        assert forall|o: int| covered_by(s0, o) <==> covered_by(t0, o) by {
            lemma_drop_last_covers(s, o);
            lemma_drop_last_covers(t, o);
        }
        lemma_canonical_unique(s0, t0);
        assert(s =~= s0.push(a));
        assert(t =~= t0.push(b));
    }
}

/// Of two canonical sequences that cover the same offsets, the last range
/// of the first ends no later and starts no earlier than the last range of
/// the second.
proof fn lemma_last_range_agrees(s: Seq<ByteRange>, t: Seq<ByteRange>)
    requires
        canonical(s),
        canonical(t),
        s.len() > 0,
        t.len() > 0,
        forall|o: int| covered_by(s, o) <==> covered_by(t, o),
    ensures
        s.last().end <= t.last().end,
        s.last().end == t.last().end ==> s.last().start >= t.last().start,
{
    let a = s.last();
    let b = t.last();
    assert(s[s.len() - 1].contains(a.end - 1));
    assert(covered_by(s, a.end - 1));
    assert(covered_by(t, a.end - 1));
    let k = choose|k: int| 0 <= k < t.len() && (#[trigger] t[k]).contains(a.end - 1);
    if k < t.len() - 1 {
        assert(t[k].end < t[t.len() - 1].start);
        assert(t[t.len() - 1].start < t[t.len() - 1].end);
    }
    if a.end == b.end && a.start < b.start {
        assert(s[s.len() - 1].contains(b.start - 1));
        assert(covered_by(s, b.start - 1));
        assert(covered_by(t, b.start - 1));
        let m = choose|m: int| 0 <= m < t.len() && (#[trigger] t[m]).contains(b.start - 1);
        if m < t.len() - 1 {
            assert(t[m].end < t[t.len() - 1].start);
        }
    }
}

/// What a canonical sequence covers without its last range is what it
/// covers below the start of that range.
proof fn lemma_drop_last_covers(s: Seq<ByteRange>, o: int)
    requires
        canonical(s),
        s.len() > 0,
    ensures
        canonical(s.drop_last()),
        covered_by(s.drop_last(), o) <==> (covered_by(s, o) && o < s.last().start),
{
    let s0 = s.drop_last();
    assert(forall|i: int| 0 <= i < s0.len() ==> s0[i] == s[i]);
    assert(canonical(s0)) by {
        assert forall|i: int, j: int| 0 <= i < j < s0.len() implies (#[trigger] s0[i]).end < (
        #[trigger] s0[j]).start by {
            assert(s[i].end < s[j].start);
        }
        assert forall|i: int| 0 <= i < s0.len() implies (#[trigger] s0[i]).start < s0[i].end by {
            assert(s[i].start < s[i].end);
        }
    }
    if covered_by(s0, o) {
        let k = choose|k: int| 0 <= k < s0.len() && (#[trigger] s0[k]).contains(o);
        assert(s[k].contains(o));
        assert(s[k].end < s[s.len() - 1].start);
    }
    if covered_by(s, o) && o < s.last().start {
        let k = choose|k: int| 0 <= k < s.len() && (#[trigger] s[k]).contains(o);
        assert(k < s.len() - 1);
        assert(s0[k].contains(o));
    }
}

/// Which offsets of a stream have been received, whether or not they have
/// been consumed since.
pub struct GapTracker {
    ranges: Vec<ByteRange>,
}

impl View for GapTracker {
    type V = Set<int>;

    /// The set of received offsets.
    open spec fn view(&self) -> Set<int> {
        covered_set(self.intervals())
    }
}

impl GapTracker {
    /// The ranges that the tracker holds, in order.
    pub closed spec fn intervals(&self) -> Seq<ByteRange> {
        self.ranges@
    }

    /// The ranges are disjoint, sorted and merged.
    pub open spec fn wf(&self) -> bool {
        canonical(self.intervals())
    }

    /// One past the highest received offset, or 0 when nothing was received.
    pub open spec fn highest(&self) -> int {
        if self.intervals().len() == 0 {
            0
        } else {
            self.intervals().last().end as int
        }
    }

    /// Every received offset lies below `highest()`, and the offset just
    /// below `highest()` was received unless nothing was.
    pub proof fn lemma_highest(&self)
        requires
            self.wf(),
        ensures
            self.highest() >= 0,
            forall|o: int| self@.contains(o) ==> 0 <= o < self.highest(),
            self.highest() > 0 ==> self@.contains(self.highest() - 1),
            self.highest() == 0 ==> self@ =~= Set::<int>::empty(),
    {
        let s = self.intervals();
        assert forall|o: int| self@.contains(o) implies 0 <= o < self.highest() by {
            let k = choose|k: int| 0 <= k < s.len() && (#[trigger] s[k]).contains(o);
            if k < s.len() - 1 {
                assert(s[k].end < s[s.len() - 1].start);
                assert(s[s.len() - 1].start < s[s.len() - 1].end);
            }
        }
        if s.len() > 0 {
            assert(s[s.len() - 1].start < s[s.len() - 1].end);
            assert(s[s.len() - 1].contains(self.highest() - 1));
        }
    }

    /// Inserting what was received already changes nothing: where all of
    /// `[start, end)` had been received before it was inserted, the tracker
    /// holds the ranges it held, and no offset is newly covered.
    pub proof fn lemma_insert_received_is_noop(before: &Self, after: &Self, start: u64, end: u64)
        requires
            before.wf(),
            after.wf(),
            start <= end,
            forall|o: int| start <= o < end ==> before@.contains(o),
            after@ == before@.union(span(start as int, end as int)),
        ensures
            after.intervals() == before.intervals(),
            (end - start) - count_in(before@, start as int, end as int) == 0,
    {
        assert forall|o: int|
            covered_by(after.intervals(), o) <==> covered_by(before.intervals(), o) by {
            assert(after@.contains(o) <==> (before@.contains(o) || span(
                start as int,
                end as int,
            ).contains(o)));
        }
        lemma_canonical_unique(after.intervals(), before.intervals());
        lemma_count_full(before@, start as int, end as int);
    }

    /// A tracker that has received nothing.
    pub fn new() -> (t: Self)
        ensures
            t.wf(),
            t@ =~= Set::<int>::empty(),
            t.intervals() =~= Seq::<ByteRange>::empty(),
    {
        GapTracker { ranges: Vec::new() }
    }

    /// The number of ranges held.
    pub fn interval_count(&self) -> (n: usize)
        ensures
            n == self.intervals().len(),
    {
        self.ranges.len()
    }

    /// The range at position `i`, counted from the lowest.
    pub fn interval(&self, i: usize) -> (r: Option<ByteRange>)
        ensures
            r == (if i < self.intervals().len() {
                Some(self.intervals()[i as int])
            } else {
                None
            }),
    {
        if i < self.ranges.len() {
            Some(self.ranges[i])
        } else {
            None
        }
    }

    /// One past the highest received offset, or 0 when nothing was received.
    pub fn highest_received(&self) -> (h: u64)
        ensures
            h == self.highest(),
    {
        let n: usize = self.ranges.len();
        if n == 0 {
            0
        } else {
            self.ranges[n - 1].end
        }
    }

    /// Forgets everything received.
    pub fn clear(&mut self)
        ensures
            final(self).wf(),
            final(self)@ =~= Set::<int>::empty(),
            final(self).intervals() =~= Seq::<ByteRange>::empty(),
    {
        self.ranges.clear();
    }

    /// The position of the first range that ends above `pos`, by binary
    /// search over the ends, which are sorted as the starts are.
    fn first_ending_after(&self, pos: u64) -> (idx: usize)
        requires
            self.wf(),
        ensures
            idx <= self.intervals().len(),
            forall|k: int| 0 <= k < idx ==> (#[trigger] self.intervals()[k]).end <= pos,
            forall|k: int|
                idx <= k < self.intervals().len() ==> (#[trigger] self.intervals()[k]).end > pos,
    {
        let mut lo: usize = 0;
        let mut hi: usize = self.ranges.len();
        while lo < hi
            invariant
                self.wf(),
                lo <= hi <= self.ranges.len(),
                forall|k: int| 0 <= k < lo ==> (#[trigger] self.ranges@[k]).end <= pos,
                forall|k: int| hi <= k < self.ranges.len() ==> (#[trigger] self.ranges@[k]).end > pos,
            decreases hi - lo,
        {
            let mid: usize = lo + (hi - lo) / 2;
            if self.ranges[mid].end <= pos {
                proof {
                    assert forall|k: int| 0 <= k < mid + 1 implies (#[trigger] self.ranges@[k]).end
                        <= pos by {
                        if k < mid {
                            assert(self.ranges@[k].end < self.ranges@[mid as int].start);
                            assert(self.ranges@[mid as int].start < self.ranges@[mid as int].end);
                        }
                    }
                }
                lo = mid + 1;
            } else {
                proof {
                    assert forall|k: int| mid <= k < self.ranges.len() implies (
                    #[trigger] self.ranges@[k]).end > pos by {
                        if k > mid {
                            assert(self.ranges@[mid as int].end < self.ranges@[k].start);
                            assert(self.ranges@[k].start < self.ranges@[k].end);
                        }
                    }
                }
                hi = mid;
            }
        }
        lo
    }

    /// The end of the received run that starts at `from`: the largest offset
    /// `e` such that all of `[from, e)` was received. It is `from` itself
    /// when `from` was not received.
    pub fn contiguous_prefix_end(&self, from: u64) -> (e: u64)
        requires
            self.wf(),
        ensures
            from <= e,
            forall|o: int| from <= o < e ==> self@.contains(o),
            !self@.contains(e as int),
    {
        let idx: usize = self.first_ending_after(from);
        if idx < self.ranges.len() && self.ranges[idx].start <= from {
            let e: u64 = self.ranges[idx].end;
            proof {
                let s = self.intervals();
                assert forall|o: int| from <= o < e implies self@.contains(o) by {
                    assert(s[idx as int].contains(o));
                }
                lemma_between_is_uncovered(s, idx + 1, e as int);
            }
            e
        } else {
            proof {
                lemma_between_is_uncovered(self.intervals(), idx as int, from as int);
            }
            from
        }
    }

    /// The end of the gap that starts at `from`, cut off at `limit`: the
    /// largest offset `g <= limit` such that nothing of `[from, g)` was
    /// received. It is `from` itself when `from` was received.
    pub fn gap_end(&self, from: u64, limit: u64) -> (g: u64)
        requires
            self.wf(),
            from <= limit,
        ensures
            from <= g <= limit,
            forall|o: int| from <= o < g ==> !self@.contains(o),
            g == limit || self@.contains(g as int),
    {
        let idx: usize = self.first_ending_after(from);
        if idx < self.ranges.len() {
            let r: ByteRange = self.ranges[idx];
            if r.start <= from {
                proof {
                    assert(self.intervals()[idx as int].contains(from as int));
                }
                from
            } else {
                let g: u64 = if r.start < limit { r.start } else { limit };
                proof {
                    let s = self.intervals();
                    assert forall|o: int| from <= o < g implies !self@.contains(o) by {
                        lemma_between_is_uncovered(s, idx as int, o);
                    }
                    assert(s[idx as int].start < s[idx as int].end);
                    if g != limit {
                        assert(s[idx as int].contains(g as int));
                    }
                }
                g
            }
        } else {
            proof {
                let s = self.intervals();
                assert forall|o: int| from <= o < limit implies !self@.contains(o) by {
                    lemma_between_is_uncovered(s, idx as int, o);
                }
            }
            limit
        }
    }

    /// Records `[start, end)` as received and returns how many of its
    /// offsets had not been received before. The range is merged with every
    /// range it overlaps or touches.
    pub fn insert(&mut self, start: u64, end: u64) -> (newly: u64)
        requires
            old(self).wf(),
            start <= end,
        ensures
            final(self).wf(),
            final(self)@ == old(self)@.union(span(start as int, end as int)),
            newly == (end - start) - count_in(old(self)@, start as int, end as int),
            final(self).highest() == (if start < end && end > old(self).highest() {
                end as int
            } else {
                old(self).highest()
            }),
    {
        if start == end {
            proof {
                assert(self@.union(span(start as int, end as int)) =~= self@);
            }
            return 0;
        }
        let ghost s = self.ranges@;
        let n: usize = self.ranges.len();
        let lo: usize = if start == 0 { 0 } else { self.first_ending_after(start - 1) };
        let mut hi: usize = lo;
        let mut merged = ByteRange { start, end };
        let mut covered: u64 = 0;
        let ghost mut pos: int = start as int;
        while hi < n && self.ranges[hi].start <= end
            invariant
                self.ranges@ == s,
                canonical(s),
                n == s.len(),
                start < end,
                lo <= hi <= n,
                forall|k: int| 0 <= k < lo ==> (#[trigger] s[k]).end < start,
                forall|k: int| lo <= k < n ==> (#[trigger] s[k]).end >= start,
                forall|k: int| lo <= k < hi ==> (#[trigger] s[k]).start <= end,
                merged.start == (if lo < hi && s[lo as int].start < start {
                    s[lo as int].start as int
                } else {
                    start as int
                }),
                merged.end == (if lo < hi && s[hi - 1].end > end {
                    s[hi - 1].end as int
                } else {
                    end as int
                }),
                start <= pos <= end,
                pos == (if lo < hi && s[hi - 1].end < end { s[hi - 1].end as int } else if lo
                    < hi {
                    end as int
                } else {
                    start as int
                }),
                covered == count_in(covered_set(s), start as int, pos),
                covered <= pos - start,
            decreases n - hi,
        {
            let r: ByteRange = self.ranges[hi];
            let a: u64 = if r.start > start { r.start } else { start };
            let b: u64 = if r.end < end { r.end } else { end };
            proof {
                assert(s[hi as int].start < s[hi as int].end);
                assert(s[hi as int].end >= start);
                if lo < hi {
                    assert(s[hi - 1].end < s[hi as int].start);
                }
                assert(pos <= a <= b);
                assert forall|o: int| pos <= o < a implies !covered_set(s).contains(o) by {
                    lemma_between_is_uncovered(s, hi as int, o);
                }
                assert forall|o: int| a <= o < b implies covered_set(s).contains(o) by {
                    assert(s[hi as int].contains(o));
                }
                lemma_count_none(covered_set(s), pos, a as int);
                lemma_count_full(covered_set(s), a as int, b as int);
                lemma_count_split(covered_set(s), start as int, pos, a as int);
                lemma_count_split(covered_set(s), start as int, a as int, b as int);
            }
            covered = covered + (b - a);
            if r.start < merged.start {
                merged.start = r.start;
            }
            if r.end > merged.end {
                merged.end = r.end;
            }
            proof {
                pos = b as int;
                if lo < hi {
                    assert(s[lo as int].end < s[hi as int].start);
                    assert(s[lo as int].start < s[lo as int].end);
                }
            }
            hi = hi + 1;
        }
        proof {
            assert forall|k: int| hi <= k < n implies (#[trigger] s[k]).start > end by {
                if k > hi {
                    assert(s[hi as int].end < s[k].start);
                    assert(s[hi as int].start < s[hi as int].end);
                }
            }
            assert forall|o: int| pos <= o < end implies !covered_set(s).contains(o) by {
                lemma_between_is_uncovered(s, hi as int, o);
            }
            lemma_count_none(covered_set(s), pos, end as int);
            lemma_count_split(covered_set(s), start as int, pos, end as int);
        }
        let ghost t = s.subrange(0, lo as int).push(merged) + s.subrange(hi as int, n as int);
        if hi == lo {
            self.ranges.insert(lo, merged);
            proof {
                assert(self.ranges@ =~= t);
            }
        } else {
            self.ranges[lo] = merged;
            let removed: usize = hi - lo - 1;
            if removed > 0 {
                let mut j: usize = hi;
                while j < n
                    invariant
                        hi <= j <= n,
                        removed == hi - lo - 1,
                        removed > 0,
                        n == s.len(),
                        self.ranges@.len() == n,
                        t == s.subrange(0, lo as int).push(merged) + s.subrange(
                            hi as int,
                            n as int,
                        ),
                        forall|i: int| 0 <= i < j - removed ==> self.ranges@[i] == t[i],
                        forall|i: int| j <= i < n ==> self.ranges@[i] == s[i],
                    decreases n - j,
                {
                    let moved: ByteRange = self.ranges[j];
                    self.ranges[j - removed] = moved;
                    j = j + 1;
                }
                self.ranges.truncate(n - removed);
            }
            proof {
                assert(self.ranges@ =~= t);
            }
        }
        proof {
            lemma_splice(s, lo as int, hi as int, start as int, end as int, merged, t);
            if hi < n {
                assert(s[n - 1].start > end);
                assert(s[n - 1].start < s[n - 1].end);
            } else if n > 0 {
                if lo == hi {
                    assert(s[n - 1].end < start);
                }
            }
        }
        (end - start) - covered
    }
}

} // verus!
