//! Half-open ranges of stream offsets, the sets of offsets they cover, and
//! counting of covered offsets.

use vstd::prelude::*;

verus! {

/// The half-open range `[start, end)` of stream offsets.
#[derive(Clone, Copy, Debug, PartialEq, Eq, Structural)]
pub struct ByteRange {
    pub start: u64,
    pub end: u64,
}

impl ByteRange {
    /// Whether offset `o` lies in the range.
    pub open spec fn contains(self, o: int) -> bool {
        self.start <= o < self.end
    }

    /// The number of offsets in the range.
    pub fn len(&self) -> (n: u64)
        requires
            self.start <= self.end,
        ensures
            n == self.end - self.start,
    {
        self.end - self.start
    }
}

/// The set of offsets `o` with `lo <= o < hi`.
pub open spec fn span(lo: int, hi: int) -> Set<int> {
    Set::new(|o: int| lo <= o < hi)
}

/// Whether some range of `s` contains offset `o`.
pub open spec fn covered_by(s: Seq<ByteRange>, o: int) -> bool {
    exists|k: int| 0 <= k < s.len() && #[trigger] s[k].contains(o)
}

/// The set of offsets that the ranges of `s` cover.
pub open spec fn covered_set(s: Seq<ByteRange>) -> Set<int> {
    Set::new(|o: int| covered_by(s, o))
}

/// A sequence of ranges in canonical form: none is empty, they are sorted by
/// start, and between two neighbours lies at least one uncovered offset, so
/// no two overlap or touch.
pub open spec fn canonical(s: Seq<ByteRange>) -> bool {
    &&& forall|i: int| 0 <= i < s.len() ==> (#[trigger] s[i]).start < s[i].end
    &&& forall|i: int, j: int| 0 <= i < j < s.len() ==> (#[trigger] s[i]).end < (#[trigger] s[j]).start
}

/// The number of offsets `o` in `[lo, hi)` that belong to `s`.
pub open spec fn count_in(s: Set<int>, lo: int, hi: int) -> nat
    decreases hi - lo,
{
    if lo >= hi {
        0
    } else {
        count_in(s, lo, hi - 1) + if s.contains(hi - 1) { 1nat } else { 0nat }
    }
}

/// Counting over `[lo, hi)` is counting over `[lo, mid)` and `[mid, hi)`.
pub proof fn lemma_count_split(s: Set<int>, lo: int, mid: int, hi: int)
    requires
        lo <= mid <= hi,
    ensures
        count_in(s, lo, hi) == count_in(s, lo, mid) + count_in(s, mid, hi),
    decreases hi - mid,
{
    if mid < hi {
        lemma_count_split(s, lo, mid, hi - 1);
    }
}

/// A window that lies wholly inside the set counts its own width.
pub proof fn lemma_count_full(s: Set<int>, lo: int, hi: int)
    requires
        lo <= hi,
        forall|o: int| lo <= o < hi ==> s.contains(o),
    ensures
        count_in(s, lo, hi) == hi - lo,
    decreases hi - lo,
{
    if lo < hi {
        lemma_count_full(s, lo, hi - 1);
    }
}

/// A window that misses the set counts nothing.
pub proof fn lemma_count_none(s: Set<int>, lo: int, hi: int)
    requires
        forall|o: int| lo <= o < hi ==> !s.contains(o),
    ensures
        count_in(s, lo, hi) == 0,
    decreases hi - lo,
{
    if lo < hi {
        lemma_count_none(s, lo, hi - 1);
    }
}

/// The length of the run of offsets of `s` that starts at `from`, counted up
/// to `limit`: 0 when `from` itself is missing from `s`.
pub open spec fn run_len(s: Set<int>, from: int, limit: nat) -> nat
    decreases limit,
{
    if limit == 0 || !s.contains(from) {
        0
    } else {
        1 + run_len(s, from + 1, (limit - 1) as nat)
    }
}

/// A run is made of offsets of the set, is no longer than the limit, and
/// where it is shorter the offset just behind it is missing from the set.
pub proof fn lemma_run_len_is_run(s: Set<int>, from: int, limit: nat)
    ensures
        run_len(s, from, limit) <= limit,
        forall|o: int| from <= o < from + run_len(s, from, limit) ==> s.contains(o),
        run_len(s, from, limit) < limit ==> !s.contains(from + run_len(s, from, limit)),
    decreases limit,
{
    if limit != 0 && s.contains(from) {
        lemma_run_len_is_run(s, from + 1, (limit - 1) as nat);
    }
}

/// Where all of `[from, e)` belongs to the set and `e` does not, the run
/// from `from` has length `e - from`, or `limit` if that is less.
pub proof fn lemma_run_len_to_end(s: Set<int>, from: int, e: int, limit: nat)
    requires
        from <= e,
        forall|o: int| from <= o < e ==> s.contains(o),
        !s.contains(e),
    ensures
        run_len(s, from, limit) == (if e - from < limit { e - from } else { limit as int }),
    decreases limit,
{
    if limit != 0 && s.contains(from) {
        lemma_run_len_to_end(s, from + 1, e, (limit - 1) as nat);
    }
}

} // verus!
