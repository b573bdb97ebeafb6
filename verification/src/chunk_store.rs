//! Byte storage in a list of chunks: every run of bytes that a write brings
//! becomes a chunk of its own, kept in offset order. The list grows and
//! shrinks with what is buffered, whatever the capacity.

use vstd::prelude::*;
use vstd::slice::{slice_subrange, slice_to_vec};
use crate::gap_tracker::GapTracker;
use crate::ranges::{lemma_run_len_to_end, span, ByteRange};
use crate::store::ByteStore;

verus! {

/// An owned block of bytes and the place it has in the stream.
pub struct Chunk {
    pub start: u64,
    pub data: Vec<u8>,
}

impl Chunk {
    /// One past the last offset of the chunk.
    pub open spec fn end(self) -> int {
        self.start + self.data@.len()
    }

    /// Whether offset `o` lies in the chunk.
    pub open spec fn covers(self, o: int) -> bool {
        self.start <= o < self.end()
    }
}

/// A list of chunks in order: none is empty, none reaches beyond the offset
/// space, and each ends before the next begins, so that every offset lies
/// in one chunk at most.
pub open spec fn chunks_wf(s: Seq<Chunk>) -> bool {
    &&& forall|i: int| 0 <= i < s.len() ==> (#[trigger] s[i]).data@.len() > 0 && s[i].end() <= u64::MAX
    &&& forall|i: int, j: int| 0 <= i < j < s.len() ==> (#[trigger] s[i]).end() <= (#[trigger] s[j]).start
}

/// Whether some chunk contains offset `o`.
pub open spec fn held(s: Seq<Chunk>, o: int) -> bool {
    exists|k: int| 0 <= k < s.len() && (#[trigger] s[k]).covers(o)
}

/// The byte that the chunks have for offset `o`.
pub open spec fn byte_of(s: Seq<Chunk>, o: int) -> u8 {
    let k = choose|k: int| 0 <= k < s.len() && (#[trigger] s[k]).covers(o);
    s[k].data@[o - s[k].start]
}

/// The chunk that contains an offset is the only one, so it is the one that
/// gives the offset its byte.
pub proof fn lemma_byte_of(s: Seq<Chunk>, k: int, o: int)
    requires
        chunks_wf(s),
        0 <= k < s.len(),
        s[k].covers(o),
    ensures
        held(s, o),
        byte_of(s, o) == s[k].data@[o - s[k].start],
{
    let m = choose|m: int| 0 <= m < s.len() && (#[trigger] s[m]).covers(o);
    if m < k {
        assert(s[m].end() <= s[k].start);
    } else if k < m {
        assert(s[k].end() <= s[m].start);
    }
}

/// An offset that no chunk contains lies between two neighbours, or before
/// the first chunk, or behind the last.
proof fn lemma_free_between(s: Seq<Chunk>, idx: int, lo: int, hi: int)
    requires
        chunks_wf(s),
        0 <= idx <= s.len(),
        lo < hi,
        forall|o: int| lo <= o < hi ==> !held(s, o),
        forall|k: int| 0 <= k < idx ==> (#[trigger] s[k]).start <= lo,
        forall|k: int| idx <= k < s.len() ==> (#[trigger] s[k]).start > lo,
    ensures
        idx > 0 ==> s[idx - 1].end() <= lo,
        idx < s.len() ==> hi <= s[idx].start,
{
    if idx > 0 {
        if s[idx - 1].end() > lo {
            assert(s[idx - 1].covers(lo));
            assert(held(s, lo));
        }
    }
    if idx < s.len() {
        if s[idx].start < hi {
            assert(s[idx].covers(s[idx].start as int));
            assert(held(s, s[idx].start as int));
        }
    }
}

/// A list of chunks.
pub struct ChunkStore {
    chunks: Vec<Chunk>,
    limit: usize,
}

impl ChunkStore {
    /// The chunks of the store, in order.
    pub closed spec fn chunks(&self) -> Seq<Chunk> {
        self.chunks@
    }

    /// The capacity that the store was told.
    pub closed spec fn limit(&self) -> usize {
        self.limit
    }

    /// A store without chunks.
    pub fn new(capacity: usize) -> (s: Self)
        ensures
            s.capacity() == capacity,
            s.chunks() =~= Seq::<Chunk>::empty(),
            forall|base: int| s.in_step(Set::<int>::empty(), base),
    {
        let s = ChunkStore { chunks: Vec::new(), limit: capacity };
        proof {
            assert forall|base: int| s.in_step(Set::<int>::empty(), base) by {
                assert forall|o: int| !held(s.chunks(), o) by {}
            }
        }
        s
    }

    /// The number of chunks held.
    pub fn chunk_count(&self) -> (n: usize)
        ensures
            n == self.chunks().len(),
    {
        self.chunks.len()
    }

    /// The range of offsets of the chunk at position `i`, counted from the
    /// lowest.
    pub fn chunk_range(&self, i: usize) -> (r: Option<ByteRange>)
        requires
            chunks_wf(self.chunks()),
        ensures
            match r {
                Some(range) => i < self.chunks().len() && range.start == self.chunks()[i as int].start
                    && range.end == self.chunks()[i as int].end(),
                None => i >= self.chunks().len(),
            },
    {
        if i < self.chunks.len() {
            let start: u64 = self.chunks[i].start;
            let len: usize = self.chunks[i].data.len();
            Some(ByteRange { start, end: start + len as u64 })
        } else {
            None
        }
    }

    /// The position of the first chunk that starts above `pos`, by binary
    /// search.
    fn first_starting_after(&self, pos: u64) -> (idx: usize)
        requires
            chunks_wf(self.chunks()),
        ensures
            idx <= self.chunks().len(),
            forall|k: int| 0 <= k < idx ==> (#[trigger] self.chunks()[k]).start <= pos,
            forall|k: int| idx <= k < self.chunks().len() ==> (#[trigger] self.chunks()[k]).start > pos,
    {
        let mut lo: usize = 0;
        let mut hi: usize = self.chunks.len();
        while lo < hi
            invariant
                chunks_wf(self.chunks@),
                lo <= hi <= self.chunks.len(),
                forall|k: int| 0 <= k < lo ==> (#[trigger] self.chunks@[k]).start <= pos,
                forall|k: int| hi <= k < self.chunks.len() ==> (#[trigger] self.chunks@[k]).start > pos,
            decreases hi - lo,
        {
            let mid: usize = lo + (hi - lo) / 2;
            if self.chunks[mid].start <= pos {
                proof {
                    assert forall|k: int| 0 <= k < mid + 1 implies (#[trigger] self.chunks@[k]).start
                        <= pos by {
                        if k < mid {
                            assert(self.chunks@[k].end() <= self.chunks@[mid as int].start);
                        }
                    }
                }
                lo = mid + 1;
            } else {
                proof {
                    assert forall|k: int| mid <= k < self.chunks.len() implies (
                    #[trigger] self.chunks@[k]).start > pos by {
                        if k > mid {
                            assert(self.chunks@[mid as int].end() <= self.chunks@[k].start);
                        }
                    }
                }
                hi = mid;
            }
        }
        lo
    }

    /// Puts a chunk of bytes that are not held yet into its place in the
    /// list.
    fn insert_chunk(&mut self, start: u64, data: Vec<u8>)
        requires
            chunks_wf(old(self).chunks()),
            data@.len() > 0,
            start + data@.len() <= u64::MAX,
            forall|o: int| start <= o < start + data@.len() ==> !held(old(self).chunks(), o),
        ensures
            chunks_wf(final(self).chunks()),
            final(self).limit() == old(self).limit(),
            forall|o: int|
                #![trigger held(final(self).chunks(), o)]
                held(final(self).chunks(), o) <==> (held(old(self).chunks(), o) || start <= o
                    < start + data@.len()),
            forall|o: int|
                #![trigger byte_of(final(self).chunks(), o)]
                held(final(self).chunks(), o) ==> byte_of(final(self).chunks(), o) == (if start
                    <= o < start + data@.len() {
                    data@[o - start]
                } else {
                    byte_of(old(self).chunks(), o)
                }),
    {
        let idx: usize = self.first_starting_after(start);
        let ghost s = self.chunks@;
        let ghost bytes = data@;
        let chunk = Chunk { start, data };
        proof {
            lemma_free_between(s, idx as int, start as int, start + bytes.len());
        }
        self.chunks.insert(idx, chunk);
        proof {
            let t = self.chunks@;
            assert(forall|i: int| 0 <= i < idx ==> t[i] == s[i]);
            assert(t[idx as int] == chunk);
            assert(forall|i: int| idx < i < t.len() ==> t[i] == s[i - 1]);
            assert forall|i: int, j: int| 0 <= i < j < t.len() implies (#[trigger] t[i]).end() <= (
            #[trigger] t[j]).start by {
                if j < idx {
                    assert(s[i].end() <= s[j].start);
                } else if j == idx {
                    if i < idx - 1 {
                        assert(s[i].end() <= s[idx - 1].start);
                    }
                } else if i < idx {
                    assert(s[i].end() <= s[j - 1].start);
                } else if i == idx {
                    if j - 1 > idx {
                        assert(s[idx as int].end() <= s[j - 1].start);
                    }
                } else {
                    assert(s[i - 1].end() <= s[j - 1].start);
                }
            }
            assert(chunks_wf(t));
            assert forall|o: int| held(t, o) <==> (held(s, o) || start <= o < start
                + bytes.len()) by {
                if held(t, o) {
                    let i = choose|i: int| 0 <= i < t.len() && (#[trigger] t[i]).covers(o);
                    if i < idx {
                        assert(s[i].covers(o));
                    } else if i > idx {
                        assert(s[i - 1].covers(o));
                    }
                }
                if held(s, o) {
                    let k = choose|k: int| 0 <= k < s.len() && (#[trigger] s[k]).covers(o);
                    if k < idx {
                        assert(t[k].covers(o));
                    } else {
                        assert(t[k + 1].covers(o));
                    }
                }
                if start <= o < start + bytes.len() {
                    assert(t[idx as int].covers(o));
                }
            }
            assert forall|o: int| held(t, o) implies byte_of(t, o) == (if start <= o < start
                + bytes.len() {
                bytes[o - start]
            } else {
                byte_of(s, o)
            }) by {
                if start <= o < start + bytes.len() {
                    lemma_byte_of(t, idx as int, o);
                } else {
                    assert(held(s, o));
                    let k = choose|k: int| 0 <= k < s.len() && (#[trigger] s[k]).covers(o);
                    lemma_byte_of(s, k, o);
                    if k < idx {
                        lemma_byte_of(t, k, o);
                    } else {
                        lemma_byte_of(t, k + 1, o);
                    }
                }
            }
        }
    }

    /// The position of the chunk that contains `pos`.
    fn chunk_at(&self, pos: u64) -> (k: usize)
        requires
            chunks_wf(self.chunks()),
            held(self.chunks(), pos as int),
        ensures
            k < self.chunks().len(),
            self.chunks()[k as int].covers(pos as int),
    {
        let idx: usize = self.first_starting_after(pos);
        proof {
            let s = self.chunks();
            let m = choose|m: int| 0 <= m < s.len() && (#[trigger] s[m]).covers(pos as int);
            assert(m < idx);
            if m < idx - 1 {
                assert(s[m].end() <= s[idx - 1].start);
            }
        }
        idx - 1
    }
}

impl ByteStore for ChunkStore {
    /// The capacity that the store was told: the list itself has no limit.
    open spec fn capacity(&self) -> nat {
        self.limit() as nat
    }

    /// The byte that the chunks have for offset `o`.
    open spec fn byte_at(&self, o: int) -> u8 {
        byte_of(self.chunks(), o)
    }

    /// The chunks are in order and contain exactly the offsets received
    /// from `base` on.
    open spec fn in_step(&self, received: Set<int>, base: int) -> bool {
        &&& chunks_wf(self.chunks())
        &&& forall|o: int|
            #![trigger held(self.chunks(), o)]
            held(self.chunks(), o) <==> (received.contains(o) && base <= o)
    }

    fn write(&mut self, tracker: &GapTracker, base: u64, offset: u64, bytes: &[u8]) {
        let len: usize = bytes.len();
        let end: u64 = offset + len as u64;
        let mut pos: u64 = offset;
        while pos < end
            invariant
                tracker.wf(),
                offset <= pos <= end,
                len == bytes@.len(),
                end == offset + len,
                forall|o: int| 0 <= o < base ==> tracker@.contains(o),
                self.limit() == old(self).limit(),
                chunks_wf(self.chunks()),
                old(self).in_step(tracker@, base as int),
                forall|o: int|
                    #![trigger held(self.chunks(), o)]
                    held(self.chunks(), o) <==> (base <= o && (tracker@.contains(o) || offset <= o
                        < pos)),
                forall|o: int|
                    #![trigger byte_of(self.chunks(), o)]
                    held(self.chunks(), o) ==> byte_of(self.chunks(), o) == (if tracker@.contains(
                        o,
                    ) {
                        byte_of(old(self).chunks(), o)
                    } else {
                        bytes@[o - offset]
                    }),
            decreases end - pos,
        {
            let seen_end: u64 = tracker.contiguous_prefix_end(pos);
            if seen_end > pos {
                pos = if seen_end < end { seen_end } else { end };
            } else {
                let gap: u64 = tracker.gap_end(pos, end);
                let lo: usize = (pos - offset) as usize;
                let hi: usize = (gap - offset) as usize;
                proof {
                    assert(!tracker@.contains(pos as int));
                    assert(gap > pos);
                }
                let data: Vec<u8> = slice_to_vec(slice_subrange(bytes, lo, hi));
                self.insert_chunk(pos, data);
                pos = gap;
            }
        }
        proof {
            let after = tracker@.union(span(offset as int, offset + bytes@.len()));
            assert forall|o: int| held(self.chunks(), o) <==> (after.contains(o) && base <= o) by {}
        }
    }

    fn read(&self, tracker: &GapTracker, from: u64, max_len: usize) -> (out: Vec<u8>) {
        let e: u64 = tracker.contiguous_prefix_end(from);
        let run: u64 = e - from;
        let n: usize = if run < max_len as u64 { run as usize } else { max_len };
        proof {
            lemma_run_len_to_end(tracker@, from as int, e as int, max_len as nat);
        }
        let mut out: Vec<u8> = Vec::with_capacity(n);
        if n == 0 {
            proof {
                assert(out@ =~= Seq::new(0nat, |i: int| self.byte_at(from + i)));
            }
            return out;
        }
        proof {
            assert(tracker@.contains(from as int));
            assert(held(self.chunks(), from as int));
        }
        let mut k: usize = self.chunk_at(from);
        while out.len() < n
            invariant
                tracker.wf(),
                self.in_step(tracker@, from as int),
                out@.len() <= n,
                n <= e - from,
                forall|o: int| from <= o < e ==> tracker@.contains(o),
                forall|i: int| 0 <= i < out@.len() ==> out@[i] == byte_of(self.chunks(), from + i),
                out@.len() < n ==> k < self.chunks().len() && self.chunks()[k as int].covers(
                    from + out@.len(),
                ),
            decreases n - out@.len(),
        {
            let ghost s = self.chunks();
            let at: u64 = from + out.len() as u64;
            let count: usize = self.chunks.len();
            let size: usize = self.chunks[k].data.len();
            let j: usize = (at - self.chunks[k].start) as usize;
            let avail: usize = size - j;
            let want: usize = n - out.len();
            let take: usize = if avail < want { avail } else { want };
            let ghost done = out@.len();
            let mut i: usize = 0;
            while i < take
                invariant
                    i <= take,
                    take <= avail,
                    take <= want,
                    s == self.chunks(),
                    chunks_wf(s),
                    k < s.len(),
                    at == from + done,
                    j == at - s[k as int].start,
                    avail == s[k as int].data@.len() - j,
                    size == s[k as int].data@.len(),
                    j <= size,
                    want == n - done,
                    out@.len() == done + i,
                    forall|m: int| 0 <= m < out@.len() ==> out@[m] == byte_of(s, from + m),
                decreases take - i,
            {
                proof {
                    lemma_byte_of(s, k as int, at + i);
                }
                out.push(self.chunks[k].data[j + i]);
                i = i + 1;
            }
            proof {
                if out@.len() < n {
                    let next = at + take;
                    assert(next == s[k as int].end());
                    assert(tracker@.contains(next));
                    assert(held(s, next));
                    let m = choose|m: int| 0 <= m < s.len() && (#[trigger] s[m]).covers(next);
                    if m < k {
                        assert(s[m].end() <= s[k as int].start);
                    }
                    assert(m > k);
                    if m > k + 1 {
                        assert(s[k as int].end() <= s[k + 1].start);
                        assert(s[k + 1].end() <= s[m].start);
                    }
                    assert(m == k + 1);
                }
                assert(k < count);
            }
            k = k + 1;
        }
        proof {
            assert(out@ =~= Seq::new(n as nat, |i: int| self.byte_at(from + i)));
        }
        out
    }

    /// The chunks that end at or below `offset` are dropped, and the chunk
    /// that `offset` cuts through loses its lower part.
    fn release_below(&mut self, tracker: &GapTracker, base: u64, offset: u64) {
        let ghost s = self.chunks@;
        let n: usize = self.chunks.len();
        let mut d: usize = 0;
        while d < n && self.chunks[d].start + self.chunks[d].data.len() as u64 <= offset
            invariant
                self.chunks@ == s,
                chunks_wf(s),
                n == s.len(),
                d <= n,
                forall|k: int| 0 <= k < d ==> (#[trigger] s[k]).end() <= offset,
            decreases n - d,
        {
            d = d + 1;
        }
        let mut rest: Vec<Chunk> = self.chunks.split_off(d);
        let ghost r = rest@;
        proof {
            assert(forall|i: int| 0 <= i < r.len() ==> r[i] == s[i + d]);
            assert(chunks_wf(r)) by {
                assert forall|i: int, j: int| 0 <= i < j < r.len() implies (#[trigger] r[i]).end() <= (
                #[trigger] r[j]).start by {
                    assert(s[i + d].end() <= s[j + d].start);
                }
            }
            assert forall|k: int| 1 <= k < r.len() implies (#[trigger] r[k]).start >= offset by {
                assert(r[0].end() <= r[k].start);
            }
        }
        if rest.len() > 0 && rest[0].start < offset {
            let cut: usize = (offset - rest[0].start) as usize;
            let tail: Vec<u8> = rest[0].data.split_off(cut);
            rest[0] = Chunk { start: offset, data: tail };
        }
        self.chunks = rest;
        proof {
            let t = self.chunks@;
            assert(t.len() == r.len());
            assert(forall|i: int| 1 <= i < t.len() ==> t[i] == r[i]);
            if r.len() > 0 {
                if r[0].start < offset {
                    assert(t[0].start == offset);
                    assert(t[0].data@ == r[0].data@.subrange(offset - r[0].start, r[0].data@.len() as int));
                    assert(t[0].end() == r[0].end());
                } else {
                    assert(t[0] == r[0]);
                }
            }
            assert(chunks_wf(t)) by {
                assert forall|i: int, j: int| 0 <= i < j < t.len() implies (#[trigger] t[i]).end() <= (
                #[trigger] t[j]).start by {
                    assert(r[i].end() <= r[j].start);
                }
            }
            assert forall|o: int| held(t, o) <==> (tracker@.contains(o) && offset <= o) by {
                if held(t, o) {
                    let i = choose|i: int| 0 <= i < t.len() && (#[trigger] t[i]).covers(o);
                    assert(r[i].covers(o));
                    assert(s[i + d].covers(o));
                    assert(held(s, o));
                }
                if tracker@.contains(o) && offset <= o {
                    assert(held(s, o));
                    let k = choose|k: int| 0 <= k < s.len() && (#[trigger] s[k]).covers(o);
                    assert(k >= d);
                    assert(r[k - d].covers(o));
                    assert(t[k - d].covers(o));
                }
            }
            assert forall|o: int| offset <= o && tracker@.contains(o) implies #[trigger] byte_of(
                t,
                o,
            ) == byte_of(s, o) by {
                assert(held(s, o));
                let k = choose|k: int| 0 <= k < s.len() && (#[trigger] s[k]).covers(o);
                assert(k >= d);
                assert(r[k - d].covers(o));
                assert(t[k - d].covers(o));
                lemma_byte_of(s, k, o);
                lemma_byte_of(t, k - d, o);
            }
        }
    }

    /// Only the number changes: the chunks stay as they are.
    fn set_capacity(&mut self, tracker: &GapTracker, base: u64, capacity: usize) {
        self.limit = capacity;
    }
}

} // verus!
