//! Laws of reassembly: whatever the order in which the pieces of a stream
//! arrive, and however often they arrive, the buffer hands out the stream.

use vstd::prelude::*;
use vstd::seq_lib::to_multiset_contains;
use crate::model::{lemma_write_wf, BufferModel};
use crate::ranges::lemma_run_len_to_end;

verus! {

/// The payload of one write: `bytes` at `offset`.
pub ghost struct Piece {
    pub offset: nat,
    pub bytes: Seq<u8>,
}

impl Piece {
    /// One past the last offset of the piece.
    pub open spec fn end(self) -> nat {
        self.offset + self.bytes.len()
    }

    /// Whether offset `o` lies in the piece.
    pub open spec fn covers(self, o: int) -> bool {
        self.offset <= o < self.end()
    }

    /// Whether the piece is cut out of `data` at its offset.
    pub open spec fn is_part_of(self, data: Seq<u8>) -> bool {
        &&& self.end() <= data.len()
        &&& self.bytes == data.subrange(self.offset as int, self.end() as int)
    }
}

/// The buffer after the pieces of `ws` were written, first to last, none of
/// them with the final flag.
pub open spec fn write_all(v: BufferModel, ws: Seq<Piece>) -> BufferModel
    decreases ws.len(),
{
    if ws.len() == 0 {
        v
    } else {
        write_all(v, ws.drop_last()).write(ws.last().offset, ws.last().bytes, false)
    }
}

/// Whether some piece of `ws` covers offset `o`.
pub open spec fn some_covers(ws: Seq<Piece>, o: int) -> bool {
    exists|k: int| 0 <= k < ws.len() && (#[trigger] ws[k]).covers(o)
}

/// The bytes of the pieces one after another, in the order of `ws`.
pub open spec fn concat(ws: Seq<Piece>) -> Seq<u8>
    decreases ws.len(),
{
    if ws.len() == 0 {
        Seq::empty()
    } else {
        concat(ws.drop_last()) + ws.last().bytes
    }
}

/// Whether the pieces lie in offset order, the first at offset 0 and each
/// where the one before it ends: they do not overlap and leave no gap.
pub open spec fn tiles(ws: Seq<Piece>) -> bool {
    &&& ws.len() > 0 ==> ws[0].offset == 0
    &&& forall|i: int, j: int|
        0 <= i && j == i + 1 && j < ws.len() ==> (#[trigger] ws[j]).offset == (#[trigger] ws[i]).end()
}

/// After pieces of `data` were written to a fresh buffer that has room for
/// all of `data`, the buffer has received exactly the offsets that some
/// piece covers, and holds at each of them the byte that `data` has there.
pub proof fn lemma_pieces_written(capacity: nat, data: Seq<u8>, ws: Seq<Piece>)
    requires
        data.len() <= capacity,
        forall|k: int| 0 <= k < ws.len() ==> (#[trigger] ws[k]).is_part_of(data),
    ensures
        ({
            let v = write_all(BufferModel::fresh(capacity), ws);
            &&& v.wf()
            &&& !v.reset
            &&& v.final_size is None
            &&& v.watermark == 0
            &&& v.capacity == capacity
            &&& v.highest <= data.len()
            &&& forall|o: int| #[trigger] v.received.contains(o) <==> some_covers(ws, o)
            &&& forall|o: int| #[trigger] v.received.contains(o) ==> v.content[o] == data[o]
        }),
    decreases ws.len(),
{
    let fresh = BufferModel::fresh(capacity);
    if ws.len() > 0 {
        let init = ws.drop_last();
        let last = ws.last();
        let p = write_all(fresh, init);
        let v = write_all(fresh, ws);
        assert forall|k: int| 0 <= k < init.len() implies (#[trigger] init[k]).is_part_of(data) by {
            assert(init[k] == ws[k]);
        }
        lemma_pieces_written(capacity, data, init);
        assert(last.is_part_of(data));
        assert(p.write_result(last.offset, last.bytes.len(), false) is Ok);
        assert(v == p.accept_write(last.offset, last.bytes, false));
        lemma_write_wf(p, last.offset, last.bytes, false);
        assert forall|o: int| #[trigger] v.received.contains(o) <==> some_covers(ws, o) by {
            assert(v.received.contains(o) <==> (p.received.contains(o) || last.covers(o)));
            if some_covers(ws, o) {
                let k = choose|k: int| 0 <= k < ws.len() && (#[trigger] ws[k]).covers(o);
                if k < init.len() {
                    assert(init[k].covers(o));
                    assert(some_covers(init, o));
                    assert(p.received.contains(o));
                }
            }
            if p.received.contains(o) {
                assert(some_covers(init, o));
                let k = choose|k: int| 0 <= k < init.len() && (#[trigger] init[k]).covers(o);
                assert(ws[k] == init[k]);
                assert(ws[k].covers(o));
            }
            if last.covers(o) {
                assert(ws[ws.len() - 1].covers(o));
            }
        }
        assert forall|o: int| #[trigger] v.received.contains(o) implies v.content[o] == data[o] by {
            if p.received.contains(o) {
                assert(v.content[o] == p.content[o]);
            } else {
                assert(last.covers(o));
                assert(v.content[o] == last.bytes[o - last.offset]);
            }
        }
    } else {
        let v = write_all(fresh, ws);
        assert forall|o: int| #[trigger] v.received.contains(o) <==> some_covers(ws, o) by {}
    }
}

/// Reassembly: once pieces of `data` that together cover all of it have
/// been written to a fresh buffer with room for it, in any order, with any
/// overlaps and repetitions, what can be read is `data`.
pub proof fn lemma_reassembly(capacity: nat, data: Seq<u8>, ws: Seq<Piece>)
    requires
        data.len() <= capacity,
        forall|k: int| 0 <= k < ws.len() ==> (#[trigger] ws[k]).is_part_of(data),
        forall|o: int| 0 <= o < data.len() ==> some_covers(ws, o),
    ensures
        write_all(BufferModel::fresh(capacity), ws).readable(data.len()) == data,
        write_all(BufferModel::fresh(capacity), ws).highest == data.len(),
{
    let v = write_all(BufferModel::fresh(capacity), ws);
    lemma_pieces_written(capacity, data, ws);
    let n = data.len();
    assert forall|o: int| 0 <= o < n implies v.received.contains(o) by {
        assert(some_covers(ws, o));
    }
    if n > 0 {
        assert(v.received.contains(n - 1));
    }
    assert(!v.received.contains(n as int));
    lemma_run_len_to_end(v.received, 0, n as int, n);
    assert forall|i: int| 0 <= i < n implies v.content[i] == data[i] by {
        assert(v.received.contains(i));
    }
    assert(v.readable(n) =~= data);
}

/// When the pieces tile `[0, N)`, their concatenation has length `N`, each
/// piece is cut out of the concatenation at its offset, and every offset
/// below `N` lies in one of them.
pub proof fn lemma_tiles_concat(ws: Seq<Piece>)
    requires
        tiles(ws),
    ensures
        concat(ws).len() == (if ws.len() == 0 {
            0
        } else {
            ws.last().end()
        }),
        forall|j: int| 0 <= j < ws.len() ==> (#[trigger] ws[j]).is_part_of(concat(ws)),
        forall|o: int| 0 <= o < concat(ws).len() ==> some_covers(ws, o),
    decreases ws.len(),
{
    if ws.len() > 0 {
        let init = ws.drop_last();
        let last = ws.last();
        assert(tiles(init)) by {
            if init.len() > 0 {
                assert(init[0] == ws[0]);
            }
            assert forall|i: int, j: int| 0 <= i && j == i + 1 && j < init.len() implies (
            #[trigger] init[j]).offset == (#[trigger] init[i]).end() by {
                assert(init[j] == ws[j]);
                assert(init[i] == ws[i]);
            }
        }
        lemma_tiles_concat(init);
        let whole = concat(ws);
        let front = concat(init);
        assert(whole == front + last.bytes);
        assert(last.offset == front.len()) by {
            if init.len() > 0 {
                assert(init.last() == ws[ws.len() - 2]);
                assert(ws[ws.len() - 1].offset == ws[ws.len() - 2].end());
            }
        }
        assert forall|j: int| 0 <= j < ws.len() implies (#[trigger] ws[j]).is_part_of(whole) by {
            if j < init.len() {
                assert(init[j].is_part_of(front));
                assert(ws[j] == init[j]);
                assert(whole.subrange(ws[j].offset as int, ws[j].end() as int) =~= front.subrange(
                    ws[j].offset as int,
                    ws[j].end() as int,
                ));
            } else {
                assert(whole.subrange(last.offset as int, last.end() as int) =~= last.bytes);
            }
        }
        assert forall|o: int| 0 <= o < whole.len() implies some_covers(ws, o) by {
            if o < front.len() {
                assert(some_covers(init, o));
                let k = choose|k: int| 0 <= k < init.len() && (#[trigger] init[k]).covers(o);
                assert(ws[k].covers(o));
            } else {
                assert(ws[ws.len() - 1].covers(o));
            }
        }
    }
}

/// Order independence: let `sorted` be writes that do not overlap and
/// together cover `[0, N)`, in offset order, and let `ws` be the same writes
/// in any other order. After the writes of `ws` were applied to a fresh
/// buffer with room for `N` bytes, what can be read is the concatenation of
/// the writes in offset order.
pub proof fn lemma_order_independence(capacity: nat, sorted: Seq<Piece>, ws: Seq<Piece>)
    requires
        tiles(sorted),
        ws.to_multiset() == sorted.to_multiset(),
        concat(sorted).len() <= capacity,
    ensures
        write_all(BufferModel::fresh(capacity), ws).readable(concat(sorted).len()) == concat(
            sorted,
        ),
{
    let data = concat(sorted);
    lemma_tiles_concat(sorted);
    assert forall|k: int| 0 <= k < ws.len() implies (#[trigger] ws[k]).is_part_of(data) by {
        assert(ws.contains(ws[k]));
        to_multiset_contains(ws, ws[k]);
        to_multiset_contains(sorted, ws[k]);
        let j = choose|j: int| 0 <= j < sorted.len() && sorted[j] == ws[k];
        assert(sorted[j].is_part_of(data));
    }
    assert forall|o: int| 0 <= o < data.len() implies some_covers(ws, o) by {
        assert(some_covers(sorted, o));
        let j = choose|j: int| 0 <= j < sorted.len() && (#[trigger] sorted[j]).covers(o);
        assert(sorted.contains(sorted[j]));
        to_multiset_contains(sorted, sorted[j]);
        to_multiset_contains(ws, sorted[j]);
        let k = choose|k: int| 0 <= k < ws.len() && ws[k] == sorted[j];
        assert(ws[k].covers(o));
    }
    lemma_reassembly(capacity, data, ws);
}

} // verus!
