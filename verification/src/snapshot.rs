//! Snapshot transfer: a snapshot travels as a run of chunks numbered from 0,
//! each tagged with the clock of the snapshot it belongs to.

use crate::clock::Clock;
use crate::error::Error;
use vstd::prelude::*;

verus! {

/// The default number of bytes per chunk.
pub const SNAPSHOT_CHUNK_SIZE: usize = 65536;

/// One piece of a snapshot.
#[derive(Debug)]
pub struct InstallSnapshotChunk {
    pub snapshot_clock: Clock,
    /// Position of the chunk in the run, from 0.
    pub seq: u64,
    /// Whether the run ends here.
    pub last: bool,
    pub data: Vec<u8>,
}

/// The number of chunks that `len` bytes take with `size` bytes per chunk; an
/// empty snapshot still takes one.
pub open spec fn chunk_count(len: int, size: int) -> int {
    if len == 0 {
        1
    } else {
        (len + size - 1) / size
    }
}

/// Where chunk `k` ends in the snapshot.
pub open spec fn chunk_end(len: int, size: int, k: int) -> int {
    if (k + 1) * size < len {
        (k + 1) * size
    } else {
        len
    }
}

/// Whether `chunks` is the run that carries `data` for the snapshot at `clock`
/// with `size` bytes per chunk.
pub open spec fn is_run_of(
    chunks: Seq<InstallSnapshotChunk>,
    clock: Clock,
    data: Seq<u8>,
    size: int,
) -> bool {
    &&& chunks.len() == chunk_count(data.len() as int, size)
    &&& forall|k: int|
        0 <= k < chunks.len() ==> {
            &&& (#[trigger] chunks[k]).snapshot_clock == clock
            &&& chunks[k].seq == k
            &&& chunks[k].last == (k == chunks.len() - 1)
            &&& chunks[k].data@ == data.subrange(k * size, chunk_end(data.len() as int, size, k))
        }
}

/// Cuts a snapshot into chunks of `chunk_size` bytes; a size of 0 is taken as 1.
pub fn split_chunks(snapshot_clock: Clock, data: &Vec<u8>, chunk_size: usize) -> (chunks: Vec<
    InstallSnapshotChunk,
>)
    ensures
        is_run_of(
            chunks@,
            snapshot_clock,
            data@,
            if chunk_size == 0 {
                1
            } else {
                chunk_size as int
            },
        ),
{
    let size: usize = if chunk_size == 0 {
        1
    } else {
        chunk_size
    };
    let len: usize = data.len();
    let mut chunks: Vec<InstallSnapshotChunk> = Vec::new();
    if len == 0 {
        chunks.push(InstallSnapshotChunk { snapshot_clock, seq: 0, last: true, data: Vec::new() });
        assert(chunks@[0].data@ =~= data@.subrange(0, 0));
        return chunks;
    }
    let mut offset: usize = 0;
    let mut k: u64 = 0;
    while offset < len
        invariant
            len == data@.len(),
            len > 0,
            size > 0,
            offset < len ==> offset == k * size,
            offset == len ==> k >= 1 && (k - 1) * size < len <= k * size,
            offset <= len,
            chunks@.len() == k,
            forall|j: int|
                0 <= j < k ==> {
                    &&& (#[trigger] chunks@[j]).snapshot_clock == snapshot_clock
                    &&& chunks@[j].seq == j
                    &&& chunks@[j].last == ((j + 1) * size >= len)
                    &&& chunks@[j].data@ == data@.subrange(
                        j * size,
                        chunk_end(len as int, size as int, j),
                    )
                },
        decreases len - offset,
    {
        let end: usize = if len - offset > size {
            offset + size
        } else {
            len
        };
        assert((k + 1) * size == k * size + size) by (nonlinear_arith);
        let mut piece: Vec<u8> = Vec::new();
        let mut i: usize = offset;
        while i < end
            invariant
                offset <= i <= end <= len,
                len == data@.len(),
                piece@ == data@.subrange(offset as int, i as int),
            decreases end - i,
        {
            piece.push(data[i]);
            assert(data@.subrange(offset as int, i + 1) =~= data@.subrange(
                offset as int,
                i as int,
            ).push(data@[i as int]));
            i = i + 1;
        }
        assert(k < u64::MAX) by {
            assert(k * size >= k) by (nonlinear_arith)
                requires
                    size >= 1,
                    k >= 0,
            ;
        }
        chunks.push(InstallSnapshotChunk { snapshot_clock, seq: k, last: end == len, data: piece });
        offset = end;
        k = k + 1;
    }
    proof {
        let n = k as int;
        let s = size as int;
        let l = len as int;
        assert(n == (l + s - 1) / s) by (nonlinear_arith)
            requires
                (n - 1) * s < l <= n * s,
                s > 0,
        ;
        assert forall|j: int| 0 <= j < chunks@.len() implies (#[trigger] chunks@[j]).last == (j
            == chunks@.len() - 1) by {
            if j < n - 1 {
                assert((j + 1) * s <= (n - 1) * s) by (nonlinear_arith)
                    requires
                        j + 1 <= n - 1,
                        s > 0,
                ;
            } else {
                assert(j + 1 == n);
            }
        }
    }
    chunks
}

/// The mathematical content of a [`SnapshotReceiver`].
pub struct ReceiverView {
    /// The clock of the snapshot being received, if one is.
    pub clock: Option<Clock>,
    /// The position that the next chunk must have.
    pub next_seq: u64,
    /// What was received so far.
    pub data: Seq<u8>,
}

impl ReceiverView {
    pub open spec fn idle() -> ReceiverView {
        ReceiverView { clock: None, next_seq: 0, data: Seq::empty() }
    }

    /// Whether the chunk is the one that the receiver waits for. Chunk 0 is
    /// always in order: it starts a transfer, or starts one over.
    pub open spec fn in_order(self, chunk: InstallSnapshotChunk) -> bool {
        chunk.seq == 0 || (self.clock == Some(chunk.snapshot_clock) && chunk.seq == self.next_seq
            && chunk.seq < u64::MAX)
    }

    /// What was received once the chunk, which is in order, is added.
    pub open spec fn gathered(self, chunk: InstallSnapshotChunk) -> Seq<u8> {
        if chunk.seq == 0 {
            chunk.data@
        } else {
            self.data + chunk.data@
        }
    }
}

/// The follower's side of a snapshot transfer.
#[derive(Debug)]
pub struct SnapshotReceiver {
    clock: Option<Clock>,
    next_seq: u64,
    data: Vec<u8>,
}

impl View for SnapshotReceiver {
    type V = ReceiverView;

    closed spec fn view(&self) -> ReceiverView {
        ReceiverView { clock: self.clock, next_seq: self.next_seq, data: self.data@ }
    }
}

impl SnapshotReceiver {
    /// A receiver that waits for chunk 0.
    pub fn new() -> (r: SnapshotReceiver)
        ensures
            r@ == ReceiverView::idle(),
    {
        SnapshotReceiver { clock: None, next_seq: 0, data: Vec::new() }
    }

    /// Takes one chunk. Returns the whole snapshot when the chunk ends the
    /// run, and `None` while more are to come.
    ///
    /// A chunk out of order, or of another snapshot than the one being
    /// received, is refused with [`Error::BadSnapshotChunk`] and ends the
    /// transfer; the sender starts over from chunk 0.
    pub fn accept(&mut self, chunk: InstallSnapshotChunk) -> (r: Result<Option<Vec<u8>>, Error>)
        ensures
            r.is_ok() == old(self)@.in_order(chunk),
            r matches Ok(Some(whole)) ==> chunk.last && whole@ == old(self)@.gathered(chunk),
            r matches Ok(None) ==> !chunk.last,
            r matches Err(e) ==> e == Error::BadSnapshotChunk,
            final(self)@ == if r matches Ok(None) {
                ReceiverView {
                    clock: Some(chunk.snapshot_clock),
                    next_seq: (chunk.seq + 1) as u64,
                    data: old(self)@.gathered(chunk),
                }
            } else {
                ReceiverView::idle()
            },
    {
        let in_order: bool = chunk.seq == 0 || (match self.clock {
            Some(c) => c == chunk.snapshot_clock,
            None => false,
        } && chunk.seq == self.next_seq && chunk.seq < u64::MAX);
        if !in_order {
            self.clock = None;
            self.next_seq = 0;
            self.data = Vec::new();
            return Err(Error::BadSnapshotChunk);
        }
        let mut piece: Vec<u8> = chunk.data;
        if chunk.seq == 0 {
            self.data = Vec::new();
            assert(self.data@ + piece@ =~= piece@);
        }
        self.data.append(&mut piece);
        if chunk.last {
            let mut whole: Vec<u8> = Vec::new();
            std::mem::swap(&mut self.data, &mut whole);
            self.clock = None;
            self.next_seq = 0;
            Ok(Some(whole))
        } else {
            self.clock = Some(chunk.snapshot_clock);
            self.next_seq = chunk.seq + 1;
            Ok(None)
        }
    }
}

/// The data of the first `k` chunks, put together.
pub open spec fn joined(chunks: Seq<InstallSnapshotChunk>, k: int) -> Seq<u8>
    decreases k,
{
    if k <= 0 {
        Seq::empty()
    } else {
        joined(chunks, k - 1) + chunks[k - 1].data@
    }
}

/// The first `k` chunks of a run carry the snapshot up to where chunk `k - 1` ends.
pub proof fn lemma_run_prefix(
    chunks: Seq<InstallSnapshotChunk>,
    clock: Clock,
    data: Seq<u8>,
    size: int,
    k: int,
)
    requires
        size > 0,
        is_run_of(chunks, clock, data, size),
        0 <= k <= chunks.len(),
    ensures
        joined(chunks, k) == data.subrange(
            0,
            if k == 0 {
                0
            } else {
                chunk_end(data.len() as int, size, k - 1)
            },
        ),
    decreases k,
{
    let len = data.len() as int;
    let n = chunks.len() as int;
    if k == 0 {
        assert(joined(chunks, 0) =~= data.subrange(0, 0));
    } else {
        lemma_run_prefix(chunks, clock, data, size, k - 1);
        let before = if k - 1 == 0 {
            0
        } else {
            chunk_end(len, size, k - 2)
        };
        let piece = chunks[k - 1];
        assert(piece.data@ == data.subrange((k - 1) * size, chunk_end(len, size, k - 1)));
        // the chunk before this one is not the last, so it is a full one
        if k - 1 > 0 {
            assert(((k - 2) + 1) * size == (k - 1) * size);
            if len == 0 {
                assert(n == 1);
            } else {
                assert((k - 1) * size < len) by (nonlinear_arith)
                    requires
                        n == (len + size - 1) / size,
                        k - 1 <= n - 1,
                        size > 0,
                        len > 0,
                {
                    assert(n * size - size < len);
                    assert((k - 1) * size <= (n - 1) * size);
                }
            }
            assert(before == (k - 1) * size);
        } else {
            assert((k - 1) * size == 0);
        }
        assert((k - 1) * size <= chunk_end(len, size, k - 1) <= len) by (nonlinear_arith)
            requires
                (k - 1) * size <= len,
                size > 0,
                chunk_end(len, size, k - 1) == if ((k - 1) + 1) * size < len {
                    ((k - 1) + 1) * size
                } else {
                    len
                },
        ;
        assert(joined(chunks, k) =~= data.subrange(0, chunk_end(len, size, k - 1)));
    }
}

/// The chunks of a run, put together, are the snapshot.
pub proof fn lemma_run_is_whole(
    chunks: Seq<InstallSnapshotChunk>,
    clock: Clock,
    data: Seq<u8>,
    size: int,
)
    requires
        size > 0,
        is_run_of(chunks, clock, data, size),
    ensures
        joined(chunks, chunks.len() as int) == data,
{
    let len = data.len() as int;
    let n = chunks.len() as int;
    lemma_run_prefix(chunks, clock, data, size, n);
    if len == 0 {
        assert(chunk_end(len, size, n - 1) == 0);
    } else {
        assert(n * size >= len) by (nonlinear_arith)
            requires
                n == (len + size - 1) / size,
                size > 0,
        ;
        assert(((n - 1) + 1) * size == n * size);
    }
    assert(data.subrange(0, len) =~= data);
}

/// Puts a snapshot together from chunks that arrived in this order. Returns
/// the snapshot when the chunks are a run from chunk 0 to a last chunk, all of
/// one snapshot; anything else is refused with [`Error::BadSnapshotChunk`].
pub fn reassemble(chunks: Vec<InstallSnapshotChunk>) -> (r: Result<Vec<u8>, Error>)
    ensures
        r.is_ok() == (chunks@.len() > 0 && forall|k: int|
            0 <= k < chunks@.len() ==> {
                &&& (#[trigger] chunks@[k]).seq == k
                &&& chunks@[k].snapshot_clock == chunks@[0].snapshot_clock
                &&& chunks@[k].last == (k == chunks@.len() - 1)
            }),
        r matches Ok(whole) ==> whole@ == joined(chunks@, chunks@.len() as int),
        r matches Err(e) ==> e == Error::BadSnapshotChunk,
{
    let ghost all = chunks@;
    let n: usize = chunks.len();
    if n == 0 {
        return Err(Error::BadSnapshotChunk);
    }
    let mut queue = chunks;
    let mut receiver = SnapshotReceiver::new();
    let mut k: usize = 0;
    while k < n
        invariant
            n == all.len(),
            n > 0,
            k < n || (k == n && false),
            all == chunks@,
            queue@.len() == n - k,
            forall|j: int| 0 <= j < queue@.len() ==> queue@[j] == all[k + j],
            forall|j: int|
                0 <= j < k ==> {
                    &&& (#[trigger] all[j]).seq == j
                    &&& all[j].snapshot_clock == all[0].snapshot_clock
                    &&& !all[j].last
                },
            receiver@ == if k == 0 {
                ReceiverView::idle()
            } else {
                ReceiverView {
                    clock: Some(all[0].snapshot_clock),
                    next_seq: k as u64,
                    data: joined(all, k as int),
                }
            },
        decreases n - k,
    {
        let chunk = queue.remove(0);
        assert(chunk == all[k as int]);
        let ghost before = receiver@;
        if chunk.seq != k as u64 {
            return Err(Error::BadSnapshotChunk);
        }
        proof {
            assert(before.gathered(chunk) =~= joined(all, k + 1)) by {
                assert(joined(all, 0) =~= Seq::<u8>::empty());
                assert(joined(all, k + 1) == joined(all, k as int) + all[k as int].data@);
            }
        }
        let last: bool = chunk.last;
        match receiver.accept(chunk) {
            Err(e) => {
                assert(all[k as int].snapshot_clock != all[0].snapshot_clock);
                return Err(e);
            },
            Ok(Some(whole)) => {
                if k + 1 == n {
                    return Ok(whole);
                }
                assert(all[k as int].last);
                return Err(Error::BadSnapshotChunk);
            },
            Ok(None) => {
                if k + 1 == n {
                    assert(!all[k as int].last);
                    return Err(Error::BadSnapshotChunk);
                }
            },
        }
        k = k + 1;
    }
    Err(Error::BadSnapshotChunk)
}

} // verus!
