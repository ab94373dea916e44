//! Writing a file as its bytes come in.
//!
//! As long as the bytes come in order they are cut and stored on the way. A write out of order
//! makes the writer hold the whole content instead.

use crate::catalog::ChunkRef;
use crate::chunking::{cdc_params, cut_points, CdcParams};
use crate::error::VaultError;
use crate::vault::write::BlockWrite;
use crate::vault::{Vault, VaultView};
use std::sync::Arc;
use vstd::prelude::*;

verus! {

/// A file that is being written.
pub struct StreamWriter {
    chunks: Vec<ChunkRef>,
    /// What is not cut yet.
    pending: Vec<u8>,
    /// Where the next byte in order goes.
    next_offset: u64,
    size: u64,
    /// The whole content, once a write came out of order.
    fallback: Option<Vec<u8>>,
    params: CdcParams,
}

/// A writer as a value.
#[verifier::ext_equal]
pub struct WriterView {
    pub chunks: Seq<ChunkRef>,
    pub pending: Seq<u8>,
    pub next_offset: u64,
    pub size: u64,
    pub fallback: Option<Seq<u8>>,
    pub params: CdcParams,
}

impl View for StreamWriter {
    type V = WriterView;

    closed spec fn view(&self) -> WriterView {
        WriterView {
            chunks: self.chunks@,
            pending: self.pending@,
            next_offset: self.next_offset,
            size: self.size,
            fallback: match self.fallback {
                Some(b) => Some(b@),
                None => None,
            },
            params: self.params,
        }
    }
}

impl WriterView {
    /// `bytes` were written so far.
    pub open spec fn holds(self, bytes: Seq<u8>) -> bool {
        &&& self.size == bytes.len()
        &&& match self.fallback {
            Some(b) => b == bytes,
            None => {
                let n = bytes.len() - self.pending.len();
                &&& n >= 0
                &&& self.next_offset == bytes.len()
                &&& bytes.skip(n) == self.pending
                &&& crate::chunking::describes(self.chunks, bytes.take(n))
            },
        }
    }
}

/// `b` with `data` laid over it at `at`, and zeros in a gap.
pub open spec fn overwritten(b: Seq<u8>, at: int, data: Seq<u8>) -> Seq<u8> {
    let end = at + data.len();
    Seq::new(
        (if b.len() >= end {
            b.len() as int
        } else {
            end
        }) as nat,
        |i: int|
            if at <= i < end {
                data[i - at]
            } else if i < b.len() {
                b[i]
            } else {
                0u8
            },
    )
}

/// Lays `data` over `buf` at `at`; a gap is filled with zeros.
pub fn overlay(buf: &mut Vec<u8>, at: usize, data: &[u8])
    requires
        at + data@.len() <= usize::MAX,
    ensures
        final(buf)@ == overwritten(old(buf)@, at as int, data@),
{
    let ghost b = buf@;
    let end: usize = at + data.len();
    let had: usize = buf.len();
    if end > had {
        crate::bytes::push_zeros(buf, end - had);
    }
    let mut i: usize = 0;
    while i < data.len()
        invariant
            i <= data@.len(),
            end == at + data@.len(),
            end <= buf@.len(),
            buf@.len() == overwritten(b, at as int, data@).len(),
            forall|j: int|
                0 <= j < buf@.len() && !(at + i <= j < end) ==> buf@[j] == overwritten(
                    b,
                    at as int,
                    data@,
                )[j],
        decreases data@.len() - i,
    {
        buf.set(at + i, data[i]);
        i = i + 1;
    }
    assert(buf@ =~= overwritten(b, at as int, data@));
}

impl StreamWriter {
    pub closed spec fn wf(self) -> bool {
        self.params.valid()
    }

    /// How long the file is so far.
    pub fn len(&self) -> (r: u64)
        ensures
            r == self@.size,
    {
        self.size
    }

    pub fn is_empty(&self) -> (r: bool)
        ensures
            r == (self@.size == 0),
    {
        self.size == 0
    }

    /// The addresses of the blocks that were stored so far.
    pub fn stored_chunks(&self) -> (r: &Vec<ChunkRef>)
        ensures
            r@ == self@.chunks,
    {
        &self.chunks
    }
}

/// What a write asks of the caller.
#[derive(Clone, Copy, Debug, PartialEq, Eq, Structural)]
pub enum StreamStep {
    Done,
    /// The write is out of order: fetch the blocks stored so far, call
    /// [`switch_to_fallback`] with them and write again.
    NeedsContent,
}

/// A writer that nothing was written to.
pub open spec fn fresh_writer(chunk_size: u32) -> WriterView {
    WriterView {
        chunks: Seq::empty(),
        pending: Seq::empty(),
        next_offset: 0,
        size: 0,
        fallback: None,
        params: crate::chunking::params_for(chunk_size),
    }
}

/// The contents of the blocks, one after the other.
pub open spec fn joined(blocks: Seq<Arc<Vec<u8>>>) -> Seq<u8>
    decreases blocks.len(),
{
    if blocks.len() == 0 {
        Seq::empty()
    } else {
        joined(blocks.drop_last()) + blocks.last()@
    }
}

/// The blocks are those that the chunks name.
pub open spec fn blocks_match(chunks: Seq<ChunkRef>, blocks: Seq<Arc<Vec<u8>>>, bytes: Seq<u8>) -> bool {
    blocks.len() == chunks.len() && forall|i: int|
        0 <= i < blocks.len() ==> (#[trigger] blocks[i])@ == bytes.subrange(
            crate::chunking::chunk_start(chunks, i) as int,
            crate::chunking::chunk_start(chunks, i + 1) as int,
        )
}

/// What the writer holds if its stored blocks are `blocks`.
pub open spec fn content_of(w: WriterView, blocks: Seq<Arc<Vec<u8>>>) -> Seq<u8> {
    match w.fallback {
        Some(b) => b,
        None => joined(blocks) + w.pending,
    }
}

/// The content of a writer, from the blocks that it stored.
pub fn writer_content(w: &StreamWriter, blocks: &Vec<Arc<Vec<u8>>>) -> (r: Vec<u8>)
    ensures
        r@ == content_of(w@, blocks@),
{
    if let Some(b) = &w.fallback {
        return crate::pipeline::bytes_of(b.as_slice());
    }
    let mut buf: Vec<u8> = Vec::new();
    let mut i: usize = 0;
    assert(blocks@.take(0) =~= Seq::empty());
    while i < blocks.len()
        invariant
            i <= blocks@.len(),
            buf@ == joined(blocks@.take(i as int)),
        decreases blocks@.len() - i,
    {
        assert(blocks@.take(i + 1).drop_last() =~= blocks@.take(i as int));
        buf.extend_from_slice(blocks[i].as_slice());
        assert(buf@ =~= joined(blocks@.take(i as int)) + blocks@[i as int]@);
        i = i + 1;
    }
    assert(blocks@.take(i as int) =~= blocks@);
    buf.extend_from_slice(w.pending.as_slice());
    assert(buf@ =~= joined(blocks@) + w.pending@);
    buf
}

/// The writer when it holds its whole content.
pub open spec fn switched(w: WriterView, blocks: Seq<Arc<Vec<u8>>>) -> WriterView {
    WriterView {
        chunks: Seq::empty(),
        pending: Seq::empty(),
        fallback: Some(content_of(w, blocks)),
        ..w
    }
}

/// Makes the writer hold its whole content.
pub fn switch_to_fallback(w: &mut StreamWriter, blocks: &Vec<Arc<Vec<u8>>>)
    requires
        old(w).wf(),
    ensures
        final(w).wf(),
        final(w)@ == switched(old(w)@, blocks@),
{
    let buf = writer_content(w, blocks);
    w.fallback = Some(buf);
    w.chunks.clear();
    w.pending.clear();
}

/// The blocks of a file, one after the other, are its content.
pub proof fn lemma_joined(chunks: Seq<ChunkRef>, blocks: Seq<Arc<Vec<u8>>>, bytes: Seq<u8>)
    requires
        blocks_match(chunks, blocks, bytes),
        crate::chunking::chunk_start(chunks, chunks.len() as int) == bytes.len(),
    ensures
        joined(blocks) == bytes,
{
    lemma_joined_prefix(chunks, blocks, bytes, blocks.len() as int);
    assert(blocks.take(blocks.len() as int) =~= blocks);
    assert(bytes.take(bytes.len() as int) =~= bytes);
}

proof fn lemma_joined_prefix(
    chunks: Seq<ChunkRef>,
    blocks: Seq<Arc<Vec<u8>>>,
    bytes: Seq<u8>,
    n: int,
)
    requires
        blocks_match(chunks, blocks, bytes),
        crate::chunking::chunk_start(chunks, chunks.len() as int) == bytes.len(),
        0 <= n <= blocks.len(),
    ensures
        joined(blocks.take(n)) == bytes.take(crate::chunking::chunk_start(chunks, n) as int),
        crate::chunking::chunk_start(chunks, n) <= bytes.len(),
    decreases n,
{
    crate::chunking::lemma_start_monotone(chunks, n, chunks.len() as int);
    if n > 0 {
        lemma_joined_prefix(chunks, blocks, bytes, n - 1);
        assert(blocks.take(n).drop_last() =~= blocks.take(n - 1));
        assert(blocks.take(n).last() == blocks[n - 1]);
        crate::chunking::lemma_start_monotone(chunks, n - 1, n);
        assert(bytes.take(crate::chunking::chunk_start(chunks, n) as int) =~= bytes.take(
            crate::chunking::chunk_start(chunks, n - 1) as int,
        ) + bytes.subrange(
            crate::chunking::chunk_start(chunks, n - 1) as int,
            crate::chunking::chunk_start(chunks, n) as int,
        ));
    } else {
        assert(blocks.take(0) =~= Seq::empty());
        assert(bytes.take(0) =~= Seq::empty());
    }
}

/// To hold the whole content changes nothing in what was written.
pub proof fn switching_keeps_content(w: WriterView, blocks: Seq<Arc<Vec<u8>>>, bytes: Seq<u8>)
    requires
        w.holds(bytes),
        w.fallback is None ==> blocks_match(
            w.chunks,
            blocks,
            bytes.take(bytes.len() - w.pending.len()),
        ),
    ensures
        content_of(w, blocks) == bytes,
{
    if w.fallback is None {
        reveal(crate::chunking::describes);
        let n = bytes.len() - w.pending.len();
        lemma_joined(w.chunks, blocks, bytes.take(n));
        assert(bytes =~= bytes.take(n) + bytes.skip(n));
    }
}

/// The cuts that a writer makes in what is pending.
pub open spec fn pending_cuts(w: WriterView) -> Seq<(usize, usize)> {
    crate::chunking::fastcdc_cuts(w.pending, w.params.min, w.params.avg, w.params.max)
}

/// `w` with `data` behind what is pending.
pub open spec fn appended(w: WriterView, data: Seq<u8>) -> WriterView {
    WriterView {
        pending: w.pending + data,
        next_offset: (w.next_offset + data.len()) as u64,
        size: (w.next_offset + data.len()) as u64,
        ..w
    }
}

/// All pieces of what is pending but the last one are stored.
pub open spec fn flushed(
    v0: VaultView,
    v: VaultView,
    w0: WriterView,
    w: WriterView,
    out0: Seq<BlockWrite>,
    out: Seq<BlockWrite>,
) -> bool {
    let cuts = pending_cuts(w0);
    if cuts.len() <= 1 {
        v == v0 && w == w0 && out == out0
    } else {
        &&& crate::vault::write::stored_so_far(
            v0,
            v,
            w0.pending,
            cuts,
            w0.chunks,
            w.chunks,
            out0,
            out,
        )
        &&& w.chunks.len() == w0.chunks.len() + cuts.len() - 1
        &&& w == (WriterView {
            chunks: w.chunks,
            pending: w0.pending.skip(cuts.last().0 as int),
            ..w0
        })
    }
}

/// Some pieces of what is pending are stored and then one was refused.
pub open spec fn flush_refused(
    v0: VaultView,
    v: VaultView,
    w0: WriterView,
    w: WriterView,
    e: VaultError,
    out0: Seq<BlockWrite>,
    out: Seq<BlockWrite>,
) -> bool {
    let cuts = pending_cuts(w0);
    let k = w.chunks.len() - w0.chunks.len();
    &&& crate::vault::write::stored_so_far(
        v0,
        v,
        w0.pending,
        cuts,
        w0.chunks,
        w.chunks,
        out0,
        out,
    )
    &&& k < cuts.len() - 1
    &&& crate::vault::write::refused(
        v,
        crate::vault::write::pieces_of(w0.pending, cuts)[k],
        e,
    )
    &&& w == (WriterView { chunks: w.chunks, ..w0 })
}

/// What writing `data` at `offset` does to the vault and to the writer, and what it answers.
pub open spec fn stream_step(
    v0: VaultView,
    v: VaultView,
    w0: WriterView,
    w: WriterView,
    offset: u64,
    data: Seq<u8>,
    out0: Seq<BlockWrite>,
    out: Seq<BlockWrite>,
    r: Result<StreamStep, VaultError>,
) -> bool {
    match w0.fallback {
        Some(b) => {
            &&& r == Ok::<StreamStep, VaultError>(StreamStep::Done)
            &&& v == v0
            &&& out == out0
            &&& w == (WriterView {
                fallback: Some(overwritten(b, offset as int, data)),
                size: if w0.size >= offset + data.len() {
                    w0.size
                } else {
                    (offset + data.len()) as u64
                },
                ..w0
            })
        },
        None => if offset != w0.next_offset {
            &&& r == Ok::<StreamStep, VaultError>(StreamStep::NeedsContent)
            &&& v == v0
            &&& out == out0
            &&& w == w0
        } else {
            let more = appended(w0, data);
            if more.pending.len() < 2 * more.params.max {
                &&& r == Ok::<StreamStep, VaultError>(StreamStep::Done)
                &&& v == v0
                &&& out == out0
                &&& w == more
            } else {
                match r {
                    Ok(step) => step == StreamStep::Done && flushed(
                        v0,
                        v,
                        more,
                        w,
                        out0,
                        out,
                    ),
                    Err(e) => flush_refused(
                        v0,
                        v,
                        more,
                        w,
                        e,
                        out0,
                        out,
                    ),
                }
            }
        },
    }
}

/// The first cuts of a tiling tile what they cover.
proof fn lemma_tiles_prefix(cuts: Seq<(usize, usize)>, n: nat, max: nat, k: int)
    requires
        crate::chunking::tiles(cuts, n, max),
        0 <= k < cuts.len(),
    ensures
        crate::chunking::tiles(cuts.take(k), cuts[k].0 as nat, max),
        cuts[k].0 <= n,
{
    crate::chunking::lemma_tiles_bounds(cuts, n, max, k);
    let front = cuts.take(k);
    if k > 0 {
        assert(front.last() == cuts[k - 1]);
        assert(cuts[k - 1].0 + cuts[k - 1].1 == cuts[k].0);
        assert(front[0] == cuts[0]);
    } else {
        assert(cuts[0].0 == 0);
    }
    assert forall|i: int| 0 <= i < front.len() implies 0 < (#[trigger] front[i]).1 <= max by {
        assert(front[i] == cuts[i]);
    }
    assert forall|i: int, j: int|
        #![trigger front[i], front[j]]
        0 <= i && j == i + 1 && j < front.len() implies front[i].0 + front[i].1 == front[j].0 by {
        assert(front[i] == cuts[i] && front[j] == cuts[j]);
    }
}

/// Chunks that follow the first cuts of a tiling describe what these cover.
proof fn lemma_front_described(
    chunks: Seq<ChunkRef>,
    data: Seq<u8>,
    cuts: Seq<(usize, usize)>,
    max: nat,
    k: int,
)
    requires
        crate::chunking::tiles(cuts, data.len(), max),
        0 <= k < cuts.len(),
        crate::chunking::follow_cuts(chunks, data, cuts.take(k)),
    ensures
        cuts[k].0 <= data.len(),
        crate::chunking::describes(chunks, data.take(cuts[k].0 as int)),
{
    let cut = cuts[k].0 as int;
    let front = data.take(cut);
    lemma_tiles_prefix(cuts, data.len(), max, k);
    assert forall|i: int| 0 <= i < k implies crate::chunking::is_cut(
        #[trigger] chunks[i],
        front,
        cuts.take(k)[i],
    ) by {
        assert(crate::chunking::is_cut(chunks[i], data, cuts.take(k)[i]));
        crate::chunking::lemma_tiles_bounds(cuts.take(k), cut as nat, max, i);
        let c = cuts.take(k)[i];
        assert(front.subrange(c.0 as int, c.0 + c.1) =~= data.subrange(c.0 as int, c.0 + c.1));
    }
    crate::chunking::lemma_cuts_describe(chunks, front, cuts.take(k), max);
}

/// Where a sequence is parted further behind.
proof fn lemma_part_later(bytes: Seq<u8>, n: int, pending: Seq<u8>, cut: int)
    requires
        0 <= n <= bytes.len(),
        bytes.skip(n) == pending,
        0 <= cut <= pending.len(),
    ensures
        bytes.take(n + cut) == bytes.take(n) + pending.take(cut),
        bytes.skip(n + cut) == pending.skip(cut),
{
    assert(bytes.take(n + cut) =~= bytes.take(n) + bytes.skip(n).take(cut));
    assert(bytes.skip(n + cut) =~= bytes.skip(n).skip(cut));
}

/// Storing pieces of what is pending keeps the content.
proof fn lemma_flush_keeps(
    w0: WriterView,
    w: WriterView,
    chunks: Seq<ChunkRef>,
    max: nat,
    bytes: Seq<u8>,
)
    requires
        w0.holds(bytes),
        w0.fallback is None,
        pending_cuts(w0).len() > 1,
        crate::chunking::tiles(pending_cuts(w0), w0.pending.len(), max),
        crate::chunking::follow_cuts(
            chunks,
            w0.pending,
            pending_cuts(w0).take(pending_cuts(w0).len() - 1),
        ),
        w == (WriterView {
            chunks: w0.chunks + chunks,
            pending: w0.pending.skip(pending_cuts(w0).last().0 as int),
            ..w0
        }),
    ensures
        w.holds(bytes),
{
    let cuts = pending_cuts(w0);
    let k = cuts.len() - 1;
    let cut = cuts[k].0 as int;
    let n = bytes.len() - w0.pending.len();
    lemma_front_described(chunks, w0.pending, cuts, max, k);
    lemma_part_later(bytes, n, w0.pending, cut);
    crate::chunking::lemma_describes_concat(
        w0.chunks,
        bytes.take(n),
        chunks,
        w0.pending.take(cut),
    );
}

/// A writer that stored pieces of what was pending holds what it held.
pub proof fn flushed_writer_holds(
    v0: VaultView,
    v: VaultView,
    w0: WriterView,
    w: WriterView,
    out0: Seq<BlockWrite>,
    out: Seq<BlockWrite>,
    bytes: Seq<u8>,
)
    requires
        w0.holds(bytes),
        w0.fallback is None,
        flushed(v0, v, w0, w, out0, out),
    ensures
        w.holds(bytes),
{
    let cuts = pending_cuts(w0);
    if cuts.len() > 1 {
        let new = w.chunks.skip(w0.chunks.len() as int);
        assert(w.chunks =~= w0.chunks + new);
        lemma_flush_keeps(w0, w, new, crate::chunking::MAX_CHUNK as nat, bytes);
    }
}

impl Vault {
    /// Starts writing a file.
    pub fn stream_writer(&self) -> (r: StreamWriter)
        ensures
            r.wf(),
            r@ == fresh_writer(self@.chunk_size),
            r@.holds(Seq::empty()),
    {
        let r = StreamWriter {
            chunks: Vec::new(),
            pending: Vec::new(),
            next_offset: 0,
            size: 0,
            fallback: None,
            params: cdc_params(self.chunk_size),
        };
        proof {
            crate::chunking::lemma_describes_nothing();
            assert(r@ =~= fresh_writer(self@.chunk_size));
            assert(Seq::<u8>::empty().skip(0) =~= r@.pending);
            assert(Seq::<u8>::empty().take(0) =~= Seq::<u8>::empty());
        }
        r
    }

    /// Stores the pieces of what is pending but for the last one, which may still grow.
    fn flush_complete_chunks(&mut self, w: &mut StreamWriter, out: &mut Vec<BlockWrite>) -> (r:
        Result<(), VaultError>)
        requires
            old(self).wf(),
            old(w).wf(),
            old(w)@.fallback is None,
            crate::vault::write::has_room(old(self)@, old(w)@.pending.len()),
        ensures
            final(self).wf(),
            final(w).wf(),
            match r {
                Ok(()) => flushed(
                    old(self)@,
                    final(self)@,
                    old(w)@,
                    final(w)@,
                    old(out)@,
                    final(out)@,
                ) && forall|b: Seq<u8>| #[trigger] old(w)@.holds(b) ==> final(w)@.holds(b),
                Err(e) => flush_refused(
                    old(self)@,
                    final(self)@,
                    old(w)@,
                    final(w)@,
                    e,
                    old(out)@,
                    final(out)@,
                ),
            },
    {
        let ghost w0 = w@;
        let cuts = cut_points(w.pending.as_slice(), w.params);
        if cuts.len() <= 1 {
            return Ok(());
        }
        let last_off: usize = cuts[cuts.len() - 1].0;
        proof {
            crate::chunking::lemma_tiles_bounds(
                cuts@,
                w.pending@.len(),
                w.params.max as nat,
                cuts@.len() - 1,
            );
        }
        match self.store_cuts(
            w.pending.as_slice(),
            &cuts,
            cuts.len() - 1,
            &mut w.chunks,
            out,
        ) {
            Err(e) => {
                assert(w@ =~= (WriterView { chunks: w@.chunks, ..w0 }));
                Err(e)
            },
            Ok(()) => {
                let rest = crate::pipeline::bytes_of(
                    vstd::slice::slice_subrange(w.pending.as_slice(), last_off, w.pending.len()),
                );
                w.pending = rest;
                proof {
                    let new = w@.chunks.skip(w0.chunks.len() as int);
                    assert(w@.chunks =~= w0.chunks + new);
                    assert(w@.pending =~= w0.pending.skip(last_off as int));
                    assert(w@ =~= (WriterView {
                        chunks: w0.chunks + new,
                        pending: w0.pending.skip(last_off as int),
                        ..w0
                    }));
                    assert forall|b: Seq<u8>| #[trigger] w0.holds(b) implies w@.holds(b) by {
                        lemma_flush_keeps(w0, w@, new, w0.params.max as nat, b);
                    }
                }
                Ok(())
            },
        }
    }

    /// Writes `data` at `offset`. In order it is appended, and stored once enough is pending;
    /// a writer that holds its whole content is changed in place.
    pub fn stream_write(
        &mut self,
        w: &mut StreamWriter,
        offset: u64,
        data: &[u8],
        out: &mut Vec<BlockWrite>,
    ) -> (r: Result<StreamStep, VaultError>)
        requires
            old(self).wf(),
            old(w).wf(),
            old(w)@.fallback is Some || offset != old(w)@.next_offset ==> offset + data@.len()
                <= usize::MAX,
            old(w)@.fallback is None && offset == old(w)@.next_offset ==> offset + data@.len()
                <= u64::MAX && crate::vault::write::has_room(
                old(self)@,
                old(w)@.pending.len() + data@.len(),
            ),
        ensures
            final(self).wf(),
            final(w).wf(),
            stream_step(
                old(self)@,
                final(self)@,
                old(w)@,
                final(w)@,
                offset,
                data@,
                old(out)@,
                final(out)@,
                r,
            ),
            r == Ok::<StreamStep, VaultError>(StreamStep::Done) ==> forall|b: Seq<u8>| #[trigger]
                old(w)@.holds(b) ==> final(w)@.holds(overwritten(b, offset as int, data@)),
    {
        let ghost w0 = w@;
        if let Some(buf) = &mut w.fallback {
            let end: usize = offset as usize + data.len();
            overlay(buf, offset as usize, data);
            if w.size < end as u64 {
                w.size = end as u64;
            }
            return Ok(StreamStep::Done);
        }
        if offset != w.next_offset {
            return Ok(StreamStep::NeedsContent);
        }
        let n: usize = data.len();
        w.pending.extend_from_slice(data);
        w.next_offset = w.next_offset + n as u64;
        w.size = w.next_offset;
        proof {
            assert(w@ =~= appended(w0, data@));
            assert forall|b: Seq<u8>| #[trigger] w0.holds(b) implies w@.holds(
                overwritten(b, offset as int, data@),
            ) by {
                let c = overwritten(b, offset as int, data@);
                let m = b.len() - w0.pending.len();
                assert(c =~= b + data@);
                assert(c.len() - w@.pending.len() == m);
                assert(c.take(m) =~= b.take(m));
                assert(c.skip(m) =~= b.skip(m) + data@);
            }
        }
        let limit: usize = w.params.max as usize * 2;
        if w.pending.len() >= limit {
            match self.flush_complete_chunks(w, out) {
                Err(e) => {
                    return Err(e);
                },
                Ok(()) => {},
            }
        }
        Ok(StreamStep::Done)
    }
}

/// The content that is still to be stored when the writer is finished, and the cuts in it.
pub open spec fn rest_of(v: VaultView, w: WriterView) -> (Seq<u8>, Seq<(usize, usize)>) {
    match w.fallback {
        Some(b) => (b, crate::vault::write::cuts_in(v.chunk_size, b)),
        None => (w.pending, pending_cuts(w)),
    }
}

/// Everything that was written is stored; the file has these chunks and this size.
pub open spec fn finished(
    v0: VaultView,
    v: VaultView,
    w: WriterView,
    size: u64,
    chunks: Seq<ChunkRef>,
    out0: Seq<BlockWrite>,
    out: Seq<BlockWrite>,
) -> bool {
    let (rest, cuts) = rest_of(v0, w);
    let had = if w.fallback is Some {
        Seq::empty()
    } else {
        w.chunks
    };
    &&& size == (if w.fallback is Some {
        rest.len() as u64
    } else {
        w.size
    })
    &&& crate::vault::write::stored_so_far(v0, v, rest, cuts, had, chunks, out0, out)
    &&& chunks.len() == had.len() + cuts.len()
}

/// The file that was written is linked.
pub open spec fn stream_linked(
    v0: VaultView,
    v: VaultView,
    w: WriterView,
    logical: Seq<char>,
    mtime: i64,
    out0: Seq<BlockWrite>,
    out: Seq<BlockWrite>,
) -> bool {
    let stored = crate::vault::write::after_writes(v0, crate::vault::write::grown(out0, out));
    let f = v.catalog.files[crate::paths::normal(logical)];
    &&& f.mtime == mtime
    &&& finished(v0, stored, w, f.size, f.chunks, out0, out)
    &&& v == crate::vault::write::linked(stored, logical, f)
}

/// The chunks of a writer, and then those of what is pending, describe what was written.
proof fn lemma_rest_describes(
    w: WriterView,
    new: Seq<ChunkRef>,
    cuts: Seq<(usize, usize)>,
    max: nat,
    bytes: Seq<u8>,
)
    requires
        w.fallback is None,
        w.holds(bytes),
        crate::chunking::tiles(cuts, w.pending.len(), max),
        crate::chunking::follow_cuts(new, w.pending, cuts),
    ensures
        crate::chunking::describes(w.chunks + new, bytes),
{
    crate::chunking::lemma_cuts_describe(new, w.pending, cuts, max);
    let n = bytes.len() - w.pending.len();
    crate::chunking::lemma_describes_concat(w.chunks, bytes.take(n), new, w.pending);
    assert(bytes =~= bytes.take(n) + bytes.skip(n));
}

/// The size and the chunks of a finished file are those of what was written.
pub proof fn finished_file_is_described(
    v0: VaultView,
    v: VaultView,
    w: WriterView,
    size: u64,
    chunks: Seq<ChunkRef>,
    out0: Seq<BlockWrite>,
    out: Seq<BlockWrite>,
    bytes: Seq<u8>,
)
    requires
        finished(v0, v, w, size, chunks, out0, out),
        w.holds(bytes),
    ensures
        size == bytes.len(),
        crate::chunking::describes(chunks, bytes),
{
    let (rest, cuts) = rest_of(v0, w);
    let max = crate::chunking::MAX_CHUNK as nat;
    let had = if w.fallback is Some {
        Seq::empty()
    } else {
        w.chunks
    };
    let new = chunks.skip(had.len() as int);
    assert(cuts.take(cuts.len() as int) =~= cuts);
    assert(chunks =~= had + new);
    if w.fallback is Some {
        assert(new =~= chunks);
        crate::chunking::lemma_cuts_describe(new, rest, cuts, max);
    } else {
        lemma_rest_describes(w, new, cuts, max, bytes);
    }
}

impl Vault {
    /// Stores what a writer has not stored yet. The caller writes `out` and then links the
    /// chunks with [`Vault::link_file`].
    pub fn finish_chunks(&mut self, w: StreamWriter, out: &mut Vec<BlockWrite>) -> (r: Result<
        (u64, Vec<ChunkRef>),
        VaultError,
    >)
        requires
            old(self).wf(),
            w.wf(),
            crate::vault::write::has_room(old(self)@, rest_of(old(self)@, w@).0.len()),
        ensures
            final(self).wf(),
            match r {
                Ok((size, chunks)) => {
                    &&& finished(
                        old(self)@,
                        final(self)@,
                        w@,
                        size,
                        chunks@,
                        old(out)@,
                        final(out)@,
                    )
                    &&& forall|b: Seq<u8>| #[trigger]
                        w@.holds(b) ==> size == b.len() && crate::chunking::describes(chunks@, b)
                },
                Err(e) => exists|k: int|
                    crate::vault::write::stored_part(
                        old(self)@,
                        final(self)@,
                        rest_of(old(self)@, w@).0,
                        rest_of(old(self)@, w@).1,
                        k,
                        e,
                        old(out)@,
                        final(out)@,
                    ),
            },
    {
        let ghost v0 = self@;
        let ghost out0 = out@;
        let ghost wv = w@;
        let params = match &w.fallback {
            Some(_) => cdc_params(self.chunk_size),
            None => w.params,
        };
        let mut chunks: Vec<ChunkRef> = Vec::new();
        let (rest, size) = match w.fallback {
            Some(b) => {
                let n: u64 = b.len() as u64;
                (b, n)
            },
            None => {
                chunks = w.chunks;
                (w.pending, w.size)
            },
        };
        let ghost had = chunks@;
        let cuts = cut_points(rest.as_slice(), params);
        assert(rest@ == rest_of(v0, wv).0);
        assert(cuts@ == rest_of(v0, wv).1);
        assert(crate::chunking::tiles(
            cuts@,
            rest@.len(),
            crate::chunking::MAX_CHUNK as nat,
        ));
        match self.store_cuts(rest.as_slice(), &cuts, cuts.len(), &mut chunks, out) {
            Err(e) => {
                proof {
                    let k = chunks@.len() - had.len();
                    assert(crate::vault::write::stored_part(
                        v0,
                        self@,
                        rest_of(v0, wv).0,
                        rest_of(v0, wv).1,
                        k,
                        e,
                        out0,
                        out@,
                    ));
                }
                Err(e)
            },
            Ok(()) => {
                proof {
                    assert(had =~= (if wv.fallback is Some {
                        Seq::empty()
                    } else {
                        wv.chunks
                    }));
                    assert(finished(v0, self@, wv, size, chunks@, out0, out@));
                    assert forall|b: Seq<u8>| #[trigger] wv.holds(b) implies size == b.len()
                        && crate::chunking::describes(chunks@, b) by {
                        finished_file_is_described(v0, self@, wv, size, chunks@, out0, out@, b);
                    }
                }
                Ok((size, chunks))
            },
        }
    }

    /// Stores what is left and puts the file at its path.
    pub fn finish_write(
        &mut self,
        w: StreamWriter,
        logical: &str,
        mtime: i64,
        out: &mut Vec<BlockWrite>,
    ) -> (r: Result<(), VaultError>)
        requires
            old(self).wf(),
            w.wf(),
            crate::vault::write::has_room(old(self)@, rest_of(old(self)@, w@).0.len()),
        ensures
            final(self).wf(),
            match r {
                Ok(()) => {
                    &&& stream_linked(
                        old(self)@,
                        final(self)@,
                        w@,
                        logical@,
                        mtime,
                        old(out)@,
                        final(out)@,
                    )
                    &&& forall|b: Seq<u8>| #[trigger]
                        w@.holds(b) ==> {
                            let f = final(self)@.catalog.files[crate::paths::normal(logical@)];
                            f.size == b.len() && crate::chunking::describes(f.chunks, b)
                        }
                },
                Err(e) => exists|k: int|
                    crate::vault::write::stored_part(
                        old(self)@,
                        final(self)@,
                        rest_of(old(self)@, w@).0,
                        rest_of(old(self)@, w@).1,
                        k,
                        e,
                        old(out)@,
                        final(out)@,
                    ),
            },
    {
        match self.finish_chunks(w, out) {
            Err(e) => Err(e),
            Ok((size, chunks)) => {
                self.link_file(logical, size, mtime, chunks);
                Ok(())
            },
        }
    }

    /// The whole content of a writer, from the blocks that it stored.
    pub fn writer_to_buffer(&self, w: StreamWriter, blocks: &Vec<Arc<Vec<u8>>>) -> (r: Vec<u8>)
        ensures
            r@ == content_of(w@, blocks@),
    {
        writer_content(&w, blocks)
    }
}

/// Bytes that are written over others stand where they were put; around them everything stays,
/// and what lies between the old end and them is zero.
pub proof fn overwriting_changes_its_range_alone(b: Seq<u8>, at: int, data: Seq<u8>, i: int)
    requires
        0 <= at,
    ensures
        ({
            let r = overwritten(b, at, data);
            let end = at + data.len();
            &&& end <= b.len() ==> r.len() == b.len()
            &&& end > b.len() ==> r.len() == end
            &&& r.subrange(at, end) == data
            &&& 0 <= i < b.len() && (i < at || i >= end) ==> r[i] == b[i]
            &&& b.len() <= i < at ==> r[i] == 0u8
        }),
{
    let r = overwritten(b, at, data);
    assert(r.subrange(at, at + data.len()) =~= data);
}

/// A new writer holds nothing, and cuts as its vault's chunk size says.
pub proof fn new_writer_is_empty(chunk_size: u32)
    ensures
        fresh_writer(chunk_size).holds(Seq::empty()),
        fresh_writer(chunk_size).size == 0,
        fresh_writer(chunk_size).next_offset == 0,
        fresh_writer(chunk_size).fallback is None,
        256 <= chunk_size <= 4_194_304 ==> fresh_writer(chunk_size).params.avg == chunk_size
            && fresh_writer(chunk_size).params.max == 4 * chunk_size,
{
    reveal(crate::chunking::describes);
    let none = Seq::<u8>::empty();
    assert(none.skip(0) =~= none);
    assert(none.take(0) =~= none);
}

/// A writer that is left for the whole content holds that content, and goes on from it.
pub proof fn switched_writer_holds_the_content(
    w: WriterView,
    blocks: Seq<Arc<Vec<u8>>>,
    bytes: Seq<u8>,
)
    requires
        w.holds(bytes),
        content_of(w, blocks) == bytes,
    ensures
        switched(w, blocks).holds(bytes),
        switched(w, blocks).fallback == Some(bytes),
        switched(w, blocks).size == w.size,
{
}

/// Bytes that are written in order are kept back until there are enough for two of the longest
/// chunks; fewer change nothing but the writer.
pub proof fn few_bytes_are_kept_back(
    v0: VaultView,
    v: VaultView,
    w0: WriterView,
    w: WriterView,
    data: Seq<u8>,
    out0: Seq<BlockWrite>,
    out: Seq<BlockWrite>,
    r: Result<StreamStep, VaultError>,
)
    requires
        w0.fallback is None,
        w0.next_offset + data.len() <= u64::MAX,
        stream_step(v0, v, w0, w, w0.next_offset, data, out0, out, r),
    ensures
        w0.pending.len() + data.len() < 2 * w0.params.max ==> {
            &&& r == Ok::<StreamStep, VaultError>(StreamStep::Done)
            &&& v == v0 && out == out0
            &&& w.pending == w0.pending + data && w.chunks == w0.chunks
            &&& w.next_offset == w0.next_offset + data.len() && w.size == w.next_offset
        },
        w0.pending.len() + data.len() >= 2 * w0.params.max && r is Ok ==> flushed(
            v0,
            v,
            appended(w0, data),
            w,
            out0,
            out,
        ),
{
}

/// A write that does not go on where the last one ended needs the whole content first.
pub proof fn write_elsewhere_needs_the_content(
    v0: VaultView,
    v: VaultView,
    w0: WriterView,
    w: WriterView,
    offset: u64,
    data: Seq<u8>,
    out0: Seq<BlockWrite>,
    out: Seq<BlockWrite>,
    r: Result<StreamStep, VaultError>,
)
    requires
        w0.fallback is None,
        offset != w0.next_offset,
        stream_step(v0, v, w0, w, offset, data, out0, out, r),
    ensures
        r == Ok::<StreamStep, VaultError>(StreamStep::NeedsContent),
        v == v0 && w == w0 && out == out0,
{
}

/// A stream that is finished has the size that its writer counted, or that of the content which
/// took its place.
pub proof fn finished_file_has_the_written_size(
    v0: VaultView,
    v: VaultView,
    w: WriterView,
    size: u64,
    chunks: Seq<ChunkRef>,
    out0: Seq<BlockWrite>,
    out: Seq<BlockWrite>,
)
    requires
        finished(v0, v, w, size, chunks, out0, out),
    ensures
        w.fallback is None ==> size == w.size,
        w.fallback matches Some(b) ==> size == b.len() as u64,
{
}

/// A stream that was finished into a file stands at its normal path with the time given; every
/// other path, and all else in the tree, stays as it was.
pub proof fn streamed_file_takes_its_path_alone(
    v0: VaultView,
    v: VaultView,
    w: WriterView,
    logical: Seq<char>,
    mtime: i64,
    out0: Seq<BlockWrite>,
    out: Seq<BlockWrite>,
    q: Seq<char>,
)
    requires
        stream_linked(v0, v, w, logical, mtime, out0, out),
    ensures
        ({
            let p = crate::paths::normal(logical);
            &&& v.catalog.files.contains_key(p)
            &&& v.catalog.files[p].mtime == mtime
            &&& q != p ==> (v.catalog.files.contains_key(q) <==> v0.catalog.files.contains_key(q))
            &&& q != p && v0.catalog.files.contains_key(q) ==> v.catalog.files[q]
                == v0.catalog.files[q]
            &&& v.catalog.dirs.contains(q) <==> v0.catalog.dirs.contains(q) && q != p
            &&& v.catalog.snapshots == v0.catalog.snapshots && v.catalog.quota == v0.catalog.quota
            &&& out.len() >= out0.len() && out.take(out0.len() as int) == out0
        }),
{
    crate::vault::write::lemma_after_writes_frame(v0, crate::vault::write::grown(out0, out));
}

/// What is left of a stream is cut as its writer cuts; a whole content that took its place is cut
/// as the vault's chunk size says, like that of any file.
pub proof fn rest_of_a_stream_is_cut(v: VaultView, w: WriterView)
    ensures
        w.fallback is None ==> rest_of(v, w) == (
            w.pending,
            crate::chunking::fastcdc_cuts(w.pending, w.params.min, w.params.avg, w.params.max),
        ),
        w.fallback matches Some(b) ==> rest_of(v, w) == (
            b,
            crate::vault::write::cuts_in(v.chunk_size, b),
        ),
{
}

} // verus!
