//! Storing blocks and linking files to them.

use crate::catalog::{BlockRef, ChunkRef, FileEntry};
use crate::chunking::{cdc_params, cut_points};
use crate::error::VaultError;
use crate::paths::normalize_path;
use crate::pipeline::{content_hash, encode_block};
use crate::vault::{Vault, VaultView};
use vstd::prelude::*;

verus! {

/// Bytes that have to be written into the file of the vault.
pub struct BlockWrite {
    /// The address of the block.
    pub hash: crate::pipeline::Hash,
    /// Where the bytes go.
    pub offset: u64,
    /// The block as it is stored.
    pub bytes: Vec<u8>,
    /// How long its content is.
    pub raw_len: u32,
}

/// The place in the index that a write leads to.
pub open spec fn place_of(w: BlockWrite) -> BlockRef {
    BlockRef { offset: w.offset, len: w.bytes@.len() as u32, raw_len: w.raw_len }
}

/// The vault once `w` is in its index.
pub open spec fn after_write(v: VaultView, w: BlockWrite) -> VaultView {
    crate::vault::with_blocks(
        v,
        v.catalog.blocks.insert(w.hash@, place_of(w)),
        (v.next_append + w.bytes@.len()) as u64,
    )
}

/// The vault once all of `ws` are in its index.
pub open spec fn after_writes(v: VaultView, ws: Seq<BlockWrite>) -> VaultView
    decreases ws.len(),
{
    if ws.len() == 0 {
        v
    } else {
        after_write(after_writes(v, ws.drop_last()), ws.last())
    }
}

/// A stored block of `len` bytes fits under the quota.
pub open spec fn fits_quota(v: VaultView, len: nat) -> bool {
    v.catalog.quota matches Some(q) ==> v.next_append + len <= q
}

/// `w` stores `data` at the end of `v`.
pub open spec fn is_write(v: VaultView, w: BlockWrite, data: Seq<u8>) -> bool {
    &&& w.hash@ == crate::pipeline::blake3_digest(data)
    &&& w.offset == v.next_append
    &&& w.raw_len == data.len()
    &&& w.bytes@.len() == crate::pipeline::block_len(data, v.zstd_level, v.key())
    &&& w.bytes@.len() <= data.len() + 41
    &&& crate::pipeline::is_block(w.bytes@, data, v.zstd_level, v.key())
    &&& fits_quota(v, w.bytes@.len())
    &&& v.next_append + w.bytes@.len() <= u64::MAX
}

/// A block with this address is in `v` or among the pieces.
pub open spec fn known(v: VaultView, pieces: Seq<Seq<u8>>, hash: Seq<u8>) -> bool {
    v.catalog.blocks.contains_key(hash) || exists|i: int|
        0 <= i < pieces.len() && crate::pipeline::blake3_digest(#[trigger] pieces[i]) == hash
}

/// `ws` store the pieces in order, each content that is not known yet once.
pub open spec fn stores(v: VaultView, pieces: Seq<Seq<u8>>, ws: Seq<BlockWrite>) -> bool
    decreases pieces.len(),
{
    if pieces.len() == 0 {
        ws.len() == 0
    } else {
        let rest = pieces.drop_last();
        let p = pieces.last();
        if known(v, rest, crate::pipeline::blake3_digest(p)) {
            stores(v, rest, ws)
        } else {
            &&& ws.len() > 0
            &&& stores(v, rest, ws.drop_last())
            &&& is_write(after_writes(v, ws.drop_last()), ws.last(), p)
        }
    }
}

/// The pieces of `data` that the cuts mark.
pub open spec fn pieces_of(data: Seq<u8>, cuts: Seq<(usize, usize)>) -> Seq<Seq<u8>> {
    Seq::new(cuts.len(), |i: int| data.subrange(cuts[i].0 as int, cuts[i].0 + cuts[i].1))
}

/// The vault has the content of the piece, or its block fits under the quota.
pub open spec fn storable(v: VaultView, piece: Seq<u8>) -> bool {
    v.catalog.blocks.contains_key(crate::pipeline::blake3_digest(piece)) || fits_quota(
        v,
        crate::pipeline::block_len(piece, v.zstd_level, v.key()),
    )
}

/// Why a piece could not be stored in `v`: its block does not fit under the quota.
pub open spec fn refused(v: VaultView, piece: Seq<u8>, e: VaultError) -> bool {
    &&& !storable(v, piece)
    &&& v.catalog.quota matches Some(q) && e == VaultError::QuotaExceeded(q)
}

/// There is room for `n` bytes of content in chunks, whatever the chunks are.
pub open spec fn has_room(v: VaultView, n: nat) -> bool {
    v.next_append + 42 * n <= u64::MAX
}

/// The writes change only the blocks and where the next one goes.
pub proof fn lemma_after_writes_frame(v: VaultView, ws: Seq<BlockWrite>)
    ensures
        after_writes(v, ws) == crate::vault::with_blocks(
            v,
            after_writes(v, ws).catalog.blocks,
            after_writes(v, ws).next_append,
        ),
        after_writes(v, ws).key() == v.key(),
    decreases ws.len(),
{
    if ws.len() > 0 {
        lemma_after_writes_frame(v, ws.drop_last());
    }
}

/// Stored pieces are in the index, and nothing else is new there.
pub proof fn lemma_stored_index(v: VaultView, pieces: Seq<Seq<u8>>, ws: Seq<BlockWrite>, h: Seq<u8>)
    requires
        stores(v, pieces, ws),
    ensures
        after_writes(v, ws).catalog.blocks.contains_key(h) == known(v, pieces, h),
    decreases pieces.len(),
{
    if pieces.len() > 0 {
        let rest = pieces.drop_last();
        let p = pieces.last();
        let hp = crate::pipeline::blake3_digest(p);
        let n = pieces.len() - 1;
        assert(known(v, pieces, h) == (known(v, rest, h) || h == hp)) by {
            if known(v, rest, h) && !v.catalog.blocks.contains_key(h) {
                let i = choose|i: int|
                    0 <= i < rest.len() && crate::pipeline::blake3_digest(#[trigger] rest[i]) == h;
                assert(pieces[i] == rest[i]);
            }
            if known(v, pieces, h) && !v.catalog.blocks.contains_key(h) {
                let i = choose|i: int|
                    0 <= i < pieces.len() && crate::pipeline::blake3_digest(#[trigger] pieces[i])
                        == h;
                if i < n {
                    assert(rest[i] == pieces[i]);
                }
            }
            if h == hp {
                assert(crate::pipeline::blake3_digest(pieces[n]) == h);
            }
        }
        if known(v, rest, hp) {
            lemma_stored_index(v, rest, ws, h);
        } else {
            lemma_stored_index(v, rest, ws.drop_last(), h);
        }
    }
}

/// A block that is in the index keeps its place.
pub proof fn lemma_place_stays(v: VaultView, pieces: Seq<Seq<u8>>, ws: Seq<BlockWrite>, h: Seq<u8>)
    requires
        stores(v, pieces, ws),
        v.catalog.blocks.contains_key(h),
    ensures
        after_writes(v, ws).catalog.blocks.contains_key(h),
        after_writes(v, ws).catalog.blocks[h] == v.catalog.blocks[h],
    decreases pieces.len(),
{
    if pieces.len() > 0 {
        let rest = pieces.drop_last();
        if known(v, rest, crate::pipeline::blake3_digest(pieces.last())) {
            lemma_place_stays(v, rest, ws, h);
        } else {
            lemma_place_stays(v, rest, ws.drop_last(), h);
        }
    }
}

/// Content that the vault has already is not written again.
pub proof fn known_content_costs_nothing(v: VaultView, pieces: Seq<Seq<u8>>, ws: Seq<BlockWrite>)
    requires
        stores(v, pieces, ws),
        forall|i: int|
            0 <= i < pieces.len() ==> v.catalog.blocks.contains_key(
                crate::pipeline::blake3_digest(#[trigger] pieces[i]),
            ),
    ensures
        ws.len() == 0,
        after_writes(v, ws) == v,
    decreases pieces.len(),
{
    if pieces.len() > 0 {
        let rest = pieces.drop_last();
        assert(pieces[pieces.len() - 1] == pieces.last());
        assert forall|i: int| 0 <= i < rest.len() implies v.catalog.blocks.contains_key(
            crate::pipeline::blake3_digest(#[trigger] rest[i]),
        ) by {
            assert(rest[i] == pieces[i]);
        }
        known_content_costs_nothing(v, rest, ws);
    }
}

/// What is written was not in the vault before, and nothing is written twice.
pub proof fn each_content_is_written_once(
    v: VaultView,
    pieces: Seq<Seq<u8>>,
    ws: Seq<BlockWrite>,
    i: int,
    j: int,
)
    requires
        stores(v, pieces, ws),
        0 <= i < j < ws.len(),
    ensures
        !v.catalog.blocks.contains_key(ws[i].hash@),
        !v.catalog.blocks.contains_key(ws[j].hash@),
        ws[i].hash@ != ws[j].hash@,
    decreases pieces.len(),
{
    let rest = pieces.drop_last();
    let h = crate::pipeline::blake3_digest(pieces.last());
    if known(v, rest, h) {
        each_content_is_written_once(v, rest, ws, i, j);
    } else {
        let init = ws.drop_last();
        lemma_write_is_new(v, rest, init, i);
        if j < init.len() {
            each_content_is_written_once(v, rest, init, i, j);
        }
    }
}

/// A write is of one of the pieces, which was not in the vault.
proof fn lemma_write_is_new(v: VaultView, pieces: Seq<Seq<u8>>, ws: Seq<BlockWrite>, i: int)
    requires
        stores(v, pieces, ws),
        0 <= i < ws.len(),
    ensures
        !v.catalog.blocks.contains_key(ws[i].hash@),
        known(v, pieces, ws[i].hash@),
    decreases pieces.len(),
{
    let n = pieces.len() - 1;
    let rest = pieces.drop_last();
    let h = crate::pipeline::blake3_digest(pieces.last());
    assert(pieces[n] == pieces.last());
    if !known(v, rest, h) && i == ws.len() - 1 {
        assert(crate::pipeline::blake3_digest(pieces[n]) == ws[i].hash@);
    } else {
        if known(v, rest, h) {
            lemma_write_is_new(v, rest, ws, i);
        } else {
            lemma_write_is_new(v, rest, ws.drop_last(), i);
        }
        let k = choose|k: int|
            0 <= k < rest.len() && crate::pipeline::blake3_digest(#[trigger] rest[k])
                == ws[i].hash@;
        assert(pieces[k] == rest[k]);
    }
}

/// A vault that is under its quota stays under it.
pub proof fn quota_is_kept(v: VaultView, pieces: Seq<Seq<u8>>, ws: Seq<BlockWrite>, quota: u64)
    requires
        stores(v, pieces, ws),
        v.catalog.quota == Some(quota),
        v.next_append <= quota,
    ensures
        after_writes(v, ws).next_append <= quota,
        after_writes(v, ws).catalog.quota == Some(quota),
    decreases pieces.len(),
{
    if pieces.len() > 0 {
        let rest = pieces.drop_last();
        if known(v, rest, crate::pipeline::blake3_digest(pieces.last())) {
            quota_is_kept(v, rest, ws, quota);
        } else {
            quota_is_kept(v, rest, ws.drop_last(), quota);
        }
    }
}

impl Vault {
    /// Gives a block that was encoded its place at the end of the vault, if it fits under the
    /// quota. What has to be written goes to `out`.
    pub fn place_block(
        &mut self,
        hash: crate::pipeline::Hash,
        stored: Vec<u8>,
        raw_len: u32,
        out: &mut Vec<BlockWrite>,
    ) -> (r: Result<(), VaultError>)
        requires
            old(self).wf(),
            old(self)@.next_append + stored@.len() <= u64::MAX,
        ensures
            final(self).wf(),
            match r {
                Ok(()) => {
                    &&& fits_quota(old(self)@, stored@.len())
                    &&& final(out)@.len() == old(out)@.len() + 1
                    &&& final(out)@.drop_last() == old(out)@
                    &&& final(out)@.last() == (BlockWrite {
                        hash,
                        offset: old(self)@.next_append,
                        bytes: stored,
                        raw_len,
                    })
                    &&& final(self)@ == after_write(old(self)@, final(out)@.last())
                },
                Err(e) => {
                    &&& !fits_quota(old(self)@, stored@.len())
                    &&& old(self)@.catalog.quota matches Some(q) && e == VaultError::QuotaExceeded(
                        q,
                    )
                    &&& final(self)@ == old(self)@
                    &&& final(out)@ == old(out)@
                },
            },
    {
        let ghost before = self@;
        if let Some(q) = self.catalog.quota {
            if self.next_append + stored.len() as u64 > q {
                return Err(VaultError::QuotaExceeded(q));
            }
        }
        let offset: u64 = self.next_append;
        let len: u32 = stored.len() as u32;
        self.next_append = offset + stored.len() as u64;
        self.catalog.blocks.insert(hash, BlockRef { offset, len, raw_len });
        let w = BlockWrite { hash, offset, bytes: stored, raw_len };
        out.push(w);
        proof {
            assert(out@.drop_last() =~= old(out)@);
            assert(self@ =~= after_write(before, w));
        }
        Ok(())
    }

    /// Stores one block, or finds it stored already. What has to be written goes to `out`.
    pub(super) fn write_block(&mut self, data: &[u8], out: &mut Vec<BlockWrite>) -> (r: Result<
        crate::pipeline::Hash,
        VaultError,
    >)
        requires
            old(self).wf(),
            data@.len() <= crate::chunking::MAX_CHUNK,
            old(self)@.next_append + data@.len() + 41 <= u64::MAX,
        ensures
            final(self).wf(),
            r is Ok == storable(old(self)@, data@),
            match r {
                Ok(h) => {
                    &&& h@ == crate::pipeline::blake3_digest(data@)
                    &&& if old(self)@.catalog.blocks.contains_key(h@) {
                        final(self)@ == old(self)@ && final(out)@ == old(out)@
                    } else {
                        &&& final(out)@.len() == old(out)@.len() + 1
                        &&& final(out)@.drop_last() == old(out)@
                        &&& is_write(old(self)@, final(out)@.last(), data@)
                        &&& final(self)@ == after_write(old(self)@, final(out)@.last())
                    }
                },
                Err(e) => final(self)@ == old(self)@ && final(out)@ == old(out)@ && refused(
                    old(self)@,
                    data@,
                    e,
                ),
            },
    {
        let ghost before = self@;
        let hash = content_hash(data);
        if self.catalog.blocks.contains_key(&hash) {
            return Ok(hash);
        }
        let stored = match encode_block(data, self.zstd_level, self.key()) {
            Err(e) => {
                proof {
                    assert(crate::pipeline::packed(data@, before.zstd_level).1.len()
                        <= data@.len());
                }
                return Err(e);
            },
            Ok(stored) => stored,
        };
        proof {
            crate::pipeline::stored_block_size(stored@, data@, before.zstd_level, before.key());
        }
        match self.place_block(hash, stored, data.len() as u32, out) {
            Err(e) => Err(e),
            Ok(()) => Ok(hash),
        }
    }

    /// Stores the first `upto` pieces that `cuts` mark in `data` and notes them in `chunks`.
    pub(super) fn store_cuts(
        &mut self,
        data: &[u8],
        cuts: &Vec<(usize, usize)>,
        upto: usize,
        chunks: &mut Vec<ChunkRef>,
        out: &mut Vec<BlockWrite>,
    ) -> (r: Result<(), VaultError>)
        requires
            old(self).wf(),
            crate::chunking::tiles(cuts@, data@.len(), crate::chunking::MAX_CHUNK as nat),
            upto <= cuts@.len(),
            has_room(old(self)@, data@.len()),
        ensures
            final(self).wf(),
            stored_so_far(
                old(self)@,
                final(self)@,
                data@,
                cuts@,
                old(chunks)@,
                final(chunks)@,
                old(out)@,
                final(out)@,
            ),
            match r {
                Ok(()) => final(chunks)@.len() == old(chunks)@.len() + upto,
                Err(e) => {
                    let k = final(chunks)@.len() - old(chunks)@.len();
                    k < upto && refused(final(self)@, pieces_of(data@, cuts@)[k], e)
                },
            },
    {
        let ghost v0 = self@;
        let ghost chunks0 = chunks@;
        let ghost out0 = out@;
        let mut i: usize = 0;
        let n: usize = data.len();
        proof {
            assert(chunks@.skip(chunks0.len() as int) =~= Seq::empty());
            assert(out@.skip(out0.len() as int) =~= Seq::empty());
            assert(cuts@.take(0) =~= Seq::empty());
            assert(chunks0.take(chunks0.len() as int) =~= chunks0);
            assert(out0.take(out0.len() as int) =~= out0);
        }
        while i < upto
            invariant
                self.wf(),
                v0 == old(self)@,
                chunks0 == old(chunks)@,
                out0 == old(out)@,
                n == data@.len(),
                i <= upto <= cuts@.len(),
                crate::chunking::tiles(cuts@, data@.len(), crate::chunking::MAX_CHUNK as nat),
                chunks@.len() == chunks0.len() + i,
                stored_so_far(v0, self@, data@, cuts@, chunks0, chunks@, out0, out@),
                self@.next_append + 42 * (data@.len() - (if i < cuts@.len() {
                    cuts@[i as int].0 as int
                } else {
                    data@.len() as int
                })) <= u64::MAX,
            decreases upto - i,
        {
            let (off, len) = cuts[i];
            proof {
                crate::chunking::lemma_tiles_bounds(
                    cuts@,
                    data@.len(),
                    crate::chunking::MAX_CHUNK as nat,
                    i as int,
                );
            }
            let piece = vstd::slice::slice_subrange(data, off, off + len);
            let ghost before = self@;
            let ghost ws = out@.skip(out0.len() as int);
            let ghost had = chunks@.skip(chunks0.len() as int);
            let ghost rest = pieces_of(data@, cuts@.take(i as int));
            proof {
                assert(piece@ == pieces_of(data@, cuts@)[i as int]);
                lemma_stored_index(v0, rest, ws, crate::pipeline::blake3_digest(piece@));
            }
            match self.write_block(piece, out) {
                Err(e) => {
                    return Err(e);
                },
                Ok(hash) => {
                    let ghost old_out = chunks@;
                    chunks.push(ChunkRef { hash, len: len as u32 });
                    proof {
                        let more = pieces_of(data@, cuts@.take(i + 1));
                        assert(more.drop_last() =~= rest);
                        assert(more.last() == piece@);
                        assert(cuts@.take(i + 1).drop_last() =~= cuts@.take(i as int));
                        let c = chunks@.last();
                        assert(crate::chunking::is_cut(c, data@, cuts@[i as int]));
                        let now = chunks@.skip(chunks0.len() as int);
                        assert(now =~= had.push(c));
                        assert(chunks@.take(chunks0.len() as int) =~= old_out.take(
                            chunks0.len() as int,
                        ));
                        assert(crate::chunking::follow_cuts(now, data@, cuts@.take(i + 1)));
                        let ws2 = out@.skip(out0.len() as int);
                        if before.catalog.blocks.contains_key(hash@) {
                            assert(ws2 =~= ws);
                        } else {
                            assert(ws2.drop_last() =~= ws);
                            assert(ws2.last() == out@.last());
                            assert(out@.take(out0.len() as int) =~= out@.drop_last().take(
                                out0.len() as int,
                            ));
                        }
                        assert(stores(v0, more, ws2));
                        assert(self@ == after_writes(v0, ws2));
                        if i + 1 < cuts@.len() {
                            assert(cuts@[i as int].0 + cuts@[i as int].1 == cuts@[i + 1].0);
                        } else {
                            assert(cuts@.last() == cuts@[i as int]);
                        }
                    }
                    i = i + 1;
                },
            }
        }
        Ok(())
    }
}

/// How far storing the pieces came: `chunks` has grown by one entry for each piece stored and
/// `out` by what has to be written for them.
pub open spec fn stored_so_far(
    v0: VaultView,
    v: VaultView,
    data: Seq<u8>,
    cuts: Seq<(usize, usize)>,
    chunks0: Seq<ChunkRef>,
    chunks: Seq<ChunkRef>,
    out0: Seq<BlockWrite>,
    out: Seq<BlockWrite>,
) -> bool {
    let k = chunks.len() - chunks0.len();
    let ws = out.skip(out0.len() as int);
    &&& crate::chunking::tiles(cuts, data.len(), crate::chunking::MAX_CHUNK as nat)
    &&& 0 <= k <= cuts.len()
    &&& out0.len() <= out.len()
    &&& chunks.take(chunks0.len() as int) == chunks0
    &&& out.take(out0.len() as int) == out0
    &&& crate::chunking::follow_cuts(chunks.skip(chunks0.len() as int), data, cuts.take(k))
    &&& stores(v0, pieces_of(data, cuts.take(k)), ws)
    &&& v == after_writes(v0, ws)
}

/// The cuts that a vault makes in `data`.
pub open spec fn cuts_in(chunk_size: u32, data: Seq<u8>) -> Seq<(usize, usize)> {
    let p = crate::chunking::params_for(chunk_size);
    crate::chunking::fastcdc_cuts(data, p.min, p.avg, p.max)
}

/// `v` with the file `f` at the logical path, which is then no explicit directory.
pub open spec fn linked(
    v: VaultView,
    logical: Seq<char>,
    f: crate::catalog::FileView,
) -> VaultView {
    let path = crate::paths::normal(logical);
    crate::vault::with_tree(
        v,
        v.catalog.files.insert(path, f),
        v.catalog.dirs.remove(path),
    )
}

/// What `out` grew by.
pub open spec fn grown(out0: Seq<BlockWrite>, out: Seq<BlockWrite>) -> Seq<BlockWrite> {
    out.skip(out0.len() as int)
}

/// All of `data` is stored in chunks.
pub open spec fn stored_whole(
    v0: VaultView,
    v: VaultView,
    data: Seq<u8>,
    cuts: Seq<(usize, usize)>,
    chunks: Seq<ChunkRef>,
    out0: Seq<BlockWrite>,
    out: Seq<BlockWrite>,
) -> bool {
    &&& crate::chunking::tiles(cuts, data.len(), crate::chunking::MAX_CHUNK as nat)
    &&& out0.len() <= out.len()
    &&& out.take(out0.len() as int) == out0
    &&& crate::chunking::follow_cuts(chunks, data, cuts)
    &&& crate::chunking::describes(chunks, data)
    &&& stores(v0, pieces_of(data, cuts), grown(out0, out))
    &&& v == after_writes(v0, grown(out0, out))
}

/// The first `k` pieces are stored and the next one was refused.
pub open spec fn stored_part(
    v0: VaultView,
    v: VaultView,
    data: Seq<u8>,
    cuts: Seq<(usize, usize)>,
    k: int,
    e: VaultError,
    out0: Seq<BlockWrite>,
    out: Seq<BlockWrite>,
) -> bool {
    &&& 0 <= k < cuts.len()
    &&& out0.len() <= out.len()
    &&& out.take(out0.len() as int) == out0
    &&& stores(v0, pieces_of(data, cuts.take(k)), grown(out0, out))
    &&& v == after_writes(v0, grown(out0, out))
    &&& refused(v, pieces_of(data, cuts)[k], e)
}

impl Vault {
    /// Cuts `data` into chunks and stores them. The caller writes `out` and then links the
    /// chunks with [`Vault::link_file`].
    pub fn store_data(&mut self, data: &[u8], out: &mut Vec<BlockWrite>) -> (r: Result<
        Vec<ChunkRef>,
        VaultError,
    >)
        requires
            old(self).wf(),
            has_room(old(self)@, data@.len()),
        ensures
            final(self).wf(),
            match r {
                Ok(chunks) => stored_whole(
                    old(self)@,
                    final(self)@,
                    data@,
                    cuts_in(old(self)@.chunk_size, data@),
                    chunks@,
                    old(out)@,
                    final(out)@,
                ),
                Err(e) => exists|k: int|
                    stored_part(
                        old(self)@,
                        final(self)@,
                        data@,
                        cuts_in(old(self)@.chunk_size, data@),
                        k,
                        e,
                        old(out)@,
                        final(out)@,
                    ),
            },
    {
        let params = cdc_params(self.chunk_size);
        let cuts = cut_points(data, params);
        let mut chunks: Vec<ChunkRef> = Vec::new();
        let ghost none = chunks@;
        assert(cuts@ == cuts_in(old(self)@.chunk_size, data@));
        assert(crate::chunking::tiles(
            cuts@,
            data@.len(),
            crate::chunking::MAX_CHUNK as nat,
        ));
        match self.store_cuts(data, &cuts, cuts.len(), &mut chunks, out) {
            Err(e) => {
                proof {
                    let k = chunks@.len() as int;
                    assert(stored_part(
                        old(self)@,
                        self@,
                        data@,
                        cuts_in(old(self)@.chunk_size, data@),
                        k,
                        e,
                        old(out)@,
                        out@,
                    ));
                }
                Err(e)
            },
            Ok(()) => {
                proof {
                    assert(chunks@.skip(none.len() as int) =~= chunks@);
                    assert(cuts@.take(cuts@.len() as int) =~= cuts@);
                    crate::chunking::lemma_cuts_describe(
                        chunks@,
                        data@,
                        cuts@,
                        crate::chunking::MAX_CHUNK as nat,
                    );
                }
                Ok(chunks)
            },
        }
    }

    /// Puts a file made of stored chunks at a path. The path is then no explicit directory.
    pub fn link_file(&mut self, logical: &str, size: u64, mtime: i64, chunks: Vec<ChunkRef>)
        requires
            old(self).wf(),
        ensures
            final(self).wf(),
            final(self)@ == linked(
                old(self)@,
                logical@,
                crate::catalog::FileView { size, mtime, chunks: chunks@ },
            ),
    {
        let path = normalize_path(logical);
        self.catalog.dirs.remove(&path);
        self.catalog.files.insert(path, FileEntry { size, mtime, chunks });
        assert(self@ =~= linked(
            old(self)@,
            logical@,
            crate::catalog::FileView { size, mtime, chunks: chunks@ },
        ));
    }

    /// Writes a whole file, in place of what was at its path. A file that does not fit changes
    /// nothing in the tree.
    pub fn write_file(
        &mut self,
        logical: &str,
        data: &[u8],
        mtime: i64,
        out: &mut Vec<BlockWrite>,
    ) -> (r: Result<(), VaultError>)
        requires
            old(self).wf(),
            has_room(old(self)@, data@.len()),
        ensures
            final(self).wf(),
            match r {
                Ok(()) => file_written(
                    old(self)@,
                    final(self)@,
                    logical@,
                    data@,
                    mtime,
                    old(out)@,
                    final(out)@,
                ),
                Err(e) => exists|k: int|
                    stored_part(
                        old(self)@,
                        final(self)@,
                        data@,
                        cuts_in(old(self)@.chunk_size, data@),
                        k,
                        e,
                        old(out)@,
                        final(out)@,
                    ),
            },
    {
        let size: u64 = data.len() as u64;
        match self.store_data(data, out) {
            Err(e) => Err(e),
            Ok(chunks) => {
                self.link_file(logical, size, mtime, chunks);
                Ok(())
            },
        }
    }
}

/// The file at the path holds `data`; the blocks it needs are stored.
pub open spec fn file_written(
    v0: VaultView,
    v: VaultView,
    logical: Seq<char>,
    data: Seq<u8>,
    mtime: i64,
    out0: Seq<BlockWrite>,
    out: Seq<BlockWrite>,
) -> bool {
    let stored = after_writes(v0, grown(out0, out));
    let f = v.catalog.files[crate::paths::normal(logical)];
    &&& f.size == data.len()
    &&& f.mtime == mtime
    &&& stored_whole(v0, stored, data, cuts_in(v0.chunk_size, data), f.chunks, out0, out)
    &&& v == linked(stored, logical, f)
}

/// Content is refused only for the quota, and only if it is new and its block would end behind
/// it.
pub proof fn content_is_refused_over_the_quota_alone(v: VaultView, piece: Seq<u8>, e: VaultError)
    ensures
        ({
            let end = v.next_append + crate::pipeline::block_len(piece, v.zstd_level, v.key());
            let new = !v.catalog.blocks.contains_key(crate::pipeline::blake3_digest(piece));
            &&& storable(v, piece) <==> !new || v.catalog.quota is None || end
                <= v.catalog.quota->0
            &&& refused(v, piece, e) <==> new && v.catalog.quota is Some && end
                > v.catalog.quota->0 && e == VaultError::QuotaExceeded(v.catalog.quota->0)
        }),
{
}

/// A block that is written lies right behind all others, under the digest of its content, with
/// its length and that of the content; nothing else in the index changes.
pub proof fn written_block_is_indexed(v: VaultView, w: BlockWrite, data: Seq<u8>, h: Seq<u8>)
    requires
        is_write(v, w, data),
        data.len() <= crate::chunking::MAX_CHUNK,
    ensures
        ({
            let r = after_write(v, w);
            let d = crate::pipeline::blake3_digest(data);
            &&& r.catalog.blocks.contains_key(d)
            &&& r.catalog.blocks[d].offset == v.next_append
            &&& r.catalog.blocks[d].len == w.bytes@.len()
            &&& r.catalog.blocks[d].raw_len == data.len()
            &&& r.next_append == v.next_append + w.bytes@.len()
            &&& h != d ==> (r.catalog.blocks.contains_key(h) <==> v.catalog.blocks.contains_key(h))
            &&& h != d && v.catalog.blocks.contains_key(h) ==> r.catalog.blocks[h]
                == v.catalog.blocks[h]
            &&& r.catalog.files == v.catalog.files && r.catalog.dirs == v.catalog.dirs
            &&& r.catalog.snapshots == v.catalog.snapshots && r.catalog.quota == v.catalog.quota
        }),
{
}

/// What is written for pieces is, for each of them whose content is neither in the vault nor that
/// of a piece before it, one block; for every other piece it is nothing.
pub proof fn new_content_is_written(
    v: VaultView,
    pieces: Seq<Seq<u8>>,
    p: Seq<u8>,
    ws: Seq<BlockWrite>,
)
    requires
        stores(v, pieces.push(p), ws),
    ensures
        ({
            let d = crate::pipeline::blake3_digest(p);
            let new = !v.catalog.blocks.contains_key(d) && forall|i: int|
                0 <= i < pieces.len() ==> crate::pipeline::blake3_digest(#[trigger] pieces[i]) != d;
            &&& !new ==> stores(v, pieces, ws)
            &&& new ==> ws.len() > 0 && stores(v, pieces, ws.drop_last()) && ws.last().hash@ == d
                && ws.last().raw_len == p.len() && ws.last().offset == after_writes(
                v,
                ws.drop_last(),
            ).next_append
        }),
{
    assert(pieces.push(p).drop_last() =~= pieces);
}

/// Without pieces nothing is written.
pub proof fn no_content_no_writes(v: VaultView, ws: Seq<BlockWrite>)
    ensures
        stores(v, Seq::empty(), ws) <==> ws.len() == 0,
        after_writes(v, Seq::empty()) == v,
{
}

/// A file that is put in the tree stands at its normal path in the place of what stood there,
/// file or directory; everything else stays.
pub proof fn linked_file_takes_its_path_alone(
    v: VaultView,
    logical: Seq<char>,
    f: crate::catalog::FileView,
    k: Seq<char>,
)
    ensures
        ({
            let p = crate::paths::normal(logical);
            let w = linked(v, logical, f);
            &&& w.catalog.files.contains_key(p) && w.catalog.files[p] == f
            &&& !w.catalog.dirs.contains(p)
            &&& k != p ==> (w.catalog.files.contains_key(k) <==> v.catalog.files.contains_key(k))
            &&& k != p && v.catalog.files.contains_key(k) ==> w.catalog.files[k]
                == v.catalog.files[k]
            &&& k != p ==> (w.catalog.dirs.contains(k) <==> v.catalog.dirs.contains(k))
            &&& w.catalog.blocks == v.catalog.blocks && w.next_append == v.next_append
            &&& w.catalog.snapshots == v.catalog.snapshots && w.catalog.quota == v.catalog.quota
            &&& w.enc == v.enc && w.chunk_size == v.chunk_size && w.zstd_level == v.zstd_level
        }),
{
}

/// The pieces of a content are cut as its vault's chunk size says.
pub proof fn content_is_cut_by_the_chunk_size(chunk_size: u32, data: Seq<u8>)
    ensures
        256 <= chunk_size <= 4_194_304 ==> cuts_in(chunk_size, data)
            == crate::chunking::fastcdc_cuts(
            data,
            (chunk_size / 4) as u32,
            chunk_size,
            (chunk_size * 4) as u32,
        ),
        chunk_size < 256 ==> cuts_in(chunk_size, data) == crate::chunking::fastcdc_cuts(
            data,
            64,
            256,
            1024,
        ),
        chunk_size > 4_194_304 ==> cuts_in(chunk_size, data) == crate::chunking::fastcdc_cuts(
            data,
            1_048_576,
            4_194_304,
            16_777_216,
        ),
{
}

/// A write that is refused leaves the tree as it was: what was stored before the piece that did
/// not fit stays stored, in front of it nothing is skipped, and no file comes or goes.
pub proof fn refused_write_leaves_the_tree(
    v0: VaultView,
    v: VaultView,
    data: Seq<u8>,
    cuts: Seq<(usize, usize)>,
    k: int,
    e: VaultError,
    out0: Seq<BlockWrite>,
    out: Seq<BlockWrite>,
)
    requires
        stored_part(v0, v, data, cuts, k, e, out0, out),
    ensures
        v.catalog.files == v0.catalog.files && v.catalog.dirs == v0.catalog.dirs,
        v.catalog.snapshots == v0.catalog.snapshots && v.catalog.quota == v0.catalog.quota,
        out.len() >= out0.len() && out.take(out0.len() as int) == out0,
        stores(
            v0,
            Seq::new(
                k as nat,
                |i: int| data.subrange(cuts[i].0 as int, cuts[i].0 + cuts[i].1),
            ),
            out.skip(out0.len() as int),
        ),
        v == after_writes(v0, out.skip(out0.len() as int)),
        v.catalog.quota matches Some(q) && v.next_append + crate::pipeline::block_len(
            data.subrange(cuts[k].0 as int, cuts[k].0 + cuts[k].1),
            v.zstd_level,
            v.key(),
        ) > q && e == VaultError::QuotaExceeded(q),
{
    lemma_after_writes_frame(v0, grown(out0, out));
    assert(pieces_of(data, cuts.take(k)) =~= Seq::new(
        k as nat,
        |i: int| data.subrange(cuts[i].0 as int, cuts[i].0 + cuts[i].1),
    ));
}

/// A file that was written stands at its normal path with its size, its time, and a chunk for
/// each cut of its content; every other path, and all else in the tree, stays as it was.
pub proof fn written_file_takes_its_path_alone(
    v0: VaultView,
    v: VaultView,
    logical: Seq<char>,
    data: Seq<u8>,
    mtime: i64,
    out0: Seq<BlockWrite>,
    out: Seq<BlockWrite>,
    q: Seq<char>,
    i: int,
)
    requires
        file_written(v0, v, logical, data, mtime, out0, out),
    ensures
        ({
            let p = crate::paths::normal(logical);
            let cuts = cuts_in(v0.chunk_size, data);
            let f = v.catalog.files[p];
            &&& v.catalog.files.contains_key(p)
            &&& f.size == data.len() && f.mtime == mtime
            &&& f.chunks.len() == cuts.len()
            &&& 0 <= i < cuts.len() ==> f.chunks[i].len == cuts[i].1 && f.chunks[i].hash@
                == crate::pipeline::blake3_digest(
                data.subrange(cuts[i].0 as int, cuts[i].0 + cuts[i].1),
            )
            &&& q != p ==> (v.catalog.files.contains_key(q) <==> v0.catalog.files.contains_key(q))
            &&& q != p && v0.catalog.files.contains_key(q) ==> v.catalog.files[q]
                == v0.catalog.files[q]
            &&& v.catalog.dirs.contains(q) <==> v0.catalog.dirs.contains(q) && q != p
            &&& v.catalog.snapshots == v0.catalog.snapshots && v.catalog.quota == v0.catalog.quota
            &&& out.len() >= out0.len() && out.take(out0.len() as int) == out0
        }),
{
    lemma_after_writes_frame(v0, grown(out0, out));
    let p = crate::paths::normal(logical);
    let f = v.catalog.files[p];
    if 0 <= i < cuts_in(v0.chunk_size, data).len() {
        assert(crate::chunking::is_cut(f.chunks[i], data, cuts_in(v0.chunk_size, data)[i]));
    }
}

} // verus!
