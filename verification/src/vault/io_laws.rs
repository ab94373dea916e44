//! What a write and what comes after it make together.

use crate::error::VaultError;
use crate::vault::stream::{StreamStep, WriterView};
use crate::vault::write::BlockWrite;
use crate::vault::VaultView;
use std::sync::Arc;
use vstd::prelude::*;

verus! {

/// Storing is refused by the quota only: without one it succeeds.
pub proof fn only_the_quota_refuses(
    v0: VaultView,
    v: VaultView,
    data: Seq<u8>,
    cuts: Seq<(usize, usize)>,
    k: int,
    e: VaultError,
    out0: Seq<BlockWrite>,
    out: Seq<BlockWrite>,
)
    requires
        crate::vault::write::stored_part(v0, v, data, cuts, k, e, out0, out),
    ensures
        v0.catalog.quota matches Some(q) && e == VaultError::QuotaExceeded(q) && v.next_append
            + crate::pipeline::block_len(
            crate::vault::write::pieces_of(data, cuts)[k],
            v0.zstd_level,
            v0.key(),
        ) > q,
{
    crate::vault::write::lemma_after_writes_frame(v0, crate::vault::write::grown(out0, out));
}

/// A file that was written is at its path with its size and time and no directory is there any
/// more; all other files and directories, the snapshots and the quota are as before. A read of
/// the whole file gives what was written.
pub proof fn written_file_is_read_back(
    v0: VaultView,
    v: VaultView,
    file: Seq<u8>,
    logical: Seq<char>,
    data: Seq<u8>,
    mtime: i64,
    out0: Seq<BlockWrite>,
    out: Seq<BlockWrite>,
    blocks: Seq<Arc<Vec<u8>>>,
)
    requires
        crate::vault::laws::appendable(v0, file),
        data.len() <= usize::MAX,
        crate::vault::write::file_written(v0, v, logical, data, mtime, out0, out),
        crate::vault::laws::no_clash(
            v0,
            file,
            crate::vault::write::pieces_of(
                data,
                crate::vault::write::cuts_in(v0.chunk_size, data),
            ),
        ),
        ({
            let f = v.catalog.files[crate::paths::normal(logical)];
            let needed = crate::vault::read::plan_for(f, 0, data.len() as usize).needed;
            let after = crate::vault::laws::written(file, crate::vault::write::grown(out0, out));
            blocks.len() == needed.len() && forall|i: int|
                0 <= i < blocks.len() ==> crate::vault::laws::content_of(v, after, needed[i].0@)
                    == Some((#[trigger] blocks[i])@)
        }),
    ensures
        ({
            let path = crate::paths::normal(logical);
            let f = v.catalog.files[path];
            let p = crate::vault::read::plan_for(f, 0, data.len() as usize);
            &&& v.catalog.files.contains_key(path)
            &&& f.size == data.len()
            &&& f.mtime == mtime
            &&& !v.catalog.dirs.contains(path)
            &&& v.catalog.files.remove(path) == v0.catalog.files.remove(path)
            &&& v.catalog.dirs == v0.catalog.dirs.remove(path)
            &&& v.catalog.snapshots == v0.catalog.snapshots
            &&& v.catalog.quota == v0.catalog.quota
            &&& crate::vault::read::pieces_fit(p, blocks)
            &&& crate::vault::read::assembled(p, blocks, blocks.len() as int) == data
        }),
{
    let path = crate::paths::normal(logical);
    let after = crate::vault::laws::written(file, crate::vault::write::grown(out0, out));
    let f = v.catalog.files[path];
    crate::vault::laws::written_file_has_content(
        v0,
        v,
        file,
        logical,
        data,
        mtime,
        out0,
        out,
    );
    crate::vault::write::lemma_after_writes_frame(v0, crate::vault::write::grown(out0, out));
    assert(v.catalog.files.remove(path) =~= v0.catalog.files.remove(path));
    crate::vault::laws::read_gives_content(
        v,
        after,
        f,
        data,
        0,
        data.len() as usize,
        blocks,
    );
    if data.len() > 0 {
        assert(crate::vault::read::read_end(f.size, 0, data.len() as usize) == data.len());
        assert(data.subrange(0, data.len() as int) =~= data);
    } else {
        assert(data =~= Seq::empty());
    }
}

/// Every piece of a file that was written is in the index.
proof fn lemma_pieces_are_known(
    v0: VaultView,
    v: VaultView,
    logical: Seq<char>,
    data: Seq<u8>,
    mtime: i64,
    out0: Seq<BlockWrite>,
    out: Seq<BlockWrite>,
    i: int,
)
    requires
        crate::vault::write::file_written(v0, v, logical, data, mtime, out0, out),
        0 <= i < crate::vault::write::cuts_in(v0.chunk_size, data).len(),
    ensures
        v.catalog.blocks.contains_key(
            crate::pipeline::blake3_digest(
                crate::vault::write::pieces_of(
                    data,
                    crate::vault::write::cuts_in(v0.chunk_size, data),
                )[i],
            ),
        ),
        v.chunk_size == v0.chunk_size,
{
    let pieces = crate::vault::write::pieces_of(
        data,
        crate::vault::write::cuts_in(v0.chunk_size, data),
    );
    let ws = crate::vault::write::grown(out0, out);
    let h = crate::pipeline::blake3_digest(pieces[i]);
    crate::vault::write::lemma_stored_index(v0, pieces, ws, h);
    crate::vault::write::lemma_after_writes_frame(v0, ws);
}

/// To write the same content again, at any path, succeeds whatever the quota, adds no block and
/// uses no more bytes.
pub proof fn writing_again_costs_nothing(
    v0: VaultView,
    v: VaultView,
    logical: Seq<char>,
    data: Seq<u8>,
    mtime: i64,
    out0: Seq<BlockWrite>,
    out: Seq<BlockWrite>,
    v2: VaultView,
    out2: Seq<BlockWrite>,
)
    requires
        crate::vault::write::file_written(v0, v, logical, data, mtime, out0, out),
    ensures
        forall|k: int, e: VaultError|
            !crate::vault::write::stored_part(
                v,
                v2,
                data,
                crate::vault::write::cuts_in(v.chunk_size, data),
                k,
                e,
                out,
                out2,
            ),
        forall|other: Seq<char>, time: i64| #[trigger]
            crate::vault::write::file_written(v, v2, other, data, time, out, out2)
                ==> v2.catalog.blocks == v.catalog.blocks && v2.next_append == v.next_append
                && out2 == out,
{
    let ws = crate::vault::write::grown(out0, out);
    let more = crate::vault::write::grown(out, out2);
    crate::vault::write::lemma_after_writes_frame(v0, ws);
    assert(v.chunk_size == v0.chunk_size);
    let cuts = crate::vault::write::cuts_in(v.chunk_size, data);
    let pieces = crate::vault::write::pieces_of(data, cuts);
    assert forall|i: int| 0 <= i < pieces.len() implies v.catalog.blocks.contains_key(
        crate::pipeline::blake3_digest(#[trigger] pieces[i]),
    ) by {
        lemma_pieces_are_known(v0, v, logical, data, mtime, out0, out, i);
    }
    assert forall|k: int, e: VaultError|
        !crate::vault::write::stored_part(v, v2, data, cuts, k, e, out, out2) by {
        if crate::vault::write::stored_part(v, v2, data, cuts, k, e, out, out2) {
            let front = crate::vault::write::pieces_of(data, cuts.take(k));
            assert forall|i: int| 0 <= i < front.len() implies v.catalog.blocks.contains_key(
                crate::pipeline::blake3_digest(#[trigger] front[i]),
            ) by {
                assert(front[i] == pieces[i]);
            }
            crate::vault::write::known_content_costs_nothing(v, front, more);
            assert(v.catalog.blocks.contains_key(crate::pipeline::blake3_digest(pieces[k])));
        }
    }
    assert forall|other: Seq<char>, time: i64| #[trigger]
        crate::vault::write::file_written(v, v2, other, data, time, out, out2) implies
        v2.catalog.blocks == v.catalog.blocks && v2.next_append == v.next_append && out2 == out by {
        crate::vault::write::known_content_costs_nothing(v, pieces, more);
        assert(out2 =~= out2.take(out.len() as int) + more);
        assert(out2 =~= out);
    }
}

/// Writing as a stream is refused by the quota only.
pub proof fn only_the_quota_refuses_a_stream(
    v0: VaultView,
    v: VaultView,
    w0: WriterView,
    w: WriterView,
    offset: u64,
    data: Seq<u8>,
    out0: Seq<BlockWrite>,
    out: Seq<BlockWrite>,
    e: VaultError,
)
    requires
        crate::vault::stream::stream_step(
            v0,
            v,
            w0,
            w,
            offset,
            data,
            out0,
            out,
            Err(e),
        ),
    ensures
        v0.catalog.quota matches Some(q) && e == VaultError::QuotaExceeded(q),
{
    crate::vault::write::lemma_after_writes_frame(v0, crate::vault::write::grown(out0, out));
}

/// What a write at `offset` asks for was done: at once if it is in order or the writer holds its
/// whole content, and else after the writer was made to hold it, from the blocks that it stored.
pub open spec fn stream_written(
    v0: VaultView,
    v: VaultView,
    file: Seq<u8>,
    w0: WriterView,
    w: WriterView,
    blocks: Seq<Arc<Vec<u8>>>,
    offset: u64,
    data: Seq<u8>,
    out0: Seq<BlockWrite>,
    out: Seq<BlockWrite>,
) -> bool {
    if w0.fallback is Some || offset == w0.next_offset {
        crate::vault::stream::stream_step(
            v0,
            v,
            w0,
            w,
            offset,
            data,
            out0,
            out,
            Ok(StreamStep::Done),
        )
    } else {
        &&& blocks.len() == w0.chunks.len()
        &&& forall|i: int|
            0 <= i < blocks.len() ==> crate::vault::laws::content_of(v0, file, w0.chunks[i].hash@)
                == Some((#[trigger] blocks[i])@)
        &&& crate::vault::stream::stream_step(
            v0,
            v,
            crate::vault::stream::switched(w0, blocks),
            w,
            offset,
            data,
            out0,
            out,
            Ok(StreamStep::Done),
        )
    }
}

/// A write, in order or out of order, lays its bytes over what the writer holds, with zeros in a
/// gap. What the writer has stored can still be read back. The tree, the snapshots and the quota
/// of the vault stay as they are.
pub proof fn stream_write_overlays(
    v0: VaultView,
    v: VaultView,
    file: Seq<u8>,
    w0: WriterView,
    w: WriterView,
    blocks: Seq<Arc<Vec<u8>>>,
    offset: u64,
    data: Seq<u8>,
    out0: Seq<BlockWrite>,
    out: Seq<BlockWrite>,
    bytes: Seq<u8>,
)
    requires
        crate::vault::laws::appendable(v0, file),
        crate::vault::laws::writer_sound(v0, file, w0, bytes),
        offset + data.len() <= u64::MAX,
        stream_written(v0, v, file, w0, w, blocks, offset, data, out0, out),
        ({
            let more = crate::vault::stream::appended(w0, data);
            let cuts = crate::vault::stream::pending_cuts(more);
            w0.fallback is None && offset == w0.next_offset && cuts.len() > 1
                ==> crate::vault::laws::no_clash(
                v0,
                file,
                crate::vault::write::pieces_of(more.pending, cuts.take(cuts.len() - 1)),
            )
        }),
    ensures
        ({
            let after = crate::vault::laws::written(file, crate::vault::write::grown(out0, out));
            let c = crate::vault::stream::overwritten(bytes, offset as int, data);
            &&& crate::vault::laws::appendable(v, after)
            &&& crate::vault::laws::intact(v0, file) ==> crate::vault::laws::intact(v, after)
            &&& crate::vault::laws::writer_sound(v, after, w, c)
            &&& w.size == c.len()
            &&& v == crate::vault::with_blocks(v0, v.catalog.blocks, v.next_append)
        }),
{
    let c = crate::vault::stream::overwritten(bytes, offset as int, data);
    let ws = crate::vault::write::grown(out0, out);
    crate::vault::write::lemma_after_writes_frame(v0, ws);
    if w0.fallback is Some {
        assert(ws =~= Seq::empty());
    } else if offset != w0.next_offset {
        let n = bytes.len() - w0.pending.len();
        let front = bytes.take(n);
        assert forall|i: int| 0 <= i < blocks.len() implies (#[trigger] blocks[i])@
            == front.subrange(
            crate::chunking::chunk_start(w0.chunks, i) as int,
            crate::chunking::chunk_start(w0.chunks, i + 1) as int,
        ) by {
            assert(crate::vault::laws::content_of(v0, file, w0.chunks[i].hash@) == Some(
                blocks[i]@,
            ));
        }
        crate::vault::stream::switching_keeps_content(w0, blocks, bytes);
        assert(ws =~= Seq::empty());
    } else {
        let more = crate::vault::stream::appended(w0, data);
        let m = bytes.len() - w0.pending.len();
        assert(c =~= bytes + data);
        assert(c.take(m) =~= bytes.take(m));
        assert(c.skip(m) =~= bytes.skip(m) + data);
        assert(more.holds(c));
        assert(crate::vault::laws::writer_sound(v0, file, more, c));
        if more.pending.len() < 2 * more.params.max {
            assert(ws =~= Seq::empty());
        } else {
            crate::vault::stream::flushed_writer_holds(v0, v, more, w, out0, out, c);
            crate::vault::laws::flush_keeps_writer_sound(v0, v, file, more, w, out0, out, c);
            if crate::vault::stream::pending_cuts(more).len() <= 1 {
                assert(ws =~= Seq::empty());
            }
        }
    }
}

} // verus!
