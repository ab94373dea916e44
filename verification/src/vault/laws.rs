//! What holds of a vault together with its file: what is stored stays readable, and a read
//! gives back what was written.
//!
//! The file is a sequence of bytes. Content is found by its address, so a law on content speaks
//! of contents whose addresses do not clash; where it needs that, it says of which contents.

use crate::catalog::{BlockRef, ChunkRef};
use crate::vault::write::BlockWrite;
use crate::vault::VaultView;
use std::sync::Arc;
use vstd::prelude::*;

verus! {

/// The content of the block that stands at `b` in the file.
pub open spec fn content_at(file: Seq<u8>, b: BlockRef, key: Option<Seq<u8>>) -> Option<Seq<u8>> {
    crate::pipeline::block_content(file.subrange(b.offset as int, b.offset + b.len), key)
}

/// Every block of the index stands behind the header and in front of `next`, and has the content
/// that its address says.
pub open spec fn sound(
    blocks: Map<Seq<u8>, BlockRef>,
    next: int,
    key: Option<Seq<u8>>,
    file: Seq<u8>,
) -> bool {
    &&& crate::header::HEADER_SIZE <= next <= file.len()
    &&& forall|h: Seq<u8>| #[trigger]
        blocks.contains_key(h) ==> {
            let b = blocks[h];
            &&& crate::header::HEADER_SIZE <= b.offset
            &&& b.offset + b.len <= next
            &&& content_at(file, b, key) is Some
            &&& crate::pipeline::blake3_digest(content_at(file, b, key)->0) == h
            &&& content_at(file, b, key)->0.len() == b.raw_len
        }
}

/// The vault and its file go together.
pub open spec fn intact(v: VaultView, file: Seq<u8>) -> bool {
    sound(v.catalog.blocks, v.next_append as int, v.key(), file)
}

/// Blocks are appended behind the header and not behind the end of the file.
pub open spec fn appendable(v: VaultView, file: Seq<u8>) -> bool {
    crate::header::HEADER_SIZE <= v.next_append <= file.len()
}

/// The block with the address `h` is in the index and stands in front of what is appended.
pub open spec fn stands(v: VaultView, h: Seq<u8>) -> bool {
    v.catalog.blocks.contains_key(h) && v.catalog.blocks[h].offset + v.catalog.blocks[h].len
        <= v.next_append
}

/// All blocks of the file `f` stand.
pub open spec fn file_stands(v: VaultView, f: crate::catalog::FileView) -> bool {
    forall|i: int| 0 <= i < f.chunks.len() ==> stands(v, (#[trigger] f.chunks[i]).hash@)
}

/// The content that the vault has under an address.
pub open spec fn content_of(v: VaultView, file: Seq<u8>, h: Seq<u8>) -> Option<Seq<u8>> {
    if v.catalog.blocks.contains_key(h) {
        content_at(file, v.catalog.blocks[h], v.key())
    } else {
        None
    }
}

/// The file after the writes.
pub open spec fn written(file: Seq<u8>, ws: Seq<BlockWrite>) -> Seq<u8>
    decreases ws.len(),
{
    if ws.len() == 0 {
        file
    } else {
        crate::vault::stream::overwritten(
            written(file, ws.drop_last()),
            ws.last().offset as int,
            ws.last().bytes@,
        )
    }
}

/// The file `f` of the vault has the content `bytes`.
pub open spec fn has_content(
    v: VaultView,
    file: Seq<u8>,
    f: crate::catalog::FileView,
    bytes: Seq<u8>,
) -> bool {
    &&& f.size == bytes.len()
    &&& crate::chunking::describes(f.chunks, bytes)
    &&& forall|i: int|
        0 <= i < f.chunks.len() ==> content_of(v, file, (#[trigger] f.chunks[i]).hash@) == Some(
            bytes.subrange(
                crate::chunking::chunk_start(f.chunks, i) as int,
                crate::chunking::chunk_start(f.chunks, i + 1) as int,
            ),
        )
}

/// No piece has the address of another content, among the pieces or in the vault: a block that
/// the vault has for a piece stands and has its content.
pub open spec fn no_clash(v: VaultView, file: Seq<u8>, pieces: Seq<Seq<u8>>) -> bool {
    &&& forall|i: int|
        0 <= i < pieces.len() && v.catalog.blocks.contains_key(
            crate::pipeline::blake3_digest(#[trigger] pieces[i]),
        ) ==> stands(v, crate::pipeline::blake3_digest(pieces[i])) && content_of(
            v,
            file,
            crate::pipeline::blake3_digest(pieces[i]),
        ) == Some(pieces[i])
    &&& forall|i: int, j: int|
        #![trigger pieces[i], pieces[j]]
        0 <= i < pieces.len() && 0 <= j < pieces.len() && crate::pipeline::blake3_digest(pieces[i])
            == crate::pipeline::blake3_digest(pieces[j]) ==> pieces[i] == pieces[j]
}

/// A new vault goes together with a file that is as long as the header.
pub proof fn new_vault_is_intact(
    chunk_size: u32,
    enc: Option<crate::header::EncView>,
    file: Seq<u8>,
)
    requires
        file.len() >= crate::header::HEADER_SIZE,
    ensures
        intact(crate::vault::fresh(chunk_size, enc), file),
{
}

/// A block with the right content that is written where the next one goes keeps the index sound,
/// and changes the content of no other block.
pub proof fn lemma_append_sound(
    blocks: Map<Seq<u8>, BlockRef>,
    next: int,
    key: Option<Seq<u8>>,
    file: Seq<u8>,
    bytes: Seq<u8>,
    b: BlockRef,
    data: Seq<u8>,
)
    requires
        sound(blocks, next, key, file),
        b.offset == next,
        b.len == bytes.len(),
        b.raw_len == data.len(),
        crate::pipeline::block_content(bytes, key) == Some(data),
    ensures
        ({
            let more = blocks.insert(crate::pipeline::blake3_digest(data), b);
            let after = crate::vault::stream::overwritten(file, next, bytes);
            &&& sound(more, next + bytes.len(), key, after)
            &&& content_at(after, b, key) == Some(data)
            &&& forall|h: Seq<u8>| #[trigger]
                blocks.contains_key(h) ==> content_at(after, blocks[h], key) == content_at(
                    file,
                    blocks[h],
                    key,
                )
        }),
{
    let hash = crate::pipeline::blake3_digest(data);
    let more = blocks.insert(hash, b);
    let after = crate::vault::stream::overwritten(file, next, bytes);
    assert(after.subrange(next, next + bytes.len()) =~= bytes);
    assert forall|h: Seq<u8>| #[trigger] blocks.contains_key(h) implies content_at(
        after,
        blocks[h],
        key,
    ) == content_at(file, blocks[h], key) by {
        let o = blocks[h];
        assert(after.subrange(o.offset as int, o.offset + o.len) =~= file.subrange(
            o.offset as int,
            o.offset + o.len,
        ));
    }
    assert forall|h: Seq<u8>| #[trigger] more.contains_key(h) implies ({
        let o = more[h];
        &&& crate::header::HEADER_SIZE <= o.offset
        &&& o.offset + o.len <= next + bytes.len()
        &&& content_at(after, o, key) is Some
        &&& crate::pipeline::blake3_digest(content_at(after, o, key)->0) == h
        &&& content_at(after, o, key)->0.len() == o.raw_len
    }) by {
        if h != hash {
            assert(blocks.contains_key(h));
        }
    }
}

/// What is written where the next block goes leaves the bytes of a block in front of it.
proof fn lemma_append_keeps(file: Seq<u8>, next: int, bytes: Seq<u8>, b: BlockRef)
    requires
        next <= file.len(),
        b.offset + b.len <= next,
    ensures
        crate::vault::stream::overwritten(file, next, bytes).subrange(
            b.offset as int,
            b.offset + b.len,
        ) == file.subrange(b.offset as int, b.offset + b.len),
{
    assert(crate::vault::stream::overwritten(file, next, bytes).subrange(
        b.offset as int,
        b.offset + b.len,
    ) =~= file.subrange(b.offset as int, b.offset + b.len));
}

/// Every piece can be read back.
pub open spec fn pieces_stored(v: VaultView, file: Seq<u8>, pieces: Seq<Seq<u8>>) -> bool {
    forall|i: int|
        0 <= i < pieces.len() ==> stands(
            v,
            crate::pipeline::blake3_digest(#[trigger] pieces[i]),
        ) && content_of(v, file, crate::pipeline::blake3_digest(pieces[i])) == Some(pieces[i])
}

/// Once pieces are stored, every one of them can be read back, and every block that stood before
/// still stands with its content. If the vault and its file went together, they still do.
pub proof fn stored_pieces_stay(
    v: VaultView,
    file: Seq<u8>,
    pieces: Seq<Seq<u8>>,
    ws: Seq<BlockWrite>,
)
    requires
        appendable(v, file),
        crate::vault::write::stores(v, pieces, ws),
        forall|i: int|
            0 <= i < pieces.len() ==> (#[trigger] pieces[i]).len() <= crate::chunking::MAX_CHUNK,
    ensures
        appendable(crate::vault::write::after_writes(v, ws), written(file, ws)),
        intact(v, file) ==> intact(crate::vault::write::after_writes(v, ws), written(file, ws)),
        forall|h: Seq<u8>| #[trigger]
            stands(v, h) ==> stands(crate::vault::write::after_writes(v, ws), h) && content_of(
                crate::vault::write::after_writes(v, ws),
                written(file, ws),
                h,
            ) == content_of(v, file, h),
        no_clash(v, file, pieces) ==> pieces_stored(
            crate::vault::write::after_writes(v, ws),
            written(file, ws),
            pieces,
        ),
    decreases pieces.len(),
{
    let after = crate::vault::write::after_writes(v, ws);
    let file2 = written(file, ws);
    if pieces.len() > 0 {
        let rest = pieces.drop_last();
        let p = pieces.last();
        let n = pieces.len() - 1;
        let hp = crate::pipeline::blake3_digest(p);
        assert(pieces[n] == p);
        assert forall|i: int| 0 <= i < rest.len() implies (#[trigger] rest[i]).len()
            <= crate::chunking::MAX_CHUNK by {
            assert(rest[i] == pieces[i]);
        }
        if no_clash(v, file, pieces) {
            assert(no_clash(v, file, rest)) by {
                assert forall|i: int|
                    0 <= i < rest.len() && v.catalog.blocks.contains_key(
                        crate::pipeline::blake3_digest(#[trigger] rest[i]),
                    ) implies stands(v, crate::pipeline::blake3_digest(rest[i])) && content_of(
                    v,
                    file,
                    crate::pipeline::blake3_digest(rest[i]),
                ) == Some(rest[i]) by {
                    assert(rest[i] == pieces[i]);
                }
                assert forall|i: int, j: int|
                    #![trigger rest[i], rest[j]]
                    0 <= i < rest.len() && 0 <= j < rest.len() && crate::pipeline::blake3_digest(
                        rest[i],
                    ) == crate::pipeline::blake3_digest(rest[j]) implies rest[i] == rest[j] by {
                    assert(rest[i] == pieces[i] && rest[j] == pieces[j]);
                }
            }
        }
        if crate::vault::write::known(v, rest, hp) {
            stored_pieces_stay(v, file, rest, ws);
            if no_clash(v, file, pieces) {
                lemma_known_content(v, file, pieces, ws);
            }
        } else {
            let init = ws.drop_last();
            let w = ws.last();
            stored_pieces_stay(v, file, rest, init);
            let mid = crate::vault::write::after_writes(v, init);
            let mid_file = written(file, init);
            crate::vault::write::lemma_after_writes_frame(v, init);
            crate::vault::write::lemma_stored_index(v, rest, init, hp);
            crate::pipeline::stored_block_reads_back(w.bytes@, p, mid.zstd_level, mid.key());
            assert(after.key() == mid.key());
            assert(file2.subrange(w.offset as int, w.offset + w.bytes@.len()) =~= w.bytes@);
            assert(stands(after, hp) && content_of(after, file2, hp) == Some(p));
            assert forall|h: Seq<u8>| #[trigger] stands(mid, h) implies stands(after, h)
                && content_of(after, file2, h) == content_of(mid, mid_file, h) by {
                assert(h != hp);
                lemma_append_keeps(
                    mid_file,
                    mid.next_append as int,
                    w.bytes@,
                    mid.catalog.blocks[h],
                );
            }
            assert forall|h: Seq<u8>| #[trigger] stands(v, h) implies stands(after, h)
                && content_of(after, file2, h) == content_of(v, file, h) by {
                assert(stands(mid, h));
            }
            if intact(v, file) {
                lemma_append_sound(
                    mid.catalog.blocks,
                    mid.next_append as int,
                    mid.key(),
                    mid_file,
                    w.bytes@,
                    crate::vault::write::place_of(w),
                    p,
                );
            }
            if no_clash(v, file, pieces) {
                assert forall|i: int| 0 <= i < pieces.len() implies stands(
                    after,
                    crate::pipeline::blake3_digest(#[trigger] pieces[i]),
                ) && content_of(after, file2, crate::pipeline::blake3_digest(pieces[i])) == Some(
                    pieces[i],
                ) by {
                    if i < n {
                        assert(rest[i] == pieces[i]);
                        assert(stands(mid, crate::pipeline::blake3_digest(rest[i])));
                    }
                }
            }
        }
    }
}

/// A piece whose address was known before has its content in the vault.
proof fn lemma_known_content(
    v: VaultView,
    file: Seq<u8>,
    pieces: Seq<Seq<u8>>,
    ws: Seq<BlockWrite>,
)
    requires
        pieces.len() > 0,
        no_clash(v, file, pieces),
        crate::vault::write::known(
            v,
            pieces.drop_last(),
            crate::pipeline::blake3_digest(pieces.last()),
        ),
        forall|h: Seq<u8>| #[trigger]
            stands(v, h) ==> stands(crate::vault::write::after_writes(v, ws), h) && content_of(
                crate::vault::write::after_writes(v, ws),
                written(file, ws),
                h,
            ) == content_of(v, file, h),
        pieces_stored(
            crate::vault::write::after_writes(v, ws),
            written(file, ws),
            pieces.drop_last(),
        ),
    ensures
        pieces_stored(crate::vault::write::after_writes(v, ws), written(file, ws), pieces),
{
    let after = crate::vault::write::after_writes(v, ws);
    let file2 = written(file, ws);
    let rest = pieces.drop_last();
    let n = pieces.len() - 1;
    let p = pieces[n];
    let hp = crate::pipeline::blake3_digest(p);
    assert forall|i: int| 0 <= i < pieces.len() implies stands(
        after,
        crate::pipeline::blake3_digest(#[trigger] pieces[i]),
    ) && content_of(after, file2, crate::pipeline::blake3_digest(pieces[i])) == Some(
        pieces[i],
    ) by {
        if i < n {
            assert(rest[i] == pieces[i]);
        } else if v.catalog.blocks.contains_key(hp) {
            assert(stands(v, hp) && content_of(v, file, hp) == Some(p));
        } else {
            let j = choose|j: int|
                0 <= j < rest.len() && crate::pipeline::blake3_digest(#[trigger] rest[j]) == hp;
            assert(rest[j] == pieces[j]);
            assert(pieces[j] == pieces[n]);
        }
    }
}

/// Where the pieces of a file start and end.
proof fn lemma_pieces_are_chunks(
    chunks: Seq<ChunkRef>,
    data: Seq<u8>,
    cuts: Seq<(usize, usize)>,
    max: nat,
    i: int,
)
    requires
        crate::chunking::follow_cuts(chunks, data, cuts),
        crate::chunking::tiles(cuts, data.len(), max),
        0 <= i < cuts.len(),
    ensures
        crate::vault::write::pieces_of(data, cuts)[i] == data.subrange(
            crate::chunking::chunk_start(chunks, i) as int,
            crate::chunking::chunk_start(chunks, i + 1) as int,
        ),
        chunks[i].hash@ == crate::pipeline::blake3_digest(
            crate::vault::write::pieces_of(data, cuts)[i],
        ),
        crate::vault::write::pieces_of(data, cuts)[i].len() <= max,
{
    crate::chunking::lemma_cut_starts(chunks, data, cuts, max, i);
    crate::chunking::lemma_tiles_bounds(cuts, data.len(), max, i);
    assert(crate::chunking::is_cut(chunks[i], data, cuts[i]));
}

/// A file that was written has the content that was written. If the vault and its file went
/// together, they still do.
pub proof fn written_file_has_content(
    v0: VaultView,
    v: VaultView,
    file: Seq<u8>,
    logical: Seq<char>,
    data: Seq<u8>,
    mtime: i64,
    out0: Seq<BlockWrite>,
    out: Seq<BlockWrite>,
)
    requires
        appendable(v0, file),
        crate::vault::write::file_written(v0, v, logical, data, mtime, out0, out),
        no_clash(
            v0,
            file,
            crate::vault::write::pieces_of(
                data,
                crate::vault::write::cuts_in(v0.chunk_size, data),
            ),
        ),
    ensures
        ({
            let after = written(file, crate::vault::write::grown(out0, out));
            let path = crate::paths::normal(logical);
            &&& appendable(v, after)
            &&& intact(v0, file) ==> intact(v, after)
            &&& v.catalog.files.contains_key(path)
            &&& has_content(v, after, v.catalog.files[path], data)
            &&& file_stands(v, v.catalog.files[path])
        }),
{
    let cuts = crate::vault::write::cuts_in(v0.chunk_size, data);
    let pieces = crate::vault::write::pieces_of(data, cuts);
    let ws = crate::vault::write::grown(out0, out);
    let path = crate::paths::normal(logical);
    let f = v.catalog.files[path];
    let max = crate::chunking::MAX_CHUNK as nat;
    assert forall|i: int| 0 <= i < pieces.len() implies (#[trigger] pieces[i]).len() <= max by {
        lemma_pieces_are_chunks(f.chunks, data, cuts, max, i);
    }
    stored_pieces_stay(v0, file, pieces, ws);
    let stored = crate::vault::write::after_writes(v0, ws);
    let after = written(file, ws);
    assert(v.catalog.blocks == stored.catalog.blocks && v.key() == stored.key());
    assert forall|i: int| 0 <= i < f.chunks.len() implies stands(
        v,
        (#[trigger] f.chunks[i]).hash@,
    ) && content_of(v, after, f.chunks[i].hash@) == Some(
        data.subrange(
            crate::chunking::chunk_start(f.chunks, i) as int,
            crate::chunking::chunk_start(f.chunks, i + 1) as int,
        ),
    ) by {
        lemma_pieces_are_chunks(f.chunks, data, cuts, max, i);
        assert(stands(stored, crate::pipeline::blake3_digest(pieces[i])) && content_of(
            stored,
            after,
            crate::pipeline::blake3_digest(pieces[i]),
        ) == Some(pieces[i]));
    }
}

/// Storing something else does not change the content of a file.
pub proof fn other_writes_keep_content(
    v: VaultView,
    file: Seq<u8>,
    pieces: Seq<Seq<u8>>,
    ws: Seq<BlockWrite>,
    f: crate::catalog::FileView,
    bytes: Seq<u8>,
)
    requires
        appendable(v, file),
        has_content(v, file, f, bytes),
        file_stands(v, f),
        crate::vault::write::stores(v, pieces, ws),
        forall|i: int|
            0 <= i < pieces.len() ==> (#[trigger] pieces[i]).len() <= crate::chunking::MAX_CHUNK,
    ensures
        has_content(crate::vault::write::after_writes(v, ws), written(file, ws), f, bytes),
        file_stands(crate::vault::write::after_writes(v, ws), f),
{
    stored_pieces_stay(v, file, pieces, ws);
    assert forall|i: int| 0 <= i < f.chunks.len() implies content_of(
        crate::vault::write::after_writes(v, ws),
        written(file, ws),
        (#[trigger] f.chunks[i]).hash@,
    ) == Some(
        bytes.subrange(
            crate::chunking::chunk_start(f.chunks, i) as int,
            crate::chunking::chunk_start(f.chunks, i + 1) as int,
        ),
    ) by {
        assert(stands(v, f.chunks[i].hash@));
    }
}

/// A read of a file gives its content: the bytes of the range, cut off at the end of the file.
pub proof fn read_gives_content(
    v: VaultView,
    file: Seq<u8>,
    f: crate::catalog::FileView,
    bytes: Seq<u8>,
    offset: u64,
    len: usize,
    blocks: Seq<Arc<Vec<u8>>>,
)
    requires
        has_content(v, file, f, bytes),
        blocks.len() == crate::vault::read::plan_for(f, offset, len).needed.len(),
        forall|i: int|
            0 <= i < blocks.len() ==> content_of(
                v,
                file,
                crate::vault::read::plan_for(f, offset, len).needed[i].0@,
            ) == Some((#[trigger] blocks[i])@),
    ensures
        ({
            let p = crate::vault::read::plan_for(f, offset, len);
            &&& crate::vault::read::pieces_fit(p, blocks)
            &&& crate::vault::read::assembled(p, blocks, blocks.len() as int) == (if offset
                >= bytes.len() {
                Seq::empty()
            } else {
                bytes.subrange(
                    offset as int,
                    crate::vault::read::read_end(f.size, offset, len) as int,
                )
            })
        }),
{
    let p = crate::vault::read::plan_for(f, offset, len);
    assert forall|i: int, k: int|
        #![trigger blocks[i], f.chunks[k]]
        0 <= i < blocks.len() && 0 <= k < f.chunks.len() && p.needed[i].0
            == f.chunks[k].hash implies blocks[i]@ == bytes.subrange(
        crate::chunking::chunk_start(f.chunks, k) as int,
        crate::chunking::chunk_start(f.chunks, k + 1) as int,
    ) by {
        assert(content_of(v, file, f.chunks[k].hash@) == Some(blocks[i]@));
    }
    crate::vault::read::assembled_range_is_content(f, bytes, offset, len, blocks);
}

/// A file whose blocks are fetched one after the other comes out whole.
pub proof fn extract_gives_content(
    v: VaultView,
    file: Seq<u8>,
    f: crate::catalog::FileView,
    bytes: Seq<u8>,
    blocks: Seq<Arc<Vec<u8>>>,
)
    requires
        has_content(v, file, f, bytes),
        blocks.len() == f.chunks.len(),
        forall|i: int|
            0 <= i < blocks.len() ==> content_of(v, file, f.chunks[i].hash@) == Some(
                (#[trigger] blocks[i])@,
            ),
    ensures
        crate::vault::stream::joined(blocks) == bytes,
{
    reveal(crate::chunking::describes);
    assert forall|i: int| 0 <= i < blocks.len() implies (#[trigger] blocks[i])@ == bytes.subrange(
        crate::chunking::chunk_start(f.chunks, i) as int,
        crate::chunking::chunk_start(f.chunks, i + 1) as int,
    ) by {
        assert(content_of(v, file, f.chunks[i].hash@) == Some(blocks[i]@));
    }
    crate::vault::stream::lemma_joined(f.chunks, blocks, bytes);
}

/// Everything in the cache is the content that the vault has under its address.
pub open spec fn honest(
    v: VaultView,
    file: Seq<u8>,
    rows: Seq<(Seq<u8>, Seq<u8>)>,
) -> bool {
    forall|i: int|
        0 <= i < rows.len() ==> content_of(v, file, (#[trigger] rows[i]).0) == Some(rows[i].1)
}

proof fn lemma_kept_honest(
    v: VaultView,
    file: Seq<u8>,
    rows: Seq<(Seq<u8>, Seq<u8>)>,
    cap: nat,
)
    requires
        honest(v, file, rows),
    ensures
        honest(v, file, crate::cache::kept(rows, cap)),
    decreases rows.len(),
{
    if rows.len() > 0 && crate::cache::weight(rows) > cap {
        let rest = rows.drop_first();
        assert forall|i: int| 0 <= i < rest.len() implies content_of(
            v,
            file,
            (#[trigger] rest[i]).0,
        ) == Some(rest[i].1) by {
            assert(rest[i] == rows[i + 1]);
        }
        lemma_kept_honest(v, file, rest, cap);
    }
}

/// To keep the right content of a block leaves the cache honest.
pub proof fn put_keeps_cache_honest(
    v: VaultView,
    file: Seq<u8>,
    rows: Seq<(Seq<u8>, Seq<u8>)>,
    cap: nat,
    hash: Seq<u8>,
    data: Seq<u8>,
)
    requires
        honest(v, file, rows),
        content_of(v, file, hash) == Some(data),
    ensures
        honest(v, file, crate::cache::after_put(rows, cap, hash, data)),
{
    let more = rows.push((hash, data));
    assert forall|i: int| 0 <= i < more.len() implies content_of(
        v,
        file,
        (#[trigger] more[i]).0,
    ) == Some(more[i].1) by {
        if i < rows.len() {
            assert(more[i] == rows[i]);
        }
    }
    lemma_kept_honest(v, file, more, cap);
}

/// To take in a run that was read from the file leaves the cache honest.
pub proof fn run_keeps_cache_honest(
    v: VaultView,
    file: Seq<u8>,
    rows: Seq<(Seq<u8>, Seq<u8>)>,
    cap: nat,
    run: crate::vault::fetch::RunView,
    n: int,
)
    requires
        honest(v, file, rows),
        run.wf(),
        run.start + run.len <= file.len(),
        0 <= n <= run.parts.len(),
        forall|k: int|
            0 <= k < run.parts.len() ==> v.catalog.blocks.contains_key(
                (#[trigger] run.parts[k]).0@,
            ) && run.parts[k].1 == v.catalog.blocks[run.parts[k].0@],
        forall|k: int|
            0 <= k < n ==> crate::pipeline::block_content(
                #[trigger] run.slice(file.subrange(run.start as int, run.start + run.len), k),
                v.key(),
            ) is Some,
    ensures
        honest(
            v,
            file,
            crate::vault::fetch::after_run(
                rows,
                cap,
                run,
                file.subrange(run.start as int, run.start + run.len),
                v.key(),
                n,
            ),
        ),
    decreases n,
{
    let buf = file.subrange(run.start as int, run.start + run.len);
    if n > 0 {
        run_keeps_cache_honest(v, file, rows, cap, run, n - 1);
        crate::vault::fetch::lemma_run_inside(run, n - 1);
        let b = run.parts[n - 1].1;
        let h = run.parts[n - 1].0@;
        assert(run.slice(buf, n - 1) =~= file.subrange(b.offset as int, b.offset + b.len));
        assert(v.catalog.blocks.contains_key(run.parts[n - 1].0@));
        assert(crate::pipeline::block_content(run.slice(buf, n - 1), v.key()) is Some);
        put_keeps_cache_honest(
            v,
            file,
            crate::vault::fetch::after_run(rows, cap, run, buf, v.key(), n - 1),
            cap,
            h,
            crate::pipeline::block_content(run.slice(buf, n - 1), v.key())->0,
        );
    }
}

/// In a vault that goes together with its file a check finds every block good.
pub proof fn intact_vault_passes_check(v: VaultView, file: Seq<u8>)
    requires
        intact(v, file),
        v.catalog.blocks.dom().finite(),
        v.catalog.blocks.dom().len() <= usize::MAX,
    ensures
        forall|h: Seq<u8>| #[trigger]
            v.catalog.blocks.contains_key(h) ==> crate::vault::integrity::verdict_of(
                v.key(),
                h,
                crate::vault::integrity::read_at(file, v.catalog.blocks[h]),
            ) == crate::vault::integrity::Verdict::Good,
        ({
            let r = crate::vault::integrity::full_report(
                v,
                crate::vault::integrity::verdicts_of(
                    v,
                    crate::vault::integrity::reads_of(v, file),
                ),
            );
            r.blocks_bad == 0 && r.blocks_ok == v.catalog.blocks.dom().len()
        }),
{
    assert forall|h: Seq<u8>| #[trigger]
        v.catalog.blocks.contains_key(h) implies crate::vault::integrity::verdict_of(
        v.key(),
        h,
        crate::vault::integrity::read_at(file, v.catalog.blocks[h]),
    ) == crate::vault::integrity::Verdict::Good by {
        assert(content_at(file, v.catalog.blocks[h], v.key()) is Some);
    }
    crate::vault::integrity::lemma_good_blocks_are_counted(v, file);
}

/// What a writer has stored can be read back.
pub open spec fn writer_sound(
    v: VaultView,
    file: Seq<u8>,
    w: crate::vault::stream::WriterView,
    bytes: Seq<u8>,
) -> bool {
    &&& w.holds(bytes)
    &&& w.fallback is None ==> chunks_stored(
        v,
        file,
        w.chunks,
        bytes.take(bytes.len() - w.pending.len()),
    )
}

/// The blocks of the chunks stand and have the contents of the chunks.
pub open spec fn chunks_stored(
    v: VaultView,
    file: Seq<u8>,
    chunks: Seq<ChunkRef>,
    bytes: Seq<u8>,
) -> bool {
    forall|i: int|
        0 <= i < chunks.len() ==> stands(v, (#[trigger] chunks[i]).hash@) && content_of(
            v,
            file,
            chunks[i].hash@,
        ) == Some(
            bytes.subrange(
                crate::chunking::chunk_start(chunks, i) as int,
                crate::chunking::chunk_start(chunks, i + 1) as int,
            ),
        )
}

/// Storing more pieces behind chunks that are stored.
proof fn lemma_more_chunks_stored(
    v0: VaultView,
    v: VaultView,
    file: Seq<u8>,
    chunks0: Seq<ChunkRef>,
    front: Seq<u8>,
    data: Seq<u8>,
    cuts: Seq<(usize, usize)>,
    chunks: Seq<ChunkRef>,
    out0: Seq<BlockWrite>,
    out: Seq<BlockWrite>,
)
    requires
        appendable(v0, file),
        crate::chunking::describes(chunks0, front),
        chunks_stored(v0, file, chunks0, front),
        crate::vault::write::stored_so_far(v0, v, data, cuts, chunks0, chunks, out0, out),
        no_clash(
            v0,
            file,
            crate::vault::write::pieces_of(data, cuts.take(chunks.len() - chunks0.len())),
        ),
    ensures
        ({
            let k = chunks.len() - chunks0.len();
            let n = if k < cuts.len() {
                cuts[k].0 as int
            } else {
                data.len() as int
            };
            let after = written(file, crate::vault::write::grown(out0, out));
            &&& appendable(v, after)
            &&& intact(v0, file) ==> intact(v, after)
            &&& 0 <= n <= data.len()
            &&& chunks_stored(v, after, chunks, front + data.take(n))
        }),
{
    reveal(crate::chunking::describes);
    let k = chunks.len() - chunks0.len();
    let max = crate::chunking::MAX_CHUNK as nat;
    let n = if k < cuts.len() {
        cuts[k].0 as int
    } else {
        data.len() as int
    };
    let front_cuts = cuts.take(k);
    let new = chunks.skip(chunks0.len() as int);
    let pieces = crate::vault::write::pieces_of(data, front_cuts);
    let ws = crate::vault::write::grown(out0, out);
    let after = written(file, ws);
    assert(chunks =~= chunks0 + new);
    assert forall|i: int| 0 <= i < k implies (#[trigger] pieces[i]).len() <= max && pieces[i]
        == data.take(n).subrange(
        crate::chunking::chunk_start(new, i) as int,
        crate::chunking::chunk_start(new, i + 1) as int,
    ) && new[i].hash@ == crate::pipeline::blake3_digest(pieces[i]) && crate::chunking::chunk_start(
        new,
        i + 1,
    ) <= n by {
        lemma_prefix_piece(new, data, cuts, max, k, i);
    }
    if k < cuts.len() {
        crate::chunking::lemma_tiles_bounds(cuts, data.len(), max, k);
    }
    stored_pieces_stay(v0, file, pieces, ws);
    assert(chunks_stored(v, after, new, data.take(n))) by {
        assert forall|i: int| 0 <= i < new.len() implies stands(
        v,
        (#[trigger] new[i]).hash@,
    ) && content_of(v, after, new[i].hash@) == Some(
            data.take(n).subrange(
                crate::chunking::chunk_start(new, i) as int,
                crate::chunking::chunk_start(new, i + 1) as int,
            ),
        ) by {
            assert(pieces[i].len() <= max);
            assert(stands(v, crate::pipeline::blake3_digest(pieces[i])) && content_of(
                v,
                after,
                crate::pipeline::blake3_digest(pieces[i]),
            ) == Some(pieces[i]));
        }
    }
    assert(chunks_stored(v, after, chunks0, front)) by {
        assert forall|i: int| 0 <= i < chunks0.len() implies stands(
        v,
        (#[trigger] chunks0[i]).hash@,
    ) && content_of(v, after, chunks0[i].hash@) == Some(
            front.subrange(
                crate::chunking::chunk_start(chunks0, i) as int,
                crate::chunking::chunk_start(chunks0, i + 1) as int,
            ),
        ) by {
            assert(stands(v0, chunks0[i].hash@));
        }
    }
    if k > 0 {
        assert(pieces[k - 1].len() <= max);
    }
    lemma_stored_concat(v, after, chunks0, front, new, data.take(n));
}

/// Chunks that are stored, and then others, are stored.
proof fn lemma_stored_concat(
    v: VaultView,
    file: Seq<u8>,
    a: Seq<ChunkRef>,
    x: Seq<u8>,
    b: Seq<ChunkRef>,
    y: Seq<u8>,
)
    requires
        chunks_stored(v, file, a, x),
        chunks_stored(v, file, b, y),
        crate::chunking::chunk_start(a, a.len() as int) == x.len(),
        crate::chunking::chunk_start(b, b.len() as int) <= y.len(),
    ensures
        chunks_stored(v, file, a + b, x + y),
{
    let c = a + b;
    let m = a.len() as int;
    let z = x + y;
    assert(c.take(m) =~= a);
    assert forall|i: int| 0 <= i < c.len() implies stands(
        v,
        (#[trigger] c[i]).hash@,
    ) && content_of(v, file, c[i].hash@) == Some(
        z.subrange(
            crate::chunking::chunk_start(c, i) as int,
            crate::chunking::chunk_start(c, i + 1) as int,
        ),
    ) by {
        if i < m {
            crate::chunking::lemma_start_take(a, c, i);
            crate::chunking::lemma_start_take(a, c, i + 1);
            crate::chunking::lemma_start_monotone(a, i, i + 1);
            crate::chunking::lemma_start_monotone(a, i + 1, m);
            assert(c[i] == a[i]);
            assert(z.subrange(
                crate::chunking::chunk_start(a, i) as int,
                crate::chunking::chunk_start(a, i + 1) as int,
            ) =~= x.subrange(
                crate::chunking::chunk_start(a, i) as int,
                crate::chunking::chunk_start(a, i + 1) as int,
            ));
        } else {
            let j = i - m;
            crate::chunking::lemma_start_concat(a, b, j);
            crate::chunking::lemma_start_concat(a, b, j + 1);
            crate::chunking::lemma_start_monotone(b, j, j + 1);
            assert(c[i] == b[j]);
            crate::chunking::lemma_start_monotone(b, j + 1, b.len() as int);
            assert(z.subrange(
                crate::chunking::chunk_start(c, i) as int,
                crate::chunking::chunk_start(c, i + 1) as int,
            ) =~= y.subrange(
                crate::chunking::chunk_start(b, j) as int,
                crate::chunking::chunk_start(b, j + 1) as int,
            ));
        }
    }
}

/// The `i`-th of the first `k` pieces of `data`.
proof fn lemma_prefix_piece(
    new: Seq<ChunkRef>,
    data: Seq<u8>,
    cuts: Seq<(usize, usize)>,
    max: nat,
    k: int,
    i: int,
)
    requires
        crate::chunking::tiles(cuts, data.len(), max),
        0 <= i < k <= cuts.len(),
        crate::chunking::follow_cuts(new, data, cuts.take(k)),
    ensures
        ({
            let n = if k < cuts.len() {
                cuts[k].0 as int
            } else {
                data.len() as int
            };
            let piece = crate::vault::write::pieces_of(data, cuts.take(k))[i];
            &&& piece.len() <= max
            &&& new[i].hash@ == crate::pipeline::blake3_digest(piece)
            &&& crate::chunking::chunk_start(new, i + 1) <= n
            &&& piece == data.take(n).subrange(
                crate::chunking::chunk_start(new, i) as int,
                crate::chunking::chunk_start(new, i + 1) as int,
            )
        }),
{
    let n = if k < cuts.len() {
        cuts[k].0 as int
    } else {
        data.len() as int
    };
    lemma_prefix_start(new, data, cuts, max, k, i);
    assert(crate::chunking::is_cut(new[i], data, cuts.take(k)[i]));
    assert(cuts.take(k)[i] == cuts[i]);
    crate::chunking::lemma_tiles_bounds(cuts, data.len(), max, i);
    lemma_cut_ends_before(cuts, data.len(), max, i, k);
    if k < cuts.len() {
        crate::chunking::lemma_tiles_bounds(cuts, data.len(), max, k);
    }
    let c = cuts[i];
    assert(data.take(n).subrange(c.0 as int, c.0 + c.1) =~= data.subrange(c.0 as int, c.0 + c.1));
}

proof fn lemma_prefix_start(
    new: Seq<ChunkRef>,
    data: Seq<u8>,
    cuts: Seq<(usize, usize)>,
    max: nat,
    k: int,
    i: int,
)
    requires
        crate::chunking::tiles(cuts, data.len(), max),
        0 <= i < k <= cuts.len(),
        crate::chunking::follow_cuts(new, data, cuts.take(k)),
    ensures
        crate::chunking::chunk_start(new, i) == cuts[i].0,
    decreases i,
{
    if i > 0 {
        lemma_prefix_start(new, data, cuts, max, k, i - 1);
        assert(crate::chunking::is_cut(new[i - 1], data, cuts.take(k)[i - 1]));
        assert(cuts.take(k)[i - 1] == cuts[i - 1]);
        assert(cuts[i - 1].0 + cuts[i - 1].1 == cuts[i].0);
    }
}

proof fn lemma_cut_ends_before(cuts: Seq<(usize, usize)>, n: nat, max: nat, i: int, k: int)
    requires
        crate::chunking::tiles(cuts, n, max),
        0 <= i < k <= cuts.len(),
    ensures
        k < cuts.len() ==> cuts[i].0 + cuts[i].1 <= cuts[k].0,
    decreases k - i,
{
    if k < cuts.len() {
        assert(cuts[i].0 + cuts[i].1 == cuts[i + 1].0);
        if i + 1 < k {
            lemma_cut_ends_before(cuts, n, max, i + 1, k);
        }
    }
}

/// When a writer stores what is pending, what it has stored can still be read back, and what
/// was written stays the same.
pub proof fn flush_keeps_writer_sound(
    v0: VaultView,
    v: VaultView,
    file: Seq<u8>,
    w0: crate::vault::stream::WriterView,
    w: crate::vault::stream::WriterView,
    out0: Seq<BlockWrite>,
    out: Seq<BlockWrite>,
    bytes: Seq<u8>,
)
    requires
        appendable(v0, file),
        w0.fallback is None,
        writer_sound(v0, file, w0, bytes),
        w.holds(bytes),
        crate::vault::stream::flushed(v0, v, w0, w, out0, out),
        ({
            let cuts = crate::vault::stream::pending_cuts(w0);
            cuts.len() > 1 ==> no_clash(
                v0,
                file,
                crate::vault::write::pieces_of(w0.pending, cuts.take(cuts.len() - 1)),
            )
        }),
    ensures
        ({
            let after = written(file, crate::vault::write::grown(out0, out));
            &&& appendable(v, after)
            &&& intact(v0, file) ==> intact(v, after)
            &&& writer_sound(v, after, w, bytes)
        }),
{
    let cuts = crate::vault::stream::pending_cuts(w0);
    let front = bytes.take(bytes.len() - w0.pending.len());
    if cuts.len() > 1 {
        lemma_more_chunks_stored(
            v0,
            v,
            file,
            w0.chunks,
            front,
            w0.pending,
            cuts,
            w.chunks,
            out0,
            out,
        );
        let n = cuts.last().0 as int;
        assert(bytes.take(bytes.len() - w.pending.len()) =~= front + w0.pending.take(n)) by {
            assert(bytes.skip(bytes.len() - w0.pending.len()) == w0.pending);
            assert(bytes.take(bytes.len() - w.pending.len()) =~= front + bytes.skip(
                bytes.len() - w0.pending.len(),
            ).take(n));
        }
    } else {
        assert(crate::vault::write::grown(out0, out) =~= Seq::empty());
    }
}

/// A file that was written piece by piece has the content that was written, once it is
/// finished.
pub proof fn streamed_file_has_content(
    v0: VaultView,
    v: VaultView,
    file: Seq<u8>,
    w: crate::vault::stream::WriterView,
    logical: Seq<char>,
    mtime: i64,
    out0: Seq<BlockWrite>,
    out: Seq<BlockWrite>,
    bytes: Seq<u8>,
)
    requires
        appendable(v0, file),
        writer_sound(v0, file, w, bytes),
        crate::vault::stream::stream_linked(v0, v, w, logical, mtime, out0, out),
        ({
            let (rest, cuts) = crate::vault::stream::rest_of(v0, w);
            no_clash(v0, file, crate::vault::write::pieces_of(rest, cuts))
        }),
    ensures
        ({
            let after = written(file, crate::vault::write::grown(out0, out));
            let path = crate::paths::normal(logical);
            &&& appendable(v, after)
            &&& intact(v0, file) ==> intact(v, after)
            &&& v.catalog.files.contains_key(path)
            &&& has_content(v, after, v.catalog.files[path], bytes)
            &&& file_stands(v, v.catalog.files[path])
        }),
{
    let path = crate::paths::normal(logical);
    let f = v.catalog.files[path];
    let (rest, cuts) = crate::vault::stream::rest_of(v0, w);
    let stored = crate::vault::write::after_writes(v0, crate::vault::write::grown(out0, out));
    let after = written(file, crate::vault::write::grown(out0, out));
    let had = if w.fallback is Some {
        Seq::empty()
    } else {
        w.chunks
    };
    let front = if w.fallback is Some {
        Seq::empty()
    } else {
        bytes.take(bytes.len() - w.pending.len())
    };
    crate::chunking::lemma_describes_nothing();
    crate::vault::stream::finished_file_is_described(
        v0,
        stored,
        w,
        f.size,
        f.chunks,
        out0,
        out,
        bytes,
    );
    assert(cuts.take(cuts.len() as int) =~= cuts);
    lemma_more_chunks_stored(v0, stored, file, had, front, rest, cuts, f.chunks, out0, out);
    assert(rest.take(rest.len() as int) =~= rest);
    assert(bytes =~= front + rest) by {
        if w.fallback is None {
            assert(bytes =~= front + bytes.skip(bytes.len() - w.pending.len()));
        }
    }
    assert(v.catalog.blocks == stored.catalog.blocks && v.key() == stored.key());
    assert forall|i: int| 0 <= i < f.chunks.len() implies stands(
        v,
        (#[trigger] f.chunks[i]).hash@,
    ) && content_of(v, after, f.chunks[i].hash@) == Some(
        bytes.subrange(
            crate::chunking::chunk_start(f.chunks, i) as int,
            crate::chunking::chunk_start(f.chunks, i + 1) as int,
        ),
    ) by {
        assert(stands(stored, f.chunks[i].hash@));
        assert(content_of(stored, after, f.chunks[i].hash@) == content_of(
            v,
            after,
            f.chunks[i].hash@,
        ));
    }
}

/// What was taken in so far can be read back.
pub open spec fn intake_sound(
    v: VaultView,
    file: Seq<u8>,
    intake: crate::vault::add::IntakeView,
    bytes: Seq<u8>,
) -> bool {
    intake.holds(bytes) && chunks_stored(v, file, intake.chunks, bytes)
}

/// Nothing was taken in yet.
pub proof fn new_intake_is_sound(v: VaultView, file: Seq<u8>)
    ensures
        intake_sound(
            v,
            file,
            crate::vault::add::IntakeView { chunks: Seq::empty(), total: 0 },
            Seq::empty(),
        ),
{
    crate::chunking::lemma_describes_nothing();
}

/// When the next chunk is taken in, everything that was taken in can be read back. If the vault
/// and its file went together, they still do.
pub proof fn next_chunk_keeps_intake_sound(
    v0: VaultView,
    v: VaultView,
    file: Seq<u8>,
    intake0: crate::vault::add::IntakeView,
    intake: crate::vault::add::IntakeView,
    data: Seq<u8>,
    out0: Seq<BlockWrite>,
    out: Seq<BlockWrite>,
    bytes: Seq<u8>,
)
    requires
        appendable(v0, file),
        intake_sound(v0, file, intake0, bytes),
        crate::vault::add::stored_one(v0, v, data, out0, out),
        data.len() <= crate::chunking::MAX_CHUNK,
        intake.holds(bytes + data),
        intake.chunks.len() == intake0.chunks.len() + 1,
        intake.chunks.drop_last() == intake0.chunks,
        intake.chunks.last().len == data.len(),
        intake.chunks.last().hash@ == crate::pipeline::blake3_digest(data),
        no_clash(v0, file, seq![data]),
    ensures
        ({
            let after = written(file, crate::vault::write::grown(out0, out));
            &&& appendable(v, after)
            &&& intact(v0, file) ==> intact(v, after)
            &&& intake_sound(v, after, intake, bytes + data)
        }),
{
    reveal(crate::chunking::describes);
    let pieces = seq![data];
    let ws = crate::vault::write::grown(out0, out);
    let after = written(file, ws);
    let c = intake.chunks.last();
    let new = seq![c];
    assert(pieces.drop_last() =~= Seq::empty());
    assert(pieces[0] == data);
    assert(crate::vault::write::stores(v0, Seq::empty(), Seq::empty()));
    if v0.catalog.blocks.contains_key(crate::pipeline::blake3_digest(data)) {
        assert(ws =~= Seq::empty());
    } else {
        assert(ws =~= seq![out.last()]);
        assert(ws.drop_last() =~= Seq::empty());
        assert(crate::vault::write::after_writes(v0, ws.drop_last()) == v0);
    }
    assert(crate::vault::write::stores(v0, pieces, ws));
    assert(v == crate::vault::write::after_writes(v0, ws));
    stored_pieces_stay(v0, file, pieces, ws);
    assert(stands(v, crate::pipeline::blake3_digest(pieces[0])) && content_of(
        v,
        after,
        crate::pipeline::blake3_digest(pieces[0]),
    ) == Some(data));
    assert(intake.chunks =~= intake0.chunks + new);
    assert(new.take(0) =~= Seq::empty());
    crate::chunking::lemma_describes_one(c, data);
    assert(chunks_stored(v, after, new, data)) by {
        assert(data.subrange(0, data.len() as int) =~= data);
        assert(crate::chunking::chunk_start(new, 0) == 0);
        assert(crate::chunking::chunk_start(new, 1) == data.len());
    }
    assert(chunks_stored(v, after, intake0.chunks, bytes)) by {
        assert forall|i: int| 0 <= i < intake0.chunks.len() implies stands(
        v,
        (#[trigger] intake0.chunks[i]).hash@,
    ) && content_of(v, after, intake0.chunks[i].hash@) == Some(
            bytes.subrange(
                crate::chunking::chunk_start(intake0.chunks, i) as int,
                crate::chunking::chunk_start(intake0.chunks, i + 1) as int,
            ),
        ) by {
            assert(stands(v0, intake0.chunks[i].hash@));
        }
    }
    lemma_stored_concat(v, after, intake0.chunks, bytes, new, data);
}

/// A file that was taken in chunk by chunk has the content that was taken in.
pub proof fn added_file_has_content(
    v: VaultView,
    file: Seq<u8>,
    intake: crate::vault::add::IntakeView,
    dest: Seq<char>,
    mtime: i64,
    bytes: Seq<u8>,
)
    requires
        intake_sound(v, file, intake, bytes),
    ensures
        ({
            let after = crate::vault::add::added(v, intake, dest, mtime);
            let path = crate::paths::normal(dest);
            &&& intact(v, file) ==> intact(after, file)
            &&& after.catalog.files.contains_key(path)
            &&& has_content(after, file, after.catalog.files[path], bytes)
            &&& file_stands(after, after.catalog.files[path])
        }),
{
    let after = crate::vault::add::added(v, intake, dest, mtime);
    let f = after.catalog.files[crate::paths::normal(dest)];
    assert forall|i: int| 0 <= i < f.chunks.len() implies stands(
        after,
        (#[trigger] f.chunks[i]).hash@,
    ) && content_of(after, file, f.chunks[i].hash@) == Some(
        bytes.subrange(
            crate::chunking::chunk_start(f.chunks, i) as int,
            crate::chunking::chunk_start(f.chunks, i + 1) as int,
        ),
    ) by {
        assert(stands(v, intake.chunks[i].hash@));
        assert(content_of(v, file, intake.chunks[i].hash@) == content_of(
            after,
            file,
            f.chunks[i].hash@,
        ));
    }
}

} // verus!
