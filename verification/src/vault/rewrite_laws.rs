//! Rewriting a vault keeps what it holds.

use crate::catalog::BlockRef;
use crate::vault::rekey::RekeyView;
use crate::vault::rewrite::BlockCopy;
use crate::vault::write::BlockWrite;
use crate::vault::VaultView;
use vstd::prelude::*;

verus! {

/// The new file once the first `n` blocks were copied into it.
pub open spec fn packed_file(file: Seq<u8>, copies: Seq<BlockCopy>, n: int) -> Seq<u8>
    decreases n,
{
    if n <= 0 {
        crate::bytes::zeros(4096)
    } else {
        let c = copies[n - 1];
        crate::vault::stream::overwritten(
            packed_file(file, copies, n - 1),
            c.to as int,
            file.subrange(c.from as int, c.from + c.len),
        )
    }
}

/// The vault of the packed file, before its catalog is written.
pub open spec fn compacted(v: VaultView) -> VaultView {
    let blocks = v.catalog.blocks;
    let keys = crate::vault::rewrite::live(v);
    let n = keys.len() as int;
    crate::vault::with_blocks(
        v,
        crate::vault::rewrite::packed_index(blocks, keys, n),
        crate::vault::rewrite::packed_start(blocks, keys, n) as u64,
    )
}

/// The packed file.
pub open spec fn compacted_file(v: VaultView, file: Seq<u8>) -> Seq<u8> {
    let blocks = v.catalog.blocks;
    let keys = crate::vault::rewrite::live(v);
    let n = keys.len() as int;
    packed_file(file, crate::vault::rewrite::packed_copies(blocks, keys, n), n)
}

proof fn lemma_copies(blocks: Map<Seq<u8>, BlockRef>, keys: Seq<Seq<u8>>, n: int, i: int)
    requires
        0 <= i < n,
    ensures
        crate::vault::rewrite::packed_copies(blocks, keys, n).len() == n,
        crate::vault::rewrite::packed_copies(blocks, keys, n)[i] == (BlockCopy {
            from: blocks[keys[i]].offset,
            len: blocks[keys[i]].len,
            to: crate::vault::rewrite::packed_start(blocks, keys, i) as u64,
        }),
    decreases n,
{
    assert(crate::vault::rewrite::packed_copies(blocks, keys, 0).len() == 0);
    if i < n - 1 {
        lemma_copies(blocks, keys, n - 1, i);
    } else if n > 1 {
        lemma_copies(blocks, keys, n - 1, 0);
    }
}

/// The block stands inside the file.
pub open spec fn readable(file: Seq<u8>, b: BlockRef) -> bool {
    b.offset + b.len <= file.len()
}

/// Packing the first `n` blocks puts the bytes of each of them at its new place.
proof fn lemma_packed(
    blocks: Map<Seq<u8>, BlockRef>,
    file: Seq<u8>,
    keys: Seq<Seq<u8>>,
    copies: Seq<BlockCopy>,
    n: int,
)
    requires
        keys.no_duplicates(),
        forall|i: int| 0 <= i < keys.len() ==> readable(file, blocks[#[trigger] keys[i]]),
        0 <= n <= keys.len(),
        copies == crate::vault::rewrite::packed_copies(blocks, keys, keys.len() as int),
        crate::vault::rewrite::packed_start(blocks, keys, keys.len() as int) <= u64::MAX,
    ensures
        ({
            let index = crate::vault::rewrite::packed_index(blocks, keys, n);
            let packed = packed_file(file, copies, n);
            let end = crate::vault::rewrite::packed_start(blocks, keys, n) as int;
            &&& packed.len() == end
            &&& crate::header::HEADER_SIZE <= end
            &&& forall|h: Seq<u8>| #[trigger]
                index.contains_key(h) <==> exists|i: int| 0 <= i < n && #[trigger] keys[i] == h
            &&& forall|h: Seq<u8>| #[trigger]
                index.contains_key(h) ==> {
                    let b = index[h];
                    let o = blocks[h];
                    &&& crate::header::HEADER_SIZE <= b.offset
                    &&& b.offset + b.len <= end
                    &&& b.len == o.len
                    &&& b.raw_len == o.raw_len
                    &&& packed.subrange(b.offset as int, b.offset + b.len) == file.subrange(
                        o.offset as int,
                        o.offset + o.len,
                    )
                }
        }),
    decreases n,
{
    let index = crate::vault::rewrite::packed_index(blocks, keys, n);
    let packed = packed_file(file, copies, n);
    if n > 0 {
        lemma_packed(blocks, file, keys, copies, n - 1);
        lemma_copies(blocks, keys, keys.len() as int, n - 1);
        crate::vault::rewrite::lemma_packed_monotone(blocks, keys, n, keys.len() as int);
        let index0 = crate::vault::rewrite::packed_index(blocks, keys, n - 1);
        let packed0 = packed_file(file, copies, n - 1);
        let h = keys[n - 1];
        let o = blocks[h];
        let start = crate::vault::rewrite::packed_start(blocks, keys, n - 1) as int;
        assert(readable(file, o));
        let bytes = file.subrange(o.offset as int, o.offset + o.len);
        assert(packed == crate::vault::stream::overwritten(packed0, start, bytes));
        assert(packed.subrange(start, start + o.len) =~= bytes);
        assert forall|x: Seq<u8>| #[trigger] index.contains_key(x) <==> exists|i: int|
            0 <= i < n && #[trigger] keys[i] == x by {
            if index0.contains_key(x) {
                let i = choose|i: int| 0 <= i < n - 1 && #[trigger] keys[i] == x;
                assert(keys[i] == x);
            }
            if x == h {
                assert(keys[n - 1] == x);
            }
        }
        assert forall|x: Seq<u8>| #[trigger] index.contains_key(x) implies ({
            let b = index[x];
            let y = blocks[x];
            &&& crate::header::HEADER_SIZE <= b.offset
            &&& b.offset + b.len <= start + o.len
            &&& b.len == y.len
            &&& b.raw_len == y.raw_len
            &&& packed.subrange(b.offset as int, b.offset + b.len) == file.subrange(
                y.offset as int,
                y.offset + y.len,
            )
        }) by {
            if x != h {
                assert(index0.contains_key(x));
                let b = index0[x];
                assert(packed.subrange(b.offset as int, b.offset + b.len) =~= packed0.subrange(
                    b.offset as int,
                    b.offset + b.len,
                ));
            }
        }
    } else {
        assert(packed.len() == 4096);
    }
}

/// The members of the needed blocks.
proof fn lemma_live(v: VaultView)
    requires
        v.catalog.blocks.dom().finite(),
    ensures
        crate::vault::rewrite::live(v).no_duplicates(),
        forall|h: Seq<u8>| #[trigger]
            crate::vault::rewrite::live(v).contains(h) <==> v.catalog.blocks.contains_key(h)
                && crate::vault::rewrite::reachable(v).contains(h),
{
    let order = crate::vault::integrity::block_order(v);
    let p = |h: Seq<u8>| crate::vault::rewrite::reachable(v).contains(h);
    crate::sorted::lemma_in_order_exists::<crate::pipeline::Hash>(v.catalog.blocks.dom());
    crate::vault::moves::lemma_filtered(order, p);
    assert forall|h: Seq<u8>| #[trigger]
        crate::vault::rewrite::live(v).contains(h) <==> v.catalog.blocks.contains_key(h)
            && crate::vault::rewrite::reachable(v).contains(h) by {
        assert(order.to_set().contains(h) <==> v.catalog.blocks.dom().contains(h));
    }
}

/// The file `f` is in the current tree or in a snapshot.
pub open spec fn in_history(v: VaultView, f: crate::catalog::FileView) -> bool {
    ||| exists|p: Seq<char>| #[trigger]
        v.catalog.files.contains_key(p) && v.catalog.files[p] == f
    ||| exists|s: int, p: Seq<char>|
        #![trigger v.catalog.snapshots[s].files.contains_key(p)]
        0 <= s < v.catalog.snapshots.len() && v.catalog.snapshots[s].files.contains_key(p)
            && v.catalog.snapshots[s].files[p] == f
}

proof fn lemma_history_reachable(v: VaultView, f: crate::catalog::FileView, i: int)
    requires
        in_history(v, f),
        0 <= i < f.chunks.len(),
    ensures
        crate::vault::rewrite::reachable(v).contains(f.chunks[i].hash@),
{
    let h = f.chunks[i].hash@;
    if exists|p: Seq<char>| #[trigger]
        v.catalog.files.contains_key(p) && v.catalog.files[p] == f {
        let p = choose|p: Seq<char>| #[trigger]
            v.catalog.files.contains_key(p) && v.catalog.files[p] == f;
        assert(v.catalog.files[p].chunks[i].hash@ == h);
        assert(crate::vault::rewrite::mentions(v.catalog.files, h));
    } else {
        let (s, p) = choose|s: int, p: Seq<char>|
            #![trigger v.catalog.snapshots[s].files.contains_key(p)]
            0 <= s < v.catalog.snapshots.len() && v.catalog.snapshots[s].files.contains_key(p)
                && v.catalog.snapshots[s].files[p] == f;
        assert(v.catalog.snapshots[s].files[p].chunks[i].hash@ == h);
        assert(crate::vault::rewrite::mentions(v.catalog.snapshots[s].files, h));
    }
}

/// The needed blocks stand inside the file.
pub open spec fn live_readable(v: VaultView, file: Seq<u8>) -> bool {
    forall|h: Seq<u8>| #[trigger]
        v.catalog.blocks.contains_key(h) && crate::vault::rewrite::reachable(v).contains(h)
            ==> readable(file, v.catalog.blocks[h])
}

/// A packed vault holds exactly the blocks that the tree and the snapshots need, each with the
/// bytes and so with the content, right or wrong, that it had. If the vault went together with
/// its file, so does the packed one.
pub proof fn compaction_keeps_needed_blocks(v: VaultView, file: Seq<u8>)
    requires
        live_readable(v, file),
        v.catalog.blocks.dom().finite(),
        crate::vault::rewrite::packed_start(
            v.catalog.blocks,
            crate::vault::rewrite::live(v),
            crate::vault::rewrite::live(v).len() as int,
        ) <= u64::MAX,
    ensures
        compacted_file(v, file).len() == compacted(v).next_append,
        crate::header::HEADER_SIZE <= compacted(v).next_append,
        forall|h: Seq<u8>| #[trigger]
            compacted(v).catalog.blocks.contains_key(h) <==> v.catalog.blocks.contains_key(h)
                && crate::vault::rewrite::reachable(v).contains(h),
        forall|h: Seq<u8>| #[trigger]
            compacted(v).catalog.blocks.contains_key(h) ==> {
                let b = compacted(v).catalog.blocks[h];
                &&& crate::header::HEADER_SIZE <= b.offset
                &&& b.offset + b.len <= compacted(v).next_append
                &&& b.raw_len == v.catalog.blocks[h].raw_len
                &&& crate::vault::laws::content_of(compacted(v), compacted_file(v, file), h)
                    == crate::vault::laws::content_of(v, file, h)
            },
        crate::vault::laws::intact(v, file) ==> crate::vault::laws::intact(
            compacted(v),
            compacted_file(v, file),
        ),
{
    let keys = crate::vault::rewrite::live(v);
    let n = keys.len() as int;
    lemma_live(v);
    assert forall|i: int| 0 <= i < keys.len() implies readable(
        file,
        v.catalog.blocks[#[trigger] keys[i]],
    ) by {
        assert(keys.contains(keys[i]));
    }
    lemma_packed(
        v.catalog.blocks,
        file,
        keys,
        crate::vault::rewrite::packed_copies(v.catalog.blocks, keys, n),
        n,
    );
    assert forall|h: Seq<u8>| #[trigger]
        compacted(v).catalog.blocks.contains_key(h) <==> v.catalog.blocks.contains_key(h)
            && crate::vault::rewrite::reachable(v).contains(h) by {
        if keys.contains(h) {
            let i = keys.index_of(h);
            assert(keys[i] == h);
        }
        if compacted(v).catalog.blocks.contains_key(h) {
            let i = choose|i: int| 0 <= i < n && #[trigger] keys[i] == h;
            assert(keys.contains(h));
        }
    }
    if crate::vault::laws::intact(v, file) {
        assert forall|h: Seq<u8>| #[trigger] compacted(v).catalog.blocks.contains_key(h) implies ({
            let b = compacted(v).catalog.blocks[h];
            let c = crate::vault::laws::content_at(compacted_file(v, file), b, v.key());
            c is Some && crate::pipeline::blake3_digest(c->0) == h && c->0.len() == b.raw_len
        }) by {
            assert(v.catalog.blocks.contains_key(h));
        }
    }
}

/// Every file of the tree and of the snapshots has the same content after compaction.
pub proof fn compaction_keeps_content(
    v: VaultView,
    file: Seq<u8>,
    f: crate::catalog::FileView,
    bytes: Seq<u8>,
)
    requires
        live_readable(v, file),
        v.catalog.blocks.dom().finite(),
        crate::vault::rewrite::packed_start(
            v.catalog.blocks,
            crate::vault::rewrite::live(v),
            crate::vault::rewrite::live(v).len() as int,
        ) <= u64::MAX,
        in_history(v, f),
        crate::vault::laws::has_content(v, file, f, bytes),
    ensures
        crate::vault::laws::has_content(compacted(v), compacted_file(v, file), f, bytes),
{
    compaction_keeps_needed_blocks(v, file);
    assert forall|i: int| 0 <= i < f.chunks.len() implies crate::vault::laws::content_of(
        compacted(v),
        compacted_file(v, file),
        (#[trigger] f.chunks[i]).hash@,
    ) == Some(
        bytes.subrange(
            crate::chunking::chunk_start(f.chunks, i) as int,
            crate::chunking::chunk_start(f.chunks, i + 1) as int,
        ),
    ) by {
        lemma_history_reachable(v, f, i);
        assert(crate::vault::laws::content_of(v, file, f.chunks[i].hash@) is Some);
        assert(compacted(v).catalog.blocks.contains_key(f.chunks[i].hash@));
    }
}

/// A rewritten vault whose catalog was written behind its blocks opens with the password of its
/// lock, and holds what was rewritten; every block has the content that it had.
proof fn lemma_rewritten_opens(
    r: VaultView,
    disk: Seq<u8>,
    w: crate::vault::commit::CatalogWrite,
    raw: Seq<u8>,
    password: Option<Seq<char>>,
)
    requires
        crate::vault::commit::is_catalog_write(w, r.chunk_size, r.next_append, raw, r.enc),
        crate::header::HEADER_SIZE <= r.next_append == disk.len(),
        w.offset + w.bytes@.len() <= u64::MAX,
        match r.enc {
            None => true,
            Some(e) => password is Some && e.opens_with(password->0),
        },
        forall|h: Seq<u8>| #[trigger]
            r.catalog.blocks.contains_key(h) ==> crate::header::HEADER_SIZE
                <= r.catalog.blocks[h].offset && r.catalog.blocks[h].offset
                + r.catalog.blocks[h].len <= r.next_append,
    ensures
        opens_as(r, disk, w, password),
{
    crate::vault::commit::committed_vault_is_as_it_was(disk, r, w, raw, password);
    let file = crate::vault::commit::committed_file(disk, w);
    let o = crate::vault::commit::reopened(file, password, r.catalog)->0;
    assert forall|h: Seq<u8>| #[trigger] r.catalog.blocks.contains_key(
        h,
    ) implies crate::vault::laws::content_of(o, file, h) == crate::vault::laws::content_of(
        r,
        disk,
        h,
    ) by {
        let b = r.catalog.blocks[h];
        assert(file.subrange(b.offset as int, b.offset + b.len) == disk.subrange(
            b.offset as int,
            b.offset + b.len,
        ));
    }
}

/// The file with the catalog `w` behind the blocks of `r` opens as `r`, and every block has the
/// content that it has in `disk`.
pub open spec fn opens_as(
    r: VaultView,
    disk: Seq<u8>,
    w: crate::vault::commit::CatalogWrite,
    password: Option<Seq<char>>,
) -> bool {
    let file = crate::vault::commit::committed_file(disk, w);
    let o = crate::vault::commit::reopened(file, password, r.catalog);
    &&& o == Some(
        VaultView {
            next_append: (w.offset + w.bytes@.len()) as u64,
            zstd_level: crate::pipeline::DEFAULT_ZSTD_LEVEL,
            ..r
        },
    )
    &&& forall|h: Seq<u8>| #[trigger]
        r.catalog.blocks.contains_key(h) ==> crate::vault::laws::content_of(o->0, file, h)
            == crate::vault::laws::content_of(r, disk, h)
}

/// The packed file opens with the same password. It holds the tree, the snapshots and the quota
/// unchanged, and of the blocks exactly those that these need, with the contents that they had.
pub proof fn compacted_vault_opens(
    v: VaultView,
    file: Seq<u8>,
    w: crate::vault::commit::CatalogWrite,
    raw: Seq<u8>,
    password: Option<Seq<char>>,
)
    requires
        live_readable(v, file),
        v.catalog.blocks.dom().finite(),
        crate::vault::rewrite::packed_start(
            v.catalog.blocks,
            crate::vault::rewrite::live(v),
            crate::vault::rewrite::live(v).len() as int,
        ) <= u64::MAX,
        crate::vault::commit::is_catalog_write(
            w,
            v.chunk_size,
            compacted(v).next_append,
            raw,
            v.enc,
        ),
        w.offset + w.bytes@.len() <= u64::MAX,
        match v.enc {
            None => true,
            Some(e) => password is Some && e.opens_with(password->0),
        },
    ensures
        opens_as(compacted(v), compacted_file(v, file), w, password),
        compacted(v).catalog == (crate::catalog::CatalogView {
            blocks: compacted(v).catalog.blocks,
            ..v.catalog
        }),
        forall|h: Seq<u8>| #[trigger]
            compacted(v).catalog.blocks.contains_key(h) <==> v.catalog.blocks.contains_key(h)
                && crate::vault::rewrite::reachable(v).contains(h),
        forall|h: Seq<u8>| #[trigger]
            compacted(v).catalog.blocks.contains_key(h) ==> crate::vault::laws::content_of(
                compacted(v),
                compacted_file(v, file),
                h,
            ) == crate::vault::laws::content_of(v, file, h),
{
    compaction_keeps_needed_blocks(v, file);
    lemma_rewritten_opens(compacted(v), compacted_file(v, file), w, raw, password);
}

/// The blocks of the new file stand behind the header and have the contents that the vault has
/// under their addresses.
pub open spec fn carried(
    v: VaultView,
    file: Seq<u8>,
    s: RekeyView,
    new_file: Seq<u8>,
) -> bool {
    &&& crate::header::HEADER_SIZE <= s.next
    &&& new_file.len() == s.next
    &&& forall|h: Seq<u8>| #[trigger]
        s.blocks.contains_key(h) ==> {
            let b = s.blocks[h];
            let c = crate::vault::laws::content_at(new_file, b, s.key());
            &&& crate::header::HEADER_SIZE <= b.offset
            &&& b.offset + b.len <= s.next
            &&& c is Some
            &&& c == crate::vault::laws::content_of(v, file, h)
            &&& b.raw_len == c->0.len()
        }
}

/// `w` is what a block with the address `hash` and the content `plain` becomes at the end of the
/// new file.
pub open spec fn is_rekey_write(
    s: RekeyView,
    level: i32,
    hash: Seq<u8>,
    plain: Seq<u8>,
    w: BlockWrite,
) -> bool {
    &&& w.hash@ == hash
    &&& w.offset == s.next
    &&& w.raw_len == plain.len() as u32
    &&& crate::pipeline::is_block(w.bytes@, plain, level, s.key())
    &&& w.bytes@.len() == crate::pipeline::block_len(plain, level, s.key())
}

/// A block that is rewritten under another key keeps its content and its address, and so do all
/// that were rewritten before.
pub proof fn rekey_keeps_blocks(
    v: VaultView,
    file: Seq<u8>,
    s: RekeyView,
    new_file: Seq<u8>,
    w: BlockWrite,
    plain: Seq<u8>,
    level: i32,
)
    requires
        carried(v, file, s, new_file),
        crate::vault::laws::content_of(v, file, w.hash@) == Some(plain),
        is_rekey_write(s, level, w.hash@, plain, w),
        plain.len() + 41 <= u32::MAX,
        s.next + w.bytes@.len() <= u64::MAX,
    ensures
        carried(
            v,
            file,
            crate::vault::rekey::rekey_after(s, w),
            crate::vault::stream::overwritten(new_file, w.offset as int, w.bytes@),
        ),
{
    crate::pipeline::stored_block_reads_back(w.bytes@, plain, level, s.key());
    crate::pipeline::stored_block_size(w.bytes@, plain, level, s.key());
    let t = crate::vault::rekey::rekey_after(s, w);
    let after = crate::vault::stream::overwritten(new_file, w.offset as int, w.bytes@);
    assert(t.key() == s.key());
    assert(after.subrange(w.offset as int, w.offset + w.bytes@.len()) =~= w.bytes@);
    assert forall|h: Seq<u8>| #[trigger] t.blocks.contains_key(h) implies ({
        let b = t.blocks[h];
        let c = crate::vault::laws::content_at(after, b, t.key());
        &&& crate::header::HEADER_SIZE <= b.offset
        &&& b.offset + b.len <= t.next
        &&& c is Some
        &&& c == crate::vault::laws::content_of(v, file, h)
        &&& b.raw_len == c->0.len()
    }) by {
        if h != w.hash@ {
            assert(s.blocks.contains_key(h));
            let b = s.blocks[h];
            assert(after.subrange(b.offset as int, b.offset + b.len) =~= new_file.subrange(
                b.offset as int,
                b.offset + b.len,
            ));
        }
    }
}

/// The vault of the rewritten file, before its catalog is written.
pub open spec fn rekeyed(v: VaultView, s: RekeyView) -> VaultView {
    VaultView { enc: s.enc, ..crate::vault::with_blocks(v, s.blocks, s.next) }
}

/// The new file as a value after the first `n` writes.
pub open spec fn rekey_state(s: RekeyView, ws: Seq<BlockWrite>, n: int) -> RekeyView
    decreases n,
{
    if n <= 0 {
        s
    } else {
        crate::vault::rekey::rekey_after(rekey_state(s, ws, n - 1), ws[n - 1])
    }
}

/// The bytes of the new file after the first `n` writes.
pub open spec fn rekey_file(ws: Seq<BlockWrite>, n: int) -> Seq<u8>
    decreases n,
{
    if n <= 0 {
        crate::bytes::zeros(4096)
    } else {
        crate::vault::stream::overwritten(
            rekey_file(ws, n - 1),
            ws[n - 1].offset as int,
            ws[n - 1].bytes@,
        )
    }
}

/// `ws` are what the needed blocks become, one after the other, under the lock of `s`.
pub open spec fn rekey_run(
    v: VaultView,
    file: Seq<u8>,
    s: RekeyView,
    ws: Seq<BlockWrite>,
) -> bool {
    let keys = crate::vault::rewrite::live(v);
    &&& s.blocks == Map::<Seq<u8>, BlockRef>::empty()
    &&& s.next == crate::header::HEADER_SIZE
    &&& ws.len() == keys.len()
    &&& forall|i: int|
        0 <= i < ws.len() ==> crate::vault::laws::content_of(v, file, keys[i]) is Some
            && is_rekey_write(
            rekey_state(s, ws, i),
            v.zstd_level,
            keys[i],
            crate::vault::laws::content_of(v, file, keys[i])->0,
            #[trigger] ws[i],
        ) && crate::vault::laws::content_of(v, file, keys[i])->0.len() + 41 <= u32::MAX
            && rekey_state(s, ws, i).next + ws[i].bytes@.len() <= u64::MAX
}

proof fn lemma_rekey_run(
    v: VaultView,
    file: Seq<u8>,
    s: RekeyView,
    ws: Seq<BlockWrite>,
    n: int,
)
    requires
        rekey_run(v, file, s, ws),
        0 <= n <= ws.len(),
    ensures
        carried(v, file, rekey_state(s, ws, n), rekey_file(ws, n)),
        rekey_state(s, ws, n).enc == s.enc,
        forall|h: Seq<u8>| #[trigger]
            rekey_state(s, ws, n).blocks.contains_key(h) <==> exists|i: int|
                0 <= i < n && #[trigger] crate::vault::rewrite::live(v)[i] == h,
    decreases n,
{
    let keys = crate::vault::rewrite::live(v);
    if n > 0 {
        lemma_rekey_run(v, file, s, ws, n - 1);
        let t = rekey_state(s, ws, n - 1);
        let w = ws[n - 1];
        let plain = crate::vault::laws::content_of(v, file, keys[n - 1])->0;
        assert(is_rekey_write(t, v.zstd_level, keys[n - 1], plain, w));
        rekey_keeps_blocks(v, file, t, rekey_file(ws, n - 1), w, plain, v.zstd_level);
        let u = rekey_state(s, ws, n);
        assert forall|h: Seq<u8>| #[trigger] u.blocks.contains_key(h) <==> exists|i: int|
            0 <= i < n && #[trigger] keys[i] == h by {
            if t.blocks.contains_key(h) {
                let i = choose|i: int| 0 <= i < n - 1 && #[trigger] keys[i] == h;
                assert(keys[i] == h);
            }
            if h == w.hash@ {
                assert(keys[n - 1] == h);
            }
        }
    }
}

/// When all needed blocks were rewritten under a new password, or under none, the new file opens
/// with it and is encrypted exactly if there is one. It holds the tree, the snapshots and the
/// quota unchanged, and of the blocks exactly those that these need, with the contents that they
/// had.
pub proof fn rekeyed_vault_opens(
    v: VaultView,
    file: Seq<u8>,
    s: RekeyView,
    ws: Seq<BlockWrite>,
    w: crate::vault::commit::CatalogWrite,
    raw: Seq<u8>,
    password: Option<Seq<char>>,
)
    requires
        v.catalog.blocks.dom().finite(),
        rekey_run(v, file, s, ws),
        match password {
            None => s.enc is None,
            Some(p) => s.enc is Some && s.enc->0.made_with(p),
        },
        crate::vault::commit::is_catalog_write(
            w,
            v.chunk_size,
            rekey_state(s, ws, ws.len() as int).next,
            raw,
            s.enc,
        ),
        w.offset + w.bytes@.len() <= u64::MAX,
    ensures
        ({
            let t = rekey_state(s, ws, ws.len() as int);
            let r = rekeyed(v, t);
            let disk = rekey_file(ws, ws.len() as int);
            &&& opens_as(r, disk, w, password)
            &&& r.enc is Some == password is Some
            &&& r.catalog == (crate::catalog::CatalogView {
                blocks: r.catalog.blocks,
                ..v.catalog
            })
            &&& forall|h: Seq<u8>| #[trigger]
                r.catalog.blocks.contains_key(h) <==> v.catalog.blocks.contains_key(h)
                    && crate::vault::rewrite::reachable(v).contains(h)
            &&& forall|h: Seq<u8>| #[trigger]
                r.catalog.blocks.contains_key(h) ==> crate::vault::laws::content_of(r, disk, h)
                    == crate::vault::laws::content_of(v, file, h)
        }),
{
    let n = ws.len() as int;
    let keys = crate::vault::rewrite::live(v);
    let t = rekey_state(s, ws, n);
    let r = rekeyed(v, t);
    let disk = rekey_file(ws, n);
    lemma_live(v);
    lemma_rekey_run(v, file, s, ws, n);
    if let Some(p) = password {
        crate::header::made_lock_opens(s.enc->0, p);
    }
    assert(r.key() == t.key());
    assert forall|h: Seq<u8>| #[trigger] r.catalog.blocks.contains_key(
        h,
    ) <==> v.catalog.blocks.contains_key(h) && crate::vault::rewrite::reachable(v).contains(
        h,
    ) by {
        if keys.contains(h) {
            let i = keys.index_of(h);
            assert(keys[i] == h);
        }
        if r.catalog.blocks.contains_key(h) {
            let i = choose|i: int| 0 <= i < n && #[trigger] keys[i] == h;
            assert(keys.contains(h));
        }
    }
    assert forall|h: Seq<u8>| #[trigger] r.catalog.blocks.contains_key(
        h,
    ) implies crate::vault::laws::content_of(r, disk, h) == crate::vault::laws::content_of(
        v,
        file,
        h,
    ) by {
        assert(t.blocks.contains_key(h));
    }
    lemma_rewritten_opens(r, disk, w, raw, password);
}

/// Once all needed blocks are rewritten, every file of the tree and of the snapshots has the
/// same content under the new password.
pub proof fn rekey_keeps_content(
    v: VaultView,
    file: Seq<u8>,
    s: RekeyView,
    new_file: Seq<u8>,
    f: crate::catalog::FileView,
    bytes: Seq<u8>,
)
    requires
        v.catalog.blocks.dom().finite(),
        carried(v, file, s, new_file),
        forall|h: Seq<u8>| #[trigger]
            crate::vault::rewrite::live(v).contains(h) ==> s.blocks.contains_key(h),
        in_history(v, f),
        crate::vault::laws::has_content(v, file, f, bytes),
    ensures
        crate::vault::laws::has_content(rekeyed(v, s), new_file, f, bytes),
{
    lemma_live(v);
    let r = rekeyed(v, s);
    assert(r.key() == s.key());
    assert forall|i: int| 0 <= i < f.chunks.len() implies crate::vault::laws::content_of(
        r,
        new_file,
        (#[trigger] f.chunks[i]).hash@,
    ) == Some(
        bytes.subrange(
            crate::chunking::chunk_start(f.chunks, i) as int,
            crate::chunking::chunk_start(f.chunks, i + 1) as int,
        ),
    ) by {
        let h = f.chunks[i].hash@;
        lemma_history_reachable(v, f, i);
        assert(crate::vault::laws::content_of(v, file, h) is Some);
        assert(crate::vault::rewrite::live(v).contains(h));
        assert(s.blocks.contains_key(h));
    }
}

/// A block is needed exactly if a chunk of a file of the tree or of a snapshot has its address.
pub proof fn needed_block_is_named_by_a_chunk(v: VaultView, h: Seq<u8>)
    ensures
        crate::vault::rewrite::reachable(v).contains(h) <==> (exists|p: Seq<char>, i: int|
            #![trigger v.catalog.files[p].chunks[i]]
            v.catalog.files.contains_key(p) && 0 <= i < v.catalog.files[p].chunks.len()
                && v.catalog.files[p].chunks[i].hash@ == h) || (exists|s: int, p: Seq<char>, i: int|
            #![trigger v.catalog.snapshots[s].files[p].chunks[i]]
            0 <= s < v.catalog.snapshots.len() && v.catalog.snapshots[s].files.contains_key(p) && 0
                <= i < v.catalog.snapshots[s].files[p].chunks.len()
                && v.catalog.snapshots[s].files[p].chunks[i].hash@ == h),
{
    if crate::vault::rewrite::reachable(v).contains(h) && !crate::vault::rewrite::mentions(
        v.catalog.files,
        h,
    ) {
        let s = choose|s: int|
            0 <= s < v.catalog.snapshots.len() && crate::vault::rewrite::mentions(
                (#[trigger] v.catalog.snapshots[s]).files,
                h,
            );
        let files = v.catalog.snapshots[s].files;
        let (p, i) = choose|p: Seq<char>, i: int|
            #![trigger files[p].chunks[i]]
            files.contains_key(p) && 0 <= i < files[p].chunks.len() && files[p].chunks[i].hash@
                == h;
        assert(v.catalog.snapshots[s].files[p].chunks[i].hash@ == h);
    }
    if exists|s: int, p: Seq<char>, i: int|
        #![trigger v.catalog.snapshots[s].files[p].chunks[i]]
        0 <= s < v.catalog.snapshots.len() && v.catalog.snapshots[s].files.contains_key(p) && 0
            <= i < v.catalog.snapshots[s].files[p].chunks.len()
            && v.catalog.snapshots[s].files[p].chunks[i].hash@ == h {
        let (s, p, i) = choose|s: int, p: Seq<char>, i: int|
            #![trigger v.catalog.snapshots[s].files[p].chunks[i]]
            0 <= s < v.catalog.snapshots.len() && v.catalog.snapshots[s].files.contains_key(p) && 0
                <= i < v.catalog.snapshots[s].files[p].chunks.len()
                && v.catalog.snapshots[s].files[p].chunks[i].hash@ == h;
        let files = v.catalog.snapshots[s].files;
        assert(files[p].chunks[i].hash@ == h);
        assert(crate::vault::rewrite::mentions(v.catalog.snapshots[s].files, h));
    }
}

proof fn lemma_index_keys(
    blocks: Map<Seq<u8>, crate::catalog::BlockRef>,
    keys: Seq<Seq<u8>>,
    n: int,
)
    requires
        0 <= n <= keys.len(),
    ensures
        ({
            let m = crate::vault::rewrite::packed_index(blocks, keys, n);
            &&& m.dom().finite()
            &&& forall|h: Seq<u8>| #[trigger] m.contains_key(h) <==> keys.take(n).contains(h)
            &&& forall|h: Seq<u8>| #[trigger]
                m.contains_key(h) ==> m[h].len == blocks[h].len && m[h].raw_len == blocks[h].raw_len
        }),
    decreases n,
{
    if n > 0 {
        lemma_index_keys(blocks, keys, n - 1);
        let front = keys.take(n - 1);
        let more = keys.take(n);
        let k = keys[n - 1];
        assert(more[n - 1] == k);
        assert forall|h: Seq<u8>| #[trigger] more.contains(h) <==> front.contains(h) || h == k by {
            if front.contains(h) {
                assert(more[front.index_of(h)] == h);
            }
            if more.contains(h) && h != k {
                assert(front[more.index_of(h)] == h);
            }
        }
    } else {
        assert(keys.take(0) =~= Seq::empty());
    }
}

proof fn lemma_packed_sum(
    blocks: Map<Seq<u8>, crate::catalog::BlockRef>,
    keys: Seq<Seq<u8>>,
    n: int,
)
    requires
        0 <= n <= keys.len(),
    ensures
        crate::vault::rewrite::packed_start(blocks, keys, n) == crate::header::HEADER_SIZE
            + crate::sums::sum_over(keys.take(n), |k: Seq<u8>| blocks[k].len as nat),
    decreases n,
{
    if n > 0 {
        lemma_packed_sum(blocks, keys, n - 1);
        assert(keys.take(n).drop_last() =~= keys.take(n - 1));
    } else {
        assert(keys.take(0) =~= Seq::empty());
    }
}

/// Compaction leaves no gaps: what a compacted vault takes behind its header is the lengths of
/// its blocks together, each as long as it was, and the catalog is the same but for their places.
pub proof fn compacted_vault_has_no_gaps(v: VaultView)
    requires
        v.catalog.blocks.dom().finite(),
        crate::vault::rewrite::packed_start(
            v.catalog.blocks,
            crate::vault::rewrite::live(v),
            crate::vault::rewrite::live(v).len() as int,
        ) <= u64::MAX,
    ensures
        compacted(v).next_append == crate::header::HEADER_SIZE
            + crate::vault::stats::stored_total(compacted(v)),
        forall|h: Seq<u8>| #[trigger]
            compacted(v).catalog.blocks.contains_key(h) ==> compacted(v).catalog.blocks[h].len
                == v.catalog.blocks[h].len && compacted(v).catalog.blocks[h].raw_len
                == v.catalog.blocks[h].raw_len,
        compacted(v).catalog.files == v.catalog.files,
        compacted(v).catalog.dirs == v.catalog.dirs,
        compacted(v).catalog.snapshots == v.catalog.snapshots,
        compacted(v).catalog.quota == v.catalog.quota,
{
    let blocks = v.catalog.blocks;
    let all = crate::vault::integrity::block_order(v);
    let keys = crate::vault::rewrite::live(v);
    let n = keys.len() as int;
    crate::sorted::lemma_in_order_exists::<crate::pipeline::Hash>(blocks.dom());
    crate::vault::moves::lemma_filtered_members(
        all,
        |h: Seq<u8>| crate::vault::rewrite::reachable(v).contains(h),
    );
    lemma_index_keys(blocks, keys, n);
    lemma_packed_sum(blocks, keys, n);
    assert(keys.take(n) =~= keys);
    let w = compacted(v);
    let m = w.catalog.blocks;
    let order = crate::vault::integrity::block_order(w);
    crate::sorted::lemma_in_order_exists::<crate::pipeline::Hash>(m.dom());
    assert(order.to_set() =~= keys.to_set()) by {
        assert forall|h: Seq<u8>| order.to_set().contains(h) == keys.to_set().contains(h) by {
            assert(m.dom().contains(h) == m.contains_key(h));
            assert(keys.to_set().contains(h) == keys.contains(h));
        }
    }
    let a = |k: Seq<u8>| blocks[k].len as nat;
    let b = |k: Seq<u8>| m[k].len as nat;
    crate::sums::lemma_sum_of_set(order, keys, b);
    assert forall|i: int| 0 <= i < keys.len() implies a(#[trigger] keys[i]) == b(keys[i]) by {
        assert(keys.contains(keys[i]));
        assert(m.contains_key(keys[i]));
    }
    crate::sums::lemma_sum_same(keys, a, b);
    crate::vault::stats::lemma_stored_total(w);
}

/// The blocks that are carried along are those of the index that are needed, each once.
pub proof fn live_blocks_are_the_needed_ones(v: VaultView, h: Seq<u8>)
    requires
        v.catalog.blocks.dom().finite(),
    ensures
        crate::vault::rewrite::live(v).contains(h) <==> v.catalog.blocks.contains_key(h)
            && crate::vault::rewrite::reachable(v).contains(h),
        crate::vault::rewrite::live(v).no_duplicates(),
{
    let all = crate::vault::integrity::block_order(v);
    crate::sorted::lemma_in_order_exists::<crate::pipeline::Hash>(v.catalog.blocks.dom());
    crate::vault::moves::lemma_filtered_members(
        all,
        |h: Seq<u8>| crate::vault::rewrite::reachable(v).contains(h),
    );
    assert(all.to_set().contains(h) == all.contains(h));
}

} // verus!
