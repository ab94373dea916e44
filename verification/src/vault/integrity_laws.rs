//! What the check of a vault finds, in terms of its blocks and of the chunks that refer to them.

use vstd::prelude::*;

use crate::catalog::ChunkRef;
use crate::vault::integrity::Verdict;
use crate::vault::VaultView;

verus! {

/// A block is good exactly if its bytes were read, can be decoded, and hold what its address is
/// the digest of; the other verdicts tell which of these failed first.
pub proof fn verdict_tells_what_is_wrong(
    key: Option<Seq<u8>>,
    hash: Seq<u8>,
    stored: Seq<u8>,
    data: Seq<u8>,
)
    ensures
        crate::vault::integrity::verdict_of(key, hash, None) == Verdict::Unreadable,
        crate::pipeline::block_content(stored, key) is None ==> crate::vault::integrity::verdict_of(
            key,
            hash,
            Some(stored),
        ) == Verdict::Undecodable,
        crate::pipeline::block_content(stored, key) == Some(data)
            && crate::pipeline::blake3_digest(data) == hash
            ==> crate::vault::integrity::verdict_of(key, hash, Some(stored)) == Verdict::Good,
        crate::pipeline::block_content(stored, key) == Some(data)
            && crate::pipeline::blake3_digest(data) != hash
            ==> crate::vault::integrity::verdict_of(key, hash, Some(stored)) == Verdict::Mismatch,
{
}

/// The texts that the report of a check is made of.
pub proof fn verdicts_have_their_texts(path: Seq<char>)
    ensures
        crate::vault::integrity::verdict_text(Verdict::Unreadable)
            == "bloco ilegível (leitura falhou)"@,
        crate::vault::integrity::verdict_text(Verdict::Mismatch)
            == "bloco com conteúdo corrompido (hash não bate)"@,
        crate::vault::integrity::verdict_text(Verdict::Undecodable)
            == "bloco não decodifica (corrompido ou senha errada)"@,
        crate::vault::integrity::missing_text(path) == path + ": referência a bloco ausente"@,
{
}

/// A block reads as the bytes of its place, if the file reaches that far.
pub proof fn block_is_read_at_its_place(
    v: VaultView,
    file: Seq<u8>,
    h: Seq<u8>,
)
    requires
        v.catalog.blocks.dom().finite(),
        v.catalog.blocks.contains_key(h),
    ensures
        ({
            let b = v.catalog.blocks[h];
            let order = crate::vault::integrity::block_order(v);
            let reads = crate::vault::integrity::reads_of(v, file);
            &&& reads.len() == v.catalog.blocks.dom().len()
            &&& exists|i: int|
                0 <= i < order.len() && #[trigger] order[i] == h && reads[i] == (if b.offset + b.len
                    <= file.len() {
                    Some(file.subrange(b.offset as int, b.offset + b.len))
                } else {
                    None
                })
        }),
{
    crate::vault::integrity::lemma_block_order(v);
    let order = crate::vault::integrity::block_order(v);
    crate::sorted::lemma_in_order_exists::<crate::pipeline::Hash>(v.catalog.blocks.dom());
    order.unique_seq_to_set();
    assert(order.to_set().contains(h));
    assert(order.contains(h));
    let i = order.index_of(h);
    assert(order[i] == h);
}

/// The blocks that a check finds bad are those of the index whose place does not hold content
/// with their address.
pub proof fn bad_blocks_are_those_that_do_not_read(v: VaultView, file: Seq<u8>, h: Seq<u8>)
    requires
        v.catalog.blocks.dom().finite(),
    ensures
        crate::vault::repair::bad_in(v, file).contains(h) <==> v.catalog.blocks.contains_key(h) && {
            let b = v.catalog.blocks[h];
            ||| b.offset + b.len > file.len()
            ||| {
                let data = crate::pipeline::block_content(
                    file.subrange(b.offset as int, b.offset + b.len),
                    v.key(),
                );
                data is None || crate::pipeline::blake3_digest(data->0) != h
            }
        },
{
    crate::vault::repair::lemma_bad_in(v, file, h);
}

/// What a check counts as missing in the files of a tree.
spec fn missing_in(
    blocks: Map<Seq<u8>, crate::catalog::BlockRef>,
    files: Map<Seq<char>, crate::catalog::FileView>,
) -> spec_fn(Seq<char>) -> nat {
    |p: Seq<char>|
        crate::vault::integrity::file_notes(
            blocks,
            p,
            files[p].chunks,
            files[p].chunks.len() as int,
        ).len()
}

proof fn lemma_notes_summed(
    blocks: Map<Seq<u8>, crate::catalog::BlockRef>,
    files: Map<Seq<char>, crate::catalog::FileView>,
    order: Seq<Seq<char>>,
    n: int,
)
    requires
        0 <= n <= order.len(),
    ensures
        crate::vault::integrity::tree_notes(blocks, files, order, n).len()
            == crate::sums::sum_over(order.take(n), missing_in(blocks, files)),
    decreases n,
{
    if n > 0 {
        lemma_notes_summed(blocks, files, order, n - 1);
        assert(order.take(n).drop_last() =~= order.take(n - 1));
    }
}

proof fn lemma_tree_with_file(
    blocks: Map<Seq<u8>, crate::catalog::BlockRef>,
    files: Map<Seq<char>, crate::catalog::FileView>,
    p: Seq<char>,
    f: crate::catalog::FileView,
)
    requires
        files.dom().finite(),
        !files.contains_key(p),
    ensures
        crate::vault::integrity::all_tree_notes(blocks, files.insert(p, f)).len()
            == crate::vault::integrity::all_tree_notes(blocks, files).len()
            + crate::vault::integrity::file_notes(blocks, p, f.chunks, f.chunks.len() as int).len(),
{
    let more = files.insert(p, f);
    let a = crate::vault::tree::path_order(files.dom());
    let b = crate::vault::tree::path_order(more.dom());
    crate::sorted::lemma_in_order_exists::<String>(files.dom());
    crate::sorted::lemma_in_order_exists::<String>(more.dom());
    lemma_notes_summed(blocks, files, a, a.len() as int);
    lemma_notes_summed(blocks, more, b, b.len() as int);
    assert(a.take(a.len() as int) =~= a);
    assert(b.take(b.len() as int) =~= b);
    assert(a.to_set().contains(p) == a.contains(p));
    assert(b.to_set() =~= a.to_set().insert(p));
    let x = missing_in(blocks, files);
    let y = missing_in(blocks, more);
    crate::sums::lemma_sum_with_one(a, b, p, y);
    assert forall|i: int| 0 <= i < a.len() implies x(#[trigger] a[i]) == y(a[i]) by {
        assert(a.contains(a[i]));
    }
    crate::sums::lemma_sum_same(a, x, y);
}

proof fn lemma_notes_of_front(
    blocks: Map<Seq<u8>, crate::catalog::BlockRef>,
    p: Seq<char>,
    a: Seq<ChunkRef>,
    b: Seq<ChunkRef>,
    n: int,
)
    requires
        0 <= n <= a.len(),
        n <= b.len(),
        forall|i: int| 0 <= i < n ==> a[i] == b[i],
    ensures
        crate::vault::integrity::file_notes(blocks, p, a, n)
            == crate::vault::integrity::file_notes(blocks, p, b, n),
    decreases n,
{
    if n > 0 {
        lemma_notes_of_front(blocks, p, a, b, n - 1);
    }
}

/// Each chunk whose block is not in the index counts as one that is missing, and nothing else
/// does: a file without chunks adds none, and a chunk more adds one exactly if its block is not
/// in the index.
pub proof fn each_missing_block_counts(
    v: VaultView,
    p: Seq<char>,
    f: crate::catalog::FileView,
    g: crate::catalog::FileView,
    c: ChunkRef,
    w: VaultView,
    x: VaultView,
)
    requires
        v.catalog.files.dom().finite(),
        !v.catalog.files.contains_key(p),
        g.chunks == f.chunks.push(c),
        w.catalog.files == v.catalog.files.insert(p, f),
        w.catalog.blocks == v.catalog.blocks,
        w.catalog.snapshots == v.catalog.snapshots,
        x.catalog.files == v.catalog.files.insert(p, g),
        x.catalog.blocks == v.catalog.blocks,
        x.catalog.snapshots == v.catalog.snapshots,
    ensures
        f.chunks.len() == 0 ==> crate::vault::integrity::missing_notes(w).len()
            == crate::vault::integrity::missing_notes(v).len(),
        v.catalog.blocks.contains_key(c.hash@) ==> crate::vault::integrity::missing_notes(x).len()
            == crate::vault::integrity::missing_notes(w).len(),
        !v.catalog.blocks.contains_key(c.hash@) ==> crate::vault::integrity::missing_notes(x).len()
            == crate::vault::integrity::missing_notes(w).len() + 1,
{
    let blocks = v.catalog.blocks;
    lemma_tree_with_file(blocks, v.catalog.files, p, f);
    lemma_tree_with_file(blocks, v.catalog.files, p, g);
    lemma_notes_of_front(blocks, p, f.chunks, g.chunks, f.chunks.len() as int);
    assert(g.chunks[g.chunks.len() - 1] == c);
    lemma_snapshots_alike(v, w, v.catalog.snapshots.len() as int);
    lemma_snapshots_alike(v, x, v.catalog.snapshots.len() as int);
}

proof fn lemma_snapshots_alike(v: VaultView, w: VaultView, n: int)
    requires
        w.catalog.blocks == v.catalog.blocks,
        0 <= n <= v.catalog.snapshots.len(),
        n <= w.catalog.snapshots.len(),
        forall|i: int| 0 <= i < n ==> w.catalog.snapshots[i] == v.catalog.snapshots[i],
    ensures
        crate::vault::integrity::snapshot_notes(w, n) == crate::vault::integrity::snapshot_notes(
            v,
            n,
        ),
    decreases n,
{
    if n > 0 {
        lemma_snapshots_alike(v, w, n - 1);
    }
}

/// A vault without files and snapshots misses nothing, and a snapshot more adds what its files
/// miss as a tree.
pub proof fn missing_blocks_of_snapshots_count(
    v: VaultView,
    w: VaultView,
    t: VaultView,
    s: crate::catalog::SnapshotView,
)
    requires
        w.catalog.blocks == v.catalog.blocks,
        w.catalog.files == v.catalog.files,
        w.catalog.snapshots == v.catalog.snapshots.push(s),
        t.catalog.blocks == v.catalog.blocks,
        t.catalog.files == s.files,
        t.catalog.snapshots.len() == 0,
    ensures
        crate::vault::integrity::missing_notes(w).len() == crate::vault::integrity::missing_notes(
            v,
        ).len() + crate::vault::integrity::missing_notes(t).len(),
        s.files == Map::<Seq<char>, crate::catalog::FileView>::empty()
            ==> crate::vault::integrity::missing_notes(t).len() == 0,
{
    lemma_snapshots_alike(v, w, v.catalog.snapshots.len() as int);
    if s.files == Map::<Seq<char>, crate::catalog::FileView>::empty() {
        let order = crate::vault::tree::path_order(s.files.dom());
        crate::sorted::lemma_in_order_exists::<String>(s.files.dom());
        if order.len() > 0 {
            assert(order.to_set().contains(order[0]));
        }
    }
}

proof fn lemma_file_complete(
    blocks: Map<Seq<u8>, crate::catalog::BlockRef>,
    p: Seq<char>,
    chunks: Seq<ChunkRef>,
    n: int,
)
    requires
        0 <= n <= chunks.len(),
        crate::vault::integrity::file_notes(blocks, p, chunks, n).len() == 0,
    ensures
        forall|i: int| 0 <= i < n ==> blocks.contains_key((#[trigger] chunks[i]).hash@),
    decreases n,
{
    if n > 0 {
        lemma_file_complete(blocks, p, chunks, n - 1);
    }
}

proof fn lemma_tree_complete(
    blocks: Map<Seq<u8>, crate::catalog::BlockRef>,
    files: Map<Seq<char>, crate::catalog::FileView>,
    order: Seq<Seq<char>>,
    n: int,
    k: int,
    i: int,
)
    requires
        0 <= k < n <= order.len(),
        crate::vault::integrity::tree_notes(blocks, files, order, n).len() == 0,
        0 <= i < files[order[k]].chunks.len(),
    ensures
        blocks.contains_key(files[order[k]].chunks[i].hash@),
    decreases n,
{
    if k < n - 1 {
        lemma_tree_complete(blocks, files, order, n - 1, k, i);
    } else {
        let chunks = files[order[k]].chunks;
        lemma_file_complete(blocks, order[k], chunks, chunks.len() as int);
    }
}

proof fn lemma_all_complete(
    blocks: Map<Seq<u8>, crate::catalog::BlockRef>,
    files: Map<Seq<char>, crate::catalog::FileView>,
    p: Seq<char>,
    i: int,
)
    requires
        files.dom().finite(),
        crate::vault::integrity::all_tree_notes(blocks, files).len() == 0,
        files.contains_key(p),
        0 <= i < files[p].chunks.len(),
    ensures
        blocks.contains_key(files[p].chunks[i].hash@),
{
    let order = crate::vault::tree::path_order(files.dom());
    crate::sorted::lemma_in_order_exists::<String>(files.dom());
    assert(order.to_set().contains(p));
    assert(order.contains(p));
    let k = order.index_of(p);
    lemma_tree_complete(blocks, files, order, order.len() as int, k, i);
}

proof fn lemma_snapshots_complete(v: VaultView, n: int, s: int)
    requires
        0 <= s < n <= v.catalog.snapshots.len(),
        crate::vault::integrity::snapshot_notes(v, n).len() == 0,
    ensures
        crate::vault::integrity::all_tree_notes(
            v.catalog.blocks,
            v.catalog.snapshots[s].files,
        ).len() == 0,
    decreases n,
{
    if s < n - 1 {
        lemma_snapshots_complete(v, n - 1, s);
    }
}

proof fn lemma_no_bad_verdict(verdicts: Seq<Verdict>, n: int, i: int)
    requires
        0 <= i < n <= verdicts.len() <= usize::MAX,
        crate::vault::integrity::with_verdicts(
            crate::vault::integrity::empty_report(),
            verdicts,
            n,
        ).blocks_bad == 0,
    ensures
        verdicts[i] == Verdict::Good,
    decreases n,
{
    lemma_verdict_counts(verdicts, n - 1);
    if i < n - 1 {
        lemma_no_bad_verdict(verdicts, n - 1, i);
    }
}

proof fn lemma_verdict_counts(verdicts: Seq<Verdict>, n: int)
    requires
        0 <= n <= verdicts.len() <= usize::MAX,
    ensures
        ({
            let r = crate::vault::integrity::with_verdicts(
                crate::vault::integrity::empty_report(),
                verdicts,
                n,
            );
            r.blocks_ok + r.blocks_bad == n && r.missing_blocks == 0
        }),
    decreases n,
{
    if n > 0 {
        lemma_verdict_counts(verdicts, n - 1);
    }
}

/// A clean report means a sound vault: each block lies in the file and holds content with its
/// address, and each chunk of each file, of the tree and of the snapshots, has its block.
pub proof fn clean_report_means_sound_vault(v: VaultView, file: Seq<u8>)
    requires
        v.catalog.blocks.dom().finite(),
        v.catalog.blocks.dom().len() <= usize::MAX,
        crate::vault::repair::trees_finite(v),
        ({
            let r = crate::vault::integrity::full_report(
                v,
                crate::vault::integrity::verdicts_of(
                    v,
                    crate::vault::integrity::reads_of(v, file),
                ),
            );
            r.blocks_bad == 0 && r.missing_blocks == 0
        }),
    ensures
        forall|h: Seq<u8>| #[trigger]
            v.catalog.blocks.contains_key(h) ==> {
                let b = v.catalog.blocks[h];
                let data = crate::pipeline::block_content(
                    file.subrange(b.offset as int, b.offset + b.len),
                    v.key(),
                );
                b.offset + b.len <= file.len() && data is Some && crate::pipeline::blake3_digest(
                    data->0,
                ) == h
            },
        forall|p: Seq<char>, i: int|
            #![trigger v.catalog.files[p].chunks[i]]
            v.catalog.files.contains_key(p) && 0 <= i < v.catalog.files[p].chunks.len()
                ==> v.catalog.blocks.contains_key(v.catalog.files[p].chunks[i].hash@),
        forall|s: int, p: Seq<char>, i: int|
            #![trigger v.catalog.snapshots[s].files[p].chunks[i]]
            0 <= s < v.catalog.snapshots.len() && v.catalog.snapshots[s].files.contains_key(p)
                && 0 <= i < v.catalog.snapshots[s].files[p].chunks.len()
                ==> v.catalog.blocks.contains_key(
                v.catalog.snapshots[s].files[p].chunks[i].hash@,
            ),
{
    let reads = crate::vault::integrity::reads_of(v, file);
    let verdicts = crate::vault::integrity::verdicts_of(v, reads);
    let order = crate::vault::integrity::block_order(v);
    crate::sorted::lemma_in_order_exists::<crate::pipeline::Hash>(v.catalog.blocks.dom());
    order.unique_seq_to_set();
    lemma_verdict_counts(verdicts, verdicts.len() as int);
    assert forall|h: Seq<u8>| #[trigger] v.catalog.blocks.contains_key(h) implies ({
        let b = v.catalog.blocks[h];
        let data = crate::pipeline::block_content(
            file.subrange(b.offset as int, b.offset + b.len),
            v.key(),
        );
        b.offset + b.len <= file.len() && data is Some && crate::pipeline::blake3_digest(data->0)
            == h
    }) by {
        assert(order.to_set().contains(h));
        assert(order.contains(h));
        let i = order.index_of(h);
        assert(order[i] == h);
        lemma_no_bad_verdict(verdicts, verdicts.len() as int, i);
    }
    let notes = crate::vault::integrity::missing_notes(v);
    assert(notes.len() == 0);
    assert forall|p: Seq<char>, i: int|
        #![trigger v.catalog.files[p].chunks[i]]
        v.catalog.files.contains_key(p) && 0 <= i
            < v.catalog.files[p].chunks.len() implies v.catalog.blocks.contains_key(
        v.catalog.files[p].chunks[i].hash@,
    ) by {
        lemma_all_complete(v.catalog.blocks, v.catalog.files, p, i);
    }
    assert forall|s: int, p: Seq<char>, i: int|
        #![trigger v.catalog.snapshots[s].files[p].chunks[i]]
        0 <= s < v.catalog.snapshots.len() && v.catalog.snapshots[s].files.contains_key(p) && 0
            <= i
            < v.catalog.snapshots[s].files[p].chunks.len() implies v.catalog.blocks.contains_key(
        v.catalog.snapshots[s].files[p].chunks[i].hash@,
    ) by {
        lemma_snapshots_complete(v, v.catalog.snapshots.len() as int, s);
        assert(v.catalog.snapshots[s].files.dom().finite());
        lemma_all_complete(v.catalog.blocks, v.catalog.snapshots[s].files, p, i);
    }
}

proof fn lemma_noted(errors: Seq<Seq<char>>, texts: Seq<Seq<char>>)
    requires
        errors.len() <= 100,
    ensures
        ({
            let all = errors + texts;
            crate::vault::integrity::all_noted(errors, texts) == (if all.len() <= 100 {
                all
            } else {
                all.take(100)
            })
        }),
    decreases texts.len(),
{
    let all = errors + texts;
    if texts.len() == 0 {
        assert(all =~= errors);
    } else {
        let front = texts.drop_last();
        lemma_noted(errors, front);
        assert(all.drop_last() =~= errors + front);
        let r = crate::vault::integrity::all_noted(errors, front);
        if all.len() <= 100 {
            assert(r.push(texts.last()) =~= all);
        } else if all.len() == 101 {
            assert(r =~= all.take(100));
        } else {
            assert((errors + front).take(100) =~= all.take(100));
        }
    }
}

/// A report gives the first hundred texts: those on the bad blocks, and behind them one on each
/// chunk that misses its block, in the order in which they are met.
pub proof fn report_gives_the_first_texts(v: VaultView, verdicts: Seq<Verdict>)
    requires
        verdicts.len() <= usize::MAX,
    ensures
        ({
            let r = crate::vault::integrity::full_report(v, verdicts);
            let bad = crate::vault::integrity::with_verdicts(
                crate::vault::integrity::empty_report(),
                verdicts,
                verdicts.len() as int,
            ).errors;
            let all = bad + crate::vault::integrity::missing_notes(v);
            r.errors == (if all.len() <= 100 {
                all
            } else {
                all.take(100)
            })
        }),
{
    lemma_bad_texts(verdicts, verdicts.len() as int);
    let bad = crate::vault::integrity::with_verdicts(
        crate::vault::integrity::empty_report(),
        verdicts,
        verdicts.len() as int,
    ).errors;
    lemma_noted(bad, crate::vault::integrity::missing_notes(v));
}

proof fn lemma_bad_texts(verdicts: Seq<Verdict>, n: int)
    requires
        0 <= n <= verdicts.len(),
    ensures
        crate::vault::integrity::with_verdicts(
            crate::vault::integrity::empty_report(),
            verdicts,
            n,
        ).errors.len() <= 100,
    decreases n,
{
    if n > 0 {
        lemma_bad_texts(verdicts, n - 1);
    }
}

/// The report counts every chunk that misses its block, up to the largest number.
pub proof fn missing_blocks_are_counted(v: VaultView, verdicts: Seq<Verdict>)
    requires
        verdicts.len() <= usize::MAX,
    ensures
        ({
            let n = crate::vault::integrity::missing_notes(v).len();
            let r = crate::vault::integrity::full_report(v, verdicts);
            &&& n <= usize::MAX ==> r.missing_blocks == n
            &&& n > usize::MAX ==> r.missing_blocks == usize::MAX
        }),
{
    lemma_verdict_counts(verdicts, verdicts.len() as int);
}

/// The blocks are checked all, each once, in the order of their addresses.
pub proof fn blocks_are_checked_in_order(v: VaultView, h: Seq<u8>, i: int, j: int)
    requires
        v.catalog.blocks.dom().finite(),
    ensures
        ({
            let order = crate::vault::integrity::block_order(v);
            &&& order.contains(h) <==> v.catalog.blocks.contains_key(h)
            &&& 0 <= i < j < order.len() ==> <crate::pipeline::Hash as crate::order::SortKey>::key_before(
                order[i],
                order[j],
            )
        }),
{
    let order = crate::vault::integrity::block_order(v);
    crate::sorted::lemma_in_order_exists::<crate::pipeline::Hash>(v.catalog.blocks.dom());
    assert(order.to_set().contains(h) == order.contains(h));
}

/// Addresses and reads are taken one by one; a block that was not read has no bytes.
pub proof fn reads_are_taken_one_by_one(
    hashes: Seq<crate::pipeline::Hash>,
    reads: Seq<Option<Vec<u8>>>,
    i: int,
)
    ensures
        crate::vault::integrity::hash_views(hashes).len() == hashes.len(),
        0 <= i < hashes.len() ==> crate::vault::integrity::hash_views(hashes)[i] == hashes[i]@,
        crate::vault::integrity::kept_views(reads).len() == reads.len(),
        0 <= i < reads.len() && reads[i] is None ==> crate::vault::integrity::kept_views(
            reads,
        )[i] is None,
        0 <= i < reads.len() && reads[i] is Some ==> crate::vault::integrity::kept_views(reads)[i]
            == Some(reads[i]->0@),
{
}

/// A report tells its counts and its texts.
pub proof fn report_tells_its_counts(r: crate::vault::integrity::VerifyReport)
    ensures
        r@.blocks_ok == r.blocks_ok,
        r@.blocks_bad == r.blocks_bad,
        r@.missing_blocks == r.missing_blocks,
        r@.errors == crate::vault::moves::names(r.errors@),
{
}

/// Missing blocks are told in the order of paths, and in that of the chunks of a file: a file
/// behind all others adds its texts at the end, and so does a chunk behind the others of a file.
pub proof fn missing_blocks_are_told_in_order(
    blocks: Map<Seq<u8>, crate::catalog::BlockRef>,
    files: Map<Seq<char>, crate::catalog::FileView>,
    p: Seq<char>,
    f: crate::catalog::FileView,
    chunks: Seq<ChunkRef>,
    c: ChunkRef,
)
    requires
        files.dom().finite(),
        forall|k: Seq<char>| #[trigger]
            files.contains_key(k) ==> <String as crate::order::SortKey>::key_before(k, p),
    ensures
        crate::vault::integrity::all_tree_notes(blocks, files.insert(p, f))
            == crate::vault::integrity::all_tree_notes(blocks, files)
            + crate::vault::integrity::file_notes(blocks, p, f.chunks, f.chunks.len() as int),
        crate::vault::integrity::file_notes(blocks, p, chunks, 0).len() == 0,
        crate::vault::integrity::file_notes(blocks, p, chunks.push(c), chunks.len() as int + 1) == (
        if blocks.contains_key(c.hash@) {
            crate::vault::integrity::file_notes(blocks, p, chunks, chunks.len() as int)
        } else {
            crate::vault::integrity::file_notes(blocks, p, chunks, chunks.len() as int).push(
                p + ": referência a bloco ausente"@,
            )
        }),
{
    let more = files.insert(p, f);
    let a = crate::vault::tree::path_order(files.dom());
    let b = crate::vault::tree::path_order(more.dom());
    crate::sorted::lemma_in_order_exists::<String>(files.dom());
    crate::sorted::lemma_in_order_exists::<String>(more.dom());
    let c2 = a.push(p);
    assert(crate::sorted::ascending::<String>(c2)) by {
        assert forall|i: int, j: int|
            #![trigger c2[i], c2[j]]
            0 <= i < j < c2.len() implies <String as crate::order::SortKey>::key_before(
            c2[i],
            c2[j],
        ) by {
            if j == a.len() {
                assert(a.to_set().contains(a[i]));
                assert(files.contains_key(a[i]));
            } else {
                assert(c2[i] == a[i] && c2[j] == a[j]);
            }
        }
    }
    assert(c2.to_set() =~= b.to_set()) by {
        assert forall|x: Seq<char>| c2.to_set().contains(x) == b.to_set().contains(x) by {
            assert(a.to_set().contains(x) == a.contains(x));
            if a.contains(x) {
                assert(c2[a.index_of(x)] == x);
            }
            assert(c2[a.len() as int] == p);
            if c2.contains(x) {
                let i = c2.index_of(x);
                if i < a.len() {
                    assert(a[i] == x);
                }
            }
        }
    }
    crate::sorted::lemma_ascending_unique::<String>(c2, b);
    <String as crate::order::SortKey>::order_irreflexive(p);
    assert forall|i: int| 0 <= i < a.len() implies more[#[trigger] a[i]] == files[a[i]] by {
        assert(a.to_set().contains(a[i]));
        assert(files.contains_key(a[i]));
    }
    lemma_notes_of_order(blocks, files, more, a, b, a.len() as int);
    lemma_notes_of_front(blocks, p, chunks, chunks.push(c), chunks.len() as int);
    assert(chunks.push(c)[chunks.len() as int] == c);
}

proof fn lemma_notes_of_order(
    blocks: Map<Seq<u8>, crate::catalog::BlockRef>,
    files: Map<Seq<char>, crate::catalog::FileView>,
    more: Map<Seq<char>, crate::catalog::FileView>,
    a: Seq<Seq<char>>,
    b: Seq<Seq<char>>,
    n: int,
)
    requires
        0 <= n <= a.len(),
        n <= b.len(),
        forall|i: int| 0 <= i < a.len() && i < b.len() ==> #[trigger] a[i] == b[i],
        forall|i: int| 0 <= i < n ==> more[#[trigger] a[i]] == files[a[i]],
    ensures
        crate::vault::integrity::tree_notes(blocks, more, b, n)
            == crate::vault::integrity::tree_notes(blocks, files, a, n),
    decreases n,
{
    if n > 0 {
        lemma_notes_of_order(blocks, files, more, a, b, n - 1);
        assert(a[n - 1] == b[n - 1]);
    }
}

/// The texts on a snapshot more stand behind all others.
pub proof fn snapshots_are_told_behind_the_tree(
    v: VaultView,
    w: VaultView,
    s: crate::catalog::SnapshotView,
)
    requires
        w.catalog.blocks == v.catalog.blocks,
        w.catalog.files == v.catalog.files,
        w.catalog.snapshots == v.catalog.snapshots.push(s),
    ensures
        crate::vault::integrity::missing_notes(w) == crate::vault::integrity::missing_notes(v)
            + crate::vault::integrity::all_tree_notes(v.catalog.blocks, s.files),
        v.catalog.snapshots.len() == 0 ==> crate::vault::integrity::missing_notes(v)
            == crate::vault::integrity::all_tree_notes(v.catalog.blocks, v.catalog.files),
{
    lemma_snapshots_alike(v, w, v.catalog.snapshots.len() as int);
    assert(crate::vault::integrity::missing_notes(w) =~= crate::vault::integrity::missing_notes(v)
        + crate::vault::integrity::all_tree_notes(v.catalog.blocks, s.files));
}

/// Each verdict counts once, as good or as bad; a bad one adds its text, as long as there are
/// fewer than a hundred.
pub proof fn each_verdict_counts_once(verdicts: Seq<Verdict>, n: int)
    requires
        0 <= n < verdicts.len() <= usize::MAX,
    ensures
        ({
            let r = crate::vault::integrity::with_verdicts(
                crate::vault::integrity::empty_report(),
                verdicts,
                n,
            );
            let t = crate::vault::integrity::with_verdicts(
                crate::vault::integrity::empty_report(),
                verdicts,
                n + 1,
            );
            let good = verdicts[n] == Verdict::Good;
            &&& good ==> t.blocks_ok == r.blocks_ok + 1 && t.blocks_bad == r.blocks_bad && t.errors
                == r.errors
            &&& !good ==> t.blocks_ok == r.blocks_ok && t.blocks_bad == r.blocks_bad + 1
            &&& !good && r.errors.len() < 100 ==> t.errors == r.errors.push(
                crate::vault::integrity::verdict_text(verdicts[n]),
            )
            &&& !good && r.errors.len() >= 100 ==> t.errors == r.errors
        }),
        ({
            let e = crate::vault::integrity::with_verdicts(
                crate::vault::integrity::empty_report(),
                verdicts,
                0,
            );
            e.blocks_ok == 0 && e.blocks_bad == 0 && e.missing_blocks == 0 && e.errors.len() == 0
        }),
{
    lemma_verdict_counts(verdicts, n);
}

} // verus!
