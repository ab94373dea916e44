//! What a repair keeps and tells, in terms of the chunks whose blocks are left.

use vstd::prelude::*;

use crate::catalog::ChunkRef;
use crate::vault::VaultView;

verus! {

proof fn lemma_sound_part(
    blocks: Map<Seq<u8>, crate::catalog::BlockRef>,
    chunks: Seq<ChunkRef>,
    i: int,
    n: int,
)
    requires
        0 <= i <= n <= chunks.len(),
        forall|j: int| i <= j < n ==> blocks.contains_key((#[trigger] chunks[j]).hash@),
        n < chunks.len() ==> !blocks.contains_key(chunks[n].hash@),
    ensures
        crate::vault::repair::sound_prefix(blocks, chunks, i) == n,
    decreases n - i,
{
    if i < n {
        assert(blocks.contains_key(chunks[i].hash@));
        lemma_sound_part(blocks, chunks, i + 1, n);
    }
}

/// The blocks that are left are those that were in the index and are not bad, and each lies
/// where it lay.
pub proof fn good_blocks_are_kept(v: VaultView, bad: Set<Seq<u8>>, h: Seq<u8>)
    ensures
        ({
            let r = crate::vault::repair::repaired(v, bad);
            &&& r.catalog.blocks.contains_key(h) <==> v.catalog.blocks.contains_key(h)
                && !bad.contains(h)
            &&& r.catalog.blocks.contains_key(h) ==> r.catalog.blocks[h] == v.catalog.blocks[h]
            &&& r.catalog.dirs == v.catalog.dirs
            &&& r.catalog.quota == v.catalog.quota
            &&& r.next_append == v.next_append
            &&& r.enc == v.enc && r.chunk_size == v.chunk_size && r.zstd_level == v.zstd_level
        }),
{
}

/// Repair keeps as much of a file as it can: one whose blocks are all good stays as it is, and
/// any other is cut right in front of its first chunk whose block is bad or missing, so that the
/// chunk behind those that are kept has no block any more. Only a file that has nothing in front
/// of that chunk goes.
pub proof fn repair_cuts_at_the_first_bad_chunk(
    v: VaultView,
    bad: Set<Seq<u8>>,
    p: Seq<char>,
    n: int,
)
    requires
        v.catalog.files.contains_key(p),
        0 <= n <= v.catalog.files[p].chunks.len(),
        crate::chunking::chunk_start(v.catalog.files[p].chunks, n) <= u64::MAX,
        forall|i: int|
            0 <= i < n ==> v.catalog.blocks.contains_key(
                (#[trigger] v.catalog.files[p].chunks[i]).hash@,
            ) && !bad.contains(v.catalog.files[p].chunks[i].hash@),
        n < v.catalog.files[p].chunks.len() ==> !v.catalog.blocks.contains_key(
            v.catalog.files[p].chunks[n].hash@,
        ) || bad.contains(v.catalog.files[p].chunks[n].hash@),
    ensures
        ({
            let f = v.catalog.files[p];
            let r = crate::vault::repair::repaired(v, bad).catalog;
            if n == f.chunks.len() {
                r.files.contains_key(p) && r.files[p] == f
            } else if n == 0 {
                !r.files.contains_key(p)
            } else {
                &&& r.files.contains_key(p)
                &&& r.files[p].chunks == f.chunks.take(n)
                &&& r.files[p].mtime == f.mtime
                &&& r.files[p].size == crate::chunking::chunk_start(f.chunks, n)
                &&& !r.blocks.contains_key(f.chunks[n].hash@)
            }
        }),
{
    let blocks = crate::vault::repair::sound_blocks(v, bad);
    let chunks = v.catalog.files[p].chunks;
    assert forall|j: int| 0 <= j < n implies blocks.contains_key((#[trigger] chunks[j]).hash@) by {
        assert(v.catalog.blocks.contains_key(v.catalog.files[p].chunks[j].hash@));
    }
    lemma_sound_part(blocks, chunks, 0, n);
}

/// A file that was not there is not made by a repair.
pub proof fn repair_makes_no_files(v: VaultView, bad: Set<Seq<u8>>, p: Seq<char>)
    ensures
        crate::vault::repair::repaired(v, bad).catalog.files.contains_key(p)
            ==> v.catalog.files.contains_key(p),
{
}

/// The files of a snapshot fare as those of the tree do that hold the same; its name, its time
/// and its directories stay, and no snapshot goes.
pub proof fn snapshots_are_mended_like_the_tree(
    v: VaultView,
    w: VaultView,
    bad: Set<Seq<u8>>,
    s: int,
)
    requires
        0 <= s < v.catalog.snapshots.len(),
        w.catalog.blocks == v.catalog.blocks,
        w.catalog.files == v.catalog.snapshots[s].files,
    ensures
        ({
            let r = crate::vault::repair::repaired(v, bad).catalog.snapshots;
            &&& r.len() == v.catalog.snapshots.len()
            &&& r[s].files == crate::vault::repair::repaired(w, bad).catalog.files
            &&& r[s].name == v.catalog.snapshots[s].name
            &&& r[s].created == v.catalog.snapshots[s].created
            &&& r[s].dirs == v.catalog.snapshots[s].dirs
        }),
{
}

proof fn lemma_told(
    blocks: Map<Seq<u8>, crate::catalog::BlockRef>,
    files: Map<Seq<char>, crate::catalog::FileView>,
    order: Seq<Seq<char>>,
    n: int,
    p: Seq<char>,
    size: u64,
)
    requires
        0 <= n <= order.len(),
        order.no_duplicates(),
        forall|i: int| 0 <= i < order.len() ==> files.contains_key(#[trigger] order[i]),
    ensures
        ({
            let t = crate::vault::repair::tree_report(blocks, files, order, n);
            let m = crate::vault::repair::mended(blocks, files);
            let seen = exists|i: int| 0 <= i < n && #[trigger] order[i] == p;
            &&& t.removed.contains(p) <==> seen && !m.contains_key(p)
            &&& t.truncated.contains((p, size)) <==> seen && m.contains_key(p)
                && m[p].chunks.len() < files[p].chunks.len() && m[p].size == size
            &&& t.removed.no_duplicates()
            &&& t.truncated.no_duplicates()
            &&& forall|i: int| 0 <= i < t.removed.len() ==> order.take(n).contains(
                #[trigger] t.removed[i],
            )
            &&& forall|i: int| 0 <= i < t.truncated.len() ==> order.take(n).contains(
                (#[trigger] t.truncated[i]).0,
            )
            &&& t.snapshot_files_damaged == 0
        }),
    decreases n,
{
    let t = crate::vault::repair::tree_report(blocks, files, order, n);
    let m = crate::vault::repair::mended(blocks, files);
    if n > 0 {
        lemma_told(blocks, files, order, n - 1, p, size);
        let u = crate::vault::repair::tree_report(blocks, files, order, n - 1);
        let k = order[n - 1];
        let f = files[k];
        let c = crate::vault::repair::sound_prefix(blocks, f.chunks, 0);
        lemma_prefix_bounds(blocks, f.chunks, 0);
        assert(files.contains_key(k));
        assert(order.take(n).drop_last() =~= order.take(n - 1));
        assert forall|x: Seq<char>| order.take(n - 1).contains(x) implies order.take(n).contains(
            x,
        ) && x != k by {
            let i = order.take(n - 1).index_of(x);
            assert(order.take(n)[i] == x);
            assert(order[i] != order[n - 1]);
        }
        assert(order.take(n)[n - 1] == k);
        assert(order.take(n).contains(k));
        match crate::vault::repair::fate(blocks, f) {
            crate::vault::repair::Fate::Keep => {
                assert(t == u);
            },
            crate::vault::repair::Fate::Drop => {
                assert(t.removed == u.removed.push(k));
                lemma_pushed(u.removed, k, p);
                assert forall|i: int| 0 <= i < u.removed.len() implies #[trigger] u.removed[i]
                    != k by {}
            },
            crate::vault::repair::Fate::Cut => {
                let e = (k, crate::vault::repair::cut_off(f, c).size);
                assert(t.truncated == u.truncated.push(e));
                lemma_pushed(u.truncated, e, (p, size));
                assert forall|i: int| 0 <= i < u.truncated.len() implies #[trigger] u.truncated[i]
                    != e by {}
                assert(m[k].chunks =~= f.chunks.take(c));
            },
        }
        assert(m.contains_key(k) && !(crate::vault::repair::fate(
            blocks,
            f,
        ) is Cut) ==> m[k].chunks.len() == f.chunks.len());
    }
}

proof fn lemma_prefix_bounds(
    blocks: Map<Seq<u8>, crate::catalog::BlockRef>,
    chunks: Seq<ChunkRef>,
    i: int,
)
    requires
        0 <= i <= chunks.len(),
    ensures
        i <= crate::vault::repair::sound_prefix(blocks, chunks, i) <= chunks.len(),
    decreases chunks.len() - i,
{
    if i < chunks.len() && blocks.contains_key(chunks[i].hash@) {
        lemma_prefix_bounds(blocks, chunks, i + 1);
    }
}

proof fn lemma_pushed<A>(s: Seq<A>, x: A, y: A)
    ensures
        s.push(x).contains(y) <==> s.contains(y) || y == x,
{
    let t = s.push(x);
    assert(t[s.len() as int] == x);
    if s.contains(y) {
        assert(t[s.index_of(y)] == y);
    }
    if t.contains(y) {
        let i = t.index_of(y);
        if i < s.len() {
            assert(s[i] == y);
        }
    }
}

/// The report of a repair tells which files went, which were cut, and how long these are now:
/// each of them once, and no other.
pub proof fn repair_tells_what_it_did(v: VaultView, bad: Set<Seq<u8>>, p: Seq<char>, size: u64)
    requires
        v.catalog.files.dom().finite(),
        v.catalog.files.dom().len() <= usize::MAX,
    ensures
        ({
            let t = crate::vault::repair::repair_report(v, bad);
            let old_files = v.catalog.files;
            let files = crate::vault::repair::repaired(v, bad).catalog.files;
            &&& t.removed.contains(p) <==> old_files.contains_key(p) && !files.contains_key(p)
            &&& t.truncated.contains((p, size)) <==> old_files.contains_key(p)
                && files.contains_key(p) && files[p].chunks.len() < old_files[p].chunks.len()
                && files[p].size == size
            &&& t.removed.no_duplicates()
            &&& t.truncated.no_duplicates()
            &&& t.files_damaged == t.removed.len() + t.truncated.len()
        }),
{
    let files = v.catalog.files;
    let order = crate::vault::tree::path_order(files.dom());
    crate::sorted::lemma_in_order_exists::<String>(files.dom());
    assert forall|i: int| 0 <= i < order.len() implies files.contains_key(#[trigger] order[i]) by {
        assert(order.to_set().contains(order[i]));
    }
    lemma_told(
        crate::vault::repair::sound_blocks(v, bad),
        files,
        order,
        order.len() as int,
        p,
        size,
    );
    if files.contains_key(p) {
        assert(order.to_set().contains(p));
        assert(order.contains(p));
        assert(order[order.index_of(p)] == p);
    }
    crate::vault::repair::damage_adds_up(v, bad);
}

/// The damage in snapshots adds up: without snapshots there is none, and one more snapshot adds
/// what its files count as a tree.
pub proof fn snapshot_damage_adds_up(
    v: VaultView,
    w: VaultView,
    t: VaultView,
    s: crate::catalog::SnapshotView,
    bad: Set<Seq<u8>>,
)
    requires
        w.catalog.blocks == v.catalog.blocks,
        t.catalog.blocks == v.catalog.blocks,
        w.catalog.snapshots == v.catalog.snapshots.push(s),
        t.catalog.files == s.files,
        crate::vault::repair::repair_report(v, bad).snapshot_files_damaged
            + crate::vault::repair::repair_report(t, bad).files_damaged <= usize::MAX,
    ensures
        v.catalog.snapshots.len() == 0 ==> crate::vault::repair::repair_report(
            v,
            bad,
        ).snapshot_files_damaged == 0,
        crate::vault::repair::repair_report(w, bad).snapshot_files_damaged
            == crate::vault::repair::repair_report(v, bad).snapshot_files_damaged
            + crate::vault::repair::repair_report(t, bad).files_damaged,
{
    let blocks = crate::vault::repair::sound_blocks(v, bad);
    lemma_same_snapshots(
        blocks,
        v.catalog.snapshots,
        w.catalog.snapshots,
        v.catalog.snapshots.len() as int,
    );
}

proof fn lemma_same_snapshots(
    blocks: Map<Seq<u8>, crate::catalog::BlockRef>,
    a: Seq<crate::catalog::SnapshotView>,
    b: Seq<crate::catalog::SnapshotView>,
    n: int,
)
    requires
        0 <= n <= a.len(),
        n <= b.len(),
        forall|i: int| 0 <= i < n ==> a[i] == b[i],
    ensures
        crate::vault::repair::snapshots_damage(blocks, a, n)
            == crate::vault::repair::snapshots_damage(blocks, b, n),
    decreases n,
{
    if n > 0 {
        lemma_same_snapshots(blocks, a, b, n - 1);
    }
}

/// A vault can be repaired if the chunks of each file, of the tree and of the snapshots, are
/// together no longer than a size can tell.
pub proof fn repair_needs_lengths_that_fit(v: VaultView)
    ensures
        crate::vault::repair::lengths_fit(v) <==> (forall|p: Seq<char>| #[trigger]
            v.catalog.files.contains_key(p) ==> crate::chunking::chunk_start(
                v.catalog.files[p].chunks,
                v.catalog.files[p].chunks.len() as int,
            ) <= u64::MAX) && (forall|s: int, p: Seq<char>|
            #![trigger v.catalog.snapshots[s].files.contains_key(p)]
            0 <= s < v.catalog.snapshots.len() && v.catalog.snapshots[s].files.contains_key(p)
                ==> crate::chunking::chunk_start(
                v.catalog.snapshots[s].files[p].chunks,
                v.catalog.snapshots[s].files[p].chunks.len() as int,
            ) <= u64::MAX),
{
    if forall|s: int, p: Seq<char>|
        #![trigger v.catalog.snapshots[s].files.contains_key(p)]
        0 <= s < v.catalog.snapshots.len() && v.catalog.snapshots[s].files.contains_key(p)
            ==> crate::chunking::chunk_start(
            v.catalog.snapshots[s].files[p].chunks,
            v.catalog.snapshots[s].files[p].chunks.len() as int,
        ) <= u64::MAX {
        assert forall|i: int|
            0 <= i < v.catalog.snapshots.len() implies crate::vault::repair::tree_fits(
            (#[trigger] v.catalog.snapshots[i]).files,
        ) by {
            let files = v.catalog.snapshots[i].files;
            assert forall|p: Seq<char>| #[trigger]
                files.contains_key(p) implies crate::chunking::chunk_start(
                files[p].chunks,
                files[p].chunks.len() as int,
            ) <= u64::MAX by {
                assert(v.catalog.snapshots[i].files.contains_key(p));
            }
        }
    }
}

/// A report tells its counts, the paths that went, and those that were cut with their sizes, one
/// by one.
pub proof fn repair_report_tells_its_lists(r: crate::vault::repair::RepairReport, i: int)
    ensures
        r@.files_damaged == r.files_damaged,
        r@.snapshot_files_damaged == r.snapshot_files_damaged,
        r@.removed == crate::vault::moves::names(r.removed@),
        r@.truncated.len() == r.truncated@.len(),
        0 <= i < r.truncated@.len() ==> r@.truncated[i] == (r.truncated@[i].0@, r.truncated@[i].1),
{
}

proof fn lemma_told_in_order(
    blocks: Map<Seq<u8>, crate::catalog::BlockRef>,
    files: Map<Seq<char>, crate::catalog::FileView>,
    order: Seq<Seq<char>>,
    n: int,
)
    requires
        0 <= n <= order.len(),
        crate::sorted::ascending::<String>(order),
    ensures
        ({
            let t = crate::vault::repair::tree_report(blocks, files, order, n);
            &&& crate::sorted::ascending::<String>(t.removed)
            &&& crate::sorted::ascending::<String>(Seq::new(t.truncated.len(), |i: int|
                t.truncated[i].0))
            &&& forall|i: int|
                0 <= i < t.removed.len() ==> order.take(n).contains(#[trigger] t.removed[i])
            &&& forall|i: int|
                0 <= i < t.truncated.len() ==> order.take(n).contains((#[trigger] t.truncated[i]).0)
        }),
    decreases n,
{
    if n > 0 {
        lemma_told_in_order(blocks, files, order, n - 1);
        let u = crate::vault::repair::tree_report(blocks, files, order, n - 1);
        let t = crate::vault::repair::tree_report(blocks, files, order, n);
        let k = order[n - 1];
        assert forall|x: Seq<char>| order.take(n - 1).contains(x) implies order.take(n).contains(x)
            && <String as crate::order::SortKey>::key_before(x, k) by {
            let i = order.take(n - 1).index_of(x);
            assert(order.take(n)[i] == x);
            assert(order[i] == x);
            assert(<String as crate::order::SortKey>::key_before(order[i], order[n - 1]));
        }
        assert(order.take(n)[n - 1] == k);
        assert(order.take(n).contains(k));
        let tn = Seq::new(t.truncated.len(), |i: int| t.truncated[i].0);
        let un = Seq::new(u.truncated.len(), |i: int| u.truncated[i].0);
        match crate::vault::repair::fate(blocks, files[k]) {
            crate::vault::repair::Fate::Keep => {
                assert(t == u);
            },
            crate::vault::repair::Fate::Drop => {
                assert(t.removed == u.removed.push(k));
                assert(t.truncated == u.truncated);
                assert forall|i: int, j: int|
                    #![trigger t.removed[i], t.removed[j]]
                    0 <= i < j < t.removed.len() implies <
                    String as crate::order::SortKey>::key_before(t.removed[i], t.removed[j]) by {
                    assert(t.removed[i] == u.removed[i]);
                    if j < u.removed.len() {
                        assert(t.removed[j] == u.removed[j]);
                    }
                }
            },
            crate::vault::repair::Fate::Cut => {
                assert(t.removed == u.removed);
                assert(t.truncated.drop_last() =~= u.truncated);
                assert forall|i: int, j: int|
                    #![trigger tn[i], tn[j]]
                    0 <= i < j < tn.len() implies <String as crate::order::SortKey>::key_before(
                    tn[i],
                    tn[j],
                ) by {
                    assert(u.truncated[i] == t.truncated[i]);
                    assert(tn[i] == un[i]);
                    if j < un.len() {
                        assert(u.truncated[j] == t.truncated[j]);
                        assert(tn[j] == un[j]);
                        assert(<String as crate::order::SortKey>::key_before(un[i], un[j]));
                    }
                }
            },
        }
    }
}

/// The files that went, and those that were cut, are told in the order of their paths.
pub proof fn repair_tells_in_order(v: VaultView, bad: Set<Seq<u8>>, i: int, j: int)
    requires
        v.catalog.files.dom().finite(),
        0 <= i < j,
    ensures
        ({
            let t = crate::vault::repair::repair_report(v, bad);
            &&& j < t.removed.len() ==> <String as crate::order::SortKey>::key_before(
                t.removed[i],
                t.removed[j],
            )
            &&& j < t.truncated.len() ==> <String as crate::order::SortKey>::key_before(
                t.truncated[i].0,
                t.truncated[j].0,
            )
        }),
{
    let files = v.catalog.files;
    let order = crate::vault::tree::path_order(files.dom());
    crate::sorted::lemma_in_order_exists::<String>(files.dom());
    let blocks = crate::vault::repair::sound_blocks(v, bad);
    lemma_told_in_order(blocks, files, order, order.len() as int);
    let t = crate::vault::repair::tree_report(blocks, files, order, order.len() as int);
    let names = Seq::new(t.truncated.len(), |i: int| t.truncated[i].0);
    if j < t.truncated.len() {
        assert(<String as crate::order::SortKey>::key_before(names[i], names[j]));
    }
}

} // verus!
