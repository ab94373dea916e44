//! Repairing a vault: what cannot be read is cut off.

use crate::catalog::{BlockMap, ChunkRef, FileEntry, FileMap, Snapshot};
use crate::sorted::{Duplicate, SortedMap, SortedSet};
use crate::vault::{Vault, VaultView};
use vstd::prelude::*;

verus! {

/// What a repair did.
#[derive(Debug)]
pub struct RepairReport {
    /// How many files of the tree had a bad or missing block.
    pub files_damaged: usize,
    /// The files of which nothing could be kept.
    pub removed: Vec<String>,
    /// The files that were cut off, with their new sizes.
    pub truncated: Vec<(String, u64)>,
    /// How many files of snapshots had a bad or missing block.
    pub snapshot_files_damaged: usize,
}

/// A report as a value.
#[verifier::ext_equal]
pub struct RepairView {
    pub files_damaged: usize,
    pub removed: Seq<Seq<char>>,
    pub truncated: Seq<(Seq<char>, u64)>,
    pub snapshot_files_damaged: usize,
}

/// The views of the paths and sizes.
pub open spec fn sized_names(t: Seq<(String, u64)>) -> Seq<(Seq<char>, u64)> {
    Seq::new(t.len(), |i: int| (t[i].0@, t[i].1))
}

impl View for RepairReport {
    type V = RepairView;

    open spec fn view(&self) -> RepairView {
        RepairView {
            files_damaged: self.files_damaged,
            removed: crate::vault::moves::names(self.removed@),
            truncated: sized_names(self.truncated@),
            snapshot_files_damaged: self.snapshot_files_damaged,
        }
    }
}

/// A report on nothing.
pub open spec fn empty_repair() -> RepairView {
    RepairView {
        files_damaged: 0,
        removed: Seq::empty(),
        truncated: Seq::empty(),
        snapshot_files_damaged: 0,
    }
}

impl Default for RepairReport {
    fn default() -> (r: Self)
        ensures
            r@ == empty_repair(),
    {
        let r = RepairReport {
            files_damaged: 0,
            removed: Vec::new(),
            truncated: Vec::new(),
            snapshot_files_damaged: 0,
        };
        assert(r@ =~= empty_repair());
        r
    }
}

/// How many chunks in front have their block in the index, of the chunks from the `i`-th on.
pub open spec fn sound_prefix(
    blocks: Map<Seq<u8>, crate::catalog::BlockRef>,
    chunks: Seq<ChunkRef>,
    i: int,
) -> int
    decreases chunks.len() - i,
{
    if 0 <= i < chunks.len() && blocks.contains_key(chunks[i].hash@) {
        sound_prefix(blocks, chunks, i + 1)
    } else {
        i
    }
}

/// The blocks that stay.
pub open spec fn sound_blocks(v: VaultView, bad: Set<Seq<u8>>) -> Map<
    Seq<u8>,
    crate::catalog::BlockRef,
> {
    v.catalog.blocks.remove_keys(bad)
}

/// The file `f` cut off behind `n` chunks.
pub open spec fn cut_off(f: crate::catalog::FileView, n: int) -> crate::catalog::FileView {
    crate::catalog::FileView {
        size: crate::chunking::chunk_start(f.chunks, n) as u64,
        mtime: f.mtime,
        chunks: f.chunks.take(n),
    }
}

/// What repair does to a file.
pub enum Fate {
    Keep,
    Cut,
    Drop,
}

/// What repair does to the file `f` when only `blocks` are left.
pub open spec fn fate(
    blocks: Map<Seq<u8>, crate::catalog::BlockRef>,
    f: crate::catalog::FileView,
) -> Fate {
    let n = sound_prefix(blocks, f.chunks, 0);
    if n == f.chunks.len() {
        Fate::Keep
    } else if n == 0 {
        Fate::Drop
    } else {
        Fate::Cut
    }
}

/// The files of a tree that are left when only `blocks` are.
pub open spec fn mended(
    blocks: Map<Seq<u8>, crate::catalog::BlockRef>,
    files: Map<Seq<char>, crate::catalog::FileView>,
) -> Map<Seq<char>, crate::catalog::FileView> {
    Map::new(
        |p: Seq<char>| files.contains_key(p) && fate(blocks, files[p]) !is Drop,
        |p: Seq<char>|
            if fate(blocks, files[p]) is Keep {
                files[p]
            } else {
                cut_off(files[p], sound_prefix(blocks, files[p].chunks, 0))
            },
    )
}

/// The snapshots with their files mended.
pub open spec fn mended_snapshots(
    blocks: Map<Seq<u8>, crate::catalog::BlockRef>,
    snapshots: Seq<crate::catalog::SnapshotView>,
) -> Seq<crate::catalog::SnapshotView> {
    Seq::new(
        snapshots.len(),
        |i: int|
            crate::catalog::SnapshotView {
                files: mended(blocks, snapshots[i].files),
                ..snapshots[i]
            },
    )
}

/// The vault after a repair.
pub open spec fn repaired(v: VaultView, bad: Set<Seq<u8>>) -> VaultView {
    let blocks = sound_blocks(v, bad);
    VaultView {
        catalog: crate::catalog::CatalogView {
            blocks,
            files: mended(blocks, v.catalog.files),
            snapshots: mended_snapshots(blocks, v.catalog.snapshots),
            ..v.catalog
        },
        ..v
    }
}

/// The report on the first `n` files of a tree.
pub open spec fn tree_report(
    blocks: Map<Seq<u8>, crate::catalog::BlockRef>,
    files: Map<Seq<char>, crate::catalog::FileView>,
    order: Seq<Seq<char>>,
    n: int,
) -> RepairView
    decreases n,
{
    if n <= 0 {
        empty_repair()
    } else {
        let r = tree_report(blocks, files, order, n - 1);
        let p = order[n - 1];
        let f = files[p];
        match fate(blocks, f) {
            Fate::Keep => r,
            Fate::Drop => RepairView {
                files_damaged: (r.files_damaged + 1) as usize,
                removed: r.removed.push(p),
                ..r
            },
            Fate::Cut => RepairView {
                files_damaged: (r.files_damaged + 1) as usize,
                truncated: r.truncated.push(
                    (p, cut_off(f, sound_prefix(blocks, f.chunks, 0)).size),
                ),
                ..r
            },
        }
    }
}

/// The report on a tree.
pub open spec fn all_tree_report(
    blocks: Map<Seq<u8>, crate::catalog::BlockRef>,
    files: Map<Seq<char>, crate::catalog::FileView>,
) -> RepairView {
    let order = crate::vault::tree::path_order(files.dom());
    tree_report(blocks, files, order, order.len() as int)
}

/// How many files of the first `n` snapshots are damaged.
pub open spec fn snapshots_damage(
    blocks: Map<Seq<u8>, crate::catalog::BlockRef>,
    snapshots: Seq<crate::catalog::SnapshotView>,
    n: int,
) -> usize
    decreases n,
{
    if n <= 0 {
        0
    } else {
        crate::vault::integrity::counted(
            snapshots_damage(blocks, snapshots, n - 1),
            all_tree_report(blocks, snapshots[n - 1].files).files_damaged as nat,
        )
    }
}

/// The report on a repair.
pub open spec fn repair_report(v: VaultView, bad: Set<Seq<u8>>) -> RepairView {
    let blocks = sound_blocks(v, bad);
    RepairView {
        snapshot_files_damaged: snapshots_damage(
            blocks,
            v.catalog.snapshots,
            v.catalog.snapshots.len() as int,
        ),
        ..all_tree_report(blocks, v.catalog.files)
    }
}

/// The chunks of every file of the tree have a total length that a size can hold.
pub open spec fn tree_fits(files: Map<Seq<char>, crate::catalog::FileView>) -> bool {
    forall|p: Seq<char>| #[trigger]
        files.contains_key(p) ==> crate::chunking::chunk_start(
            files[p].chunks,
            files[p].chunks.len() as int,
        ) <= u64::MAX
}

/// The chunks of every file have a total length that a size can hold.
pub open spec fn lengths_fit(v: VaultView) -> bool {
    tree_fits(v.catalog.files) && forall|i: int|
        0 <= i < v.catalog.snapshots.len() ==> tree_fits(
            (#[trigger] v.catalog.snapshots[i]).files,
        )
}

proof fn lemma_sound_prefix(
    blocks: Map<Seq<u8>, crate::catalog::BlockRef>,
    chunks: Seq<ChunkRef>,
    i: int,
)
    requires
        0 <= i <= chunks.len(),
    ensures
        i <= sound_prefix(blocks, chunks, i) <= chunks.len(),
        forall|j: int|
            i <= j < sound_prefix(blocks, chunks, i) ==> blocks.contains_key(
                (#[trigger] chunks[j]).hash@,
            ),
    decreases chunks.len() - i,
{
    if i < chunks.len() && blocks.contains_key(chunks[i].hash@) {
        lemma_sound_prefix(blocks, chunks, i + 1);
    }
}

/// Whether the chunks of every file of the tree have a total length that a size can hold.
fn tree_fits_sizes(files: &FileMap) -> (r: bool)
    requires
        files.wf(),
    ensures
        r == tree_fits(files@),
{
    proof {
        files.lemma_rows();
    }
    let ghost tree = files@;
    let ghost order = files.key_seq();
    let mut i: usize = 0;
    while i < files.len()
        invariant
            files.wf(),
            tree == files@,
            order == files.key_seq(),
            i <= order.len(),
            forall|x: int|
                0 <= x < i ==> crate::chunking::chunk_start(
                    tree[#[trigger] order[x]].chunks,
                    tree[order[x]].chunks.len() as int,
                ) <= u64::MAX,
        decreases order.len() - i,
    {
        proof {
            files.lemma_rows();
        }
        let e = files.value_at(i);
        let ghost chunks = e@.chunks;
        assert(tree[order[i as int]].chunks == chunks);
        let mut total: u64 = 0;
        let mut j: usize = 0;
        while j < e.chunks.len()
            invariant
                chunks == e.chunks@,
                j <= chunks.len(),
                total == crate::chunking::chunk_start(chunks, j as int),
                tree.contains_key(order[i as int]),
                tree == files@,
                tree[order[i as int]].chunks == chunks,
            decreases chunks.len() - j,
        {
            let len: u32 = e.chunks[j].len;
            match total.checked_add(len as u64) {
                None => {
                    proof {
                        crate::chunking::lemma_start_monotone(
                            chunks,
                            j + 1,
                            chunks.len() as int,
                        );
                    }
                    return false;
                },
                Some(t) => {
                    total = t;
                },
            }
            j = j + 1;
        }
        i = i + 1;
    }
    proof {
        files.lemma_rows();
        assert forall|p: Seq<char>| #[trigger]
            tree.contains_key(p) implies crate::chunking::chunk_start(
            tree[p].chunks,
            tree[p].chunks.len() as int,
        ) <= u64::MAX by {
            let x = order.index_of(p);
            assert(order[x] == p);
        }
    }
    true
}

/// How many chunks of a file can be kept, and how long they are together.
fn sound_part(index: &BlockMap, e: &FileEntry) -> (r: (usize, u64))
    requires
        index.wf(),
        crate::chunking::chunk_start(e@.chunks, e@.chunks.len() as int) <= u64::MAX,
    ensures
        r.0 <= e@.chunks.len(),
        r.0 == sound_prefix(index@, e@.chunks, 0),
        r.1 == crate::chunking::chunk_start(e@.chunks, r.0 as int),
{
    let ghost chunks = e@.chunks;
    let mut i: usize = 0;
    let mut total: u64 = 0;
    while i < e.chunks.len()
        invariant
            index.wf(),
            chunks == e.chunks@,
            i <= chunks.len(),
            crate::chunking::chunk_start(chunks, chunks.len() as int) <= u64::MAX,
            total == crate::chunking::chunk_start(chunks, i as int),
            sound_prefix(index@, chunks, i as int) == sound_prefix(index@, chunks, 0),
        decreases chunks.len() - i,
    {
        let c = e.chunks[i];
        if !index.contains_key(&c.hash) {
            return (i, total);
        }
        proof {
            crate::chunking::lemma_start_monotone(chunks, i + 1, chunks.len() as int);
        }
        total = total + c.len as u64;
        i = i + 1;
    }
    (i, total)
}

/// Cuts every file of a tree off at its first chunk that is not in the index; a file of which
/// nothing is left is taken out.
fn mend_tree(index: &BlockMap, files: &FileMap) -> (r: (FileMap, RepairReport))
    requires
        index.wf(),
        files.wf(),
        tree_fits(files@),
    ensures
        r.0.wf(),
        r.0@ == mended(index@, files@),
        r.1@ == all_tree_report(index@, files@),
{
    let ghost blocks = index@;
    let ghost tree = files@;
    let ghost order = files.key_seq();
    proof {
        files.lemma_rows();
    }
    let mut report = RepairReport::default();
    let mut kept: FileMap = SortedMap::new();
    let mut i: usize = 0;
    while i < files.len()
        invariant
            index.wf(),
            files.wf(),
            blocks == index@,
            tree == files@,
            order == files.key_seq(),
            tree_fits(tree),
            i <= order.len(),
            kept.wf(),
            forall|p: Seq<char>| #[trigger]
                kept@.contains_key(p) <==> (exists|x: int|
                    0 <= x < i && #[trigger] order[x] == p && fate(blocks, tree[p]) !is Drop),
            forall|p: Seq<char>| #[trigger]
                kept@.contains_key(p) ==> kept@[p] == mended(blocks, tree)[p],
            report@ == tree_report(blocks, tree, order, i as int),
            report@.files_damaged <= i,
        decreases order.len() - i,
    {
        proof {
            files.lemma_rows();
        }
        let path = files.key_at(i);
        let e = files.value_at(i);
        let ghost f = e@;
        let ghost p = path@;
        let ghost kept0 = kept@;
        let ghost report0 = report@;
        proof {
            assert(tree.contains_key(order[i as int]));
            assert(tree[p] == f);
        }
        let (n, total) = sound_part(index, e);
        if n == e.chunks.len() {
            kept.insert(path.clone(), e.duplicate());
        } else if n == 0 {
            report.files_damaged = report.files_damaged + 1;
            report.removed.push(path.clone());
            proof {
                assert(report@.removed =~= report0.removed.push(p));
            }
        } else {
            let mut chunks: Vec<ChunkRef> = Vec::new();
            let mut j: usize = 0;
            while j < n
                invariant
                    j <= n <= e.chunks@.len(),
                    chunks@ == e.chunks@.take(j as int),
                decreases n - j,
            {
                chunks.push(e.chunks[j]);
                assert(e.chunks@.take(j + 1) =~= e.chunks@.take(j as int).push(
                    e.chunks@[j as int],
                ));
                j = j + 1;
            }
            kept.insert(path.clone(), FileEntry { size: total, mtime: e.mtime, chunks });
            report.files_damaged = report.files_damaged + 1;
            report.truncated.push((path.clone(), total));
            proof {
                assert(report@.truncated =~= report0.truncated.push((p, total)));
            }
        }
        proof {
            assert(report@ =~= tree_report(blocks, tree, order, i + 1));
            assert forall|q: Seq<char>| #[trigger] kept@.contains_key(q) <==> (exists|x: int|
                0 <= x < i + 1 && #[trigger] order[x] == q && fate(blocks, tree[q]) !is Drop) by {
                if kept0.contains_key(q) {
                    let x = choose|x: int|
                        0 <= x < i && #[trigger] order[x] == q && fate(blocks, tree[q]) !is Drop;
                    assert(order[x] == q);
                }
                if q == p {
                    assert(order[i as int] == q);
                }
            }
        }
        i = i + 1;
    }
    proof {
        files.lemma_rows();
        assert forall|q: Seq<char>| #[trigger] kept@.contains_key(q) <==> mended(
            blocks,
            tree,
        ).contains_key(q) by {
            if tree.contains_key(q) {
                let x = order.index_of(q);
                assert(order[x] == q);
            }
        }
        assert(kept@ =~= mended(blocks, tree));
    }
    (kept, report)
}

impl Vault {
    /// Whether the chunks of every file have a total length that a size can hold.
    pub fn lengths_fit(&self) -> (r: bool)
        requires
            self.wf(),
        ensures
            r == lengths_fit(self@),
    {
        let ghost v = self@;
        if !tree_fits_sizes(&self.catalog.files) {
            return false;
        }
        let mut i: usize = 0;
        while i < self.catalog.snapshots.len()
            invariant
                self.wf(),
                v == self@,
                tree_fits(v.catalog.files),
                i <= self.catalog.snapshots@.len(),
                forall|j: int|
                    0 <= j < i ==> tree_fits((#[trigger] v.catalog.snapshots[j]).files),
            decreases self.catalog.snapshots@.len() - i,
        {
            assert(self.catalog.snapshots@[i as int].wf());
            assert(v.catalog.snapshots[i as int] == self.catalog.snapshots@[i as int]@);
            if !tree_fits_sizes(&self.catalog.snapshots[i].files) {
                return false;
            }
            i = i + 1;
        }
        true
    }

    /// Takes the bad blocks out of the index and cuts every file, of the tree and of the
    /// snapshots, off at its first chunk that is bad or missing. A file of which nothing is left
    /// is taken out.
    pub fn repair(&mut self, bad: &SortedSet<crate::pipeline::Hash>) -> (r: RepairReport)
        requires
            old(self).wf(),
            bad.wf(),
            lengths_fit(old(self)@),
        ensures
            final(self).wf(),
            final(self)@ == repaired(old(self)@, bad@),
            r@ == repair_report(old(self)@, bad@),
    {
        let ghost v = self@;
        self.drop_blocks(bad);
        let ghost blocks = self@.catalog.blocks;
        let ghost shots = v.catalog.snapshots;
        let (kept, mut report) = mend_tree(&self.catalog.blocks, &self.catalog.files);
        let ghost tree = report@;
        let mut mended_shots: Vec<Snapshot> = Vec::new();
        let mut damaged: usize = 0;
        let mut i: usize = 0;
        while i < self.catalog.snapshots.len()
            invariant
                self.wf(),
                self@ == crate::vault::with_blocks(v, blocks, v.next_append),
                blocks == self@.catalog.blocks,
                shots == v.catalog.snapshots,
                lengths_fit(v),
                i <= shots.len(),
                shots.len() == self.catalog.snapshots@.len(),
                mended_shots@.len() == i,
                forall|j: int| 0 <= j < i ==> (#[trigger] mended_shots@[j]).wf(),
                forall|j: int|
                    0 <= j < i ==> (#[trigger] mended_shots@[j])@ == mended_snapshots(
                        blocks,
                        shots,
                    )[j],
                damaged == snapshots_damage(blocks, shots, i as int),
            decreases shots.len() - i,
        {
            let s = &self.catalog.snapshots[i];
            proof {
                assert(self.catalog.snapshots@[i as int].wf());
                assert(self@.catalog.snapshots[i as int] == s@);
                assert(shots[i as int] == s@);
            }
            let (files, found) = mend_tree(&self.catalog.blocks, &s.files);
            damaged = damaged.saturating_add(found.files_damaged);
            let m = Snapshot {
                name: s.name.clone(),
                created: s.created,
                files,
                dirs: s.dirs.copy(),
            };
            assert(m@ =~= mended_snapshots(blocks, shots)[i as int]);
            mended_shots.push(m);
            i = i + 1;
        }
        self.catalog.files = kept;
        self.catalog.snapshots = mended_shots;
        report.snapshot_files_damaged = damaged;
        proof {
            assert(self@.catalog.snapshots =~= mended_snapshots(blocks, shots));
            assert(self@ =~= repaired(v, bad@));
            assert(report@ =~= repair_report(v, bad@));
        }
        report
    }

    /// Takes the blocks out of the index.
    fn drop_blocks(&mut self, bad: &SortedSet<crate::pipeline::Hash>)
        requires
            old(self).wf(),
            bad.wf(),
        ensures
            final(self).wf(),
            final(self)@ == crate::vault::with_blocks(
                old(self)@,
                sound_blocks(old(self)@, bad@),
                old(self)@.next_append,
            ),
            final(self).catalog.files == old(self).catalog.files,
    {
        let ghost v = self@;
        let ghost files = self.catalog.files;
        let ghost keys = bad.key_seq();
        let mut i: usize = 0;
        while i < bad.len()
            invariant
                self.wf(),
                bad.wf(),
                keys == bad.key_seq(),
                i <= keys.len(),
                self.catalog.files == files,
                self@ == crate::vault::with_blocks(v, self@.catalog.blocks, v.next_append),
                forall|h: Seq<u8>| #[trigger]
                    self@.catalog.blocks.contains_key(h) <==> v.catalog.blocks.contains_key(h)
                        && !(exists|x: int| 0 <= x < i && #[trigger] keys[x] == h),
                forall|h: Seq<u8>| #[trigger]
                    self@.catalog.blocks.contains_key(h) ==> self@.catalog.blocks[h]
                        == v.catalog.blocks[h],
            decreases keys.len() - i,
        {
            let ghost before = self@.catalog.blocks;
            let _ = self.catalog.blocks.remove(bad.key_at(i));
            proof {
                assert forall|h: Seq<u8>| #[trigger]
                    self@.catalog.blocks.contains_key(h) <==> v.catalog.blocks.contains_key(h) && !(
                exists|x: int| 0 <= x < i + 1 && #[trigger] keys[x] == h) by {
                    if before.contains_key(h) && h != keys[i as int] {
                        if exists|x: int| 0 <= x < i + 1 && #[trigger] keys[x] == h {
                            let x = choose|x: int| 0 <= x < i + 1 && #[trigger] keys[x] == h;
                            assert(x < i);
                        }
                    }
                    assert(keys[i as int] == keys[i as int]);
                }
            }
            i = i + 1;
        }
        proof {
            bad.lemma_rows();
            assert forall|h: Seq<u8>| (exists|x: int| 0 <= x < keys.len() && #[trigger] keys[x] == h)
                <==> bad@.contains(h) by {
                if bad@.contains(h) {
                    let x = keys.index_of(h);
                    assert(keys[x] == h);
                }
                if exists|x: int| 0 <= x < keys.len() && #[trigger] keys[x] == h {
                    let x = choose|x: int| 0 <= x < keys.len() && #[trigger] keys[x] == h;
                    assert(keys.contains(h));
                }
            }
            assert(self@.catalog.blocks =~= sound_blocks(v, bad@));
        }
    }
}

/// What is left of a file has all its blocks.
pub proof fn lemma_mended_file(
    blocks: Map<Seq<u8>, crate::catalog::BlockRef>,
    files: Map<Seq<char>, crate::catalog::FileView>,
    p: Seq<char>,
    i: int,
)
    requires
        mended(blocks, files).contains_key(p),
        0 <= i < mended(blocks, files)[p].chunks.len(),
    ensures
        blocks.contains_key(mended(blocks, files)[p].chunks[i].hash@),
{
    let f = files[p];
    lemma_sound_prefix(blocks, f.chunks, 0);
    assert(blocks.contains_key(f.chunks[i].hash@));
}

/// After a repair no file, of the tree or of a snapshot, refers to a missing or bad block.
pub proof fn repair_leaves_no_damage(v: VaultView, bad: Set<Seq<u8>>, h: Seq<u8>)
    requires
        crate::vault::rewrite::reachable(repaired(v, bad)).contains(h),
    ensures
        repaired(v, bad).catalog.blocks.contains_key(h),
        !bad.contains(h),
{
    let r = repaired(v, bad);
    let blocks = sound_blocks(v, bad);
    if crate::vault::rewrite::mentions(r.catalog.files, h) {
        let files = r.catalog.files;
        let (p, i) = choose|p: Seq<char>, i: int|
            #![trigger files[p].chunks[i]]
            files.contains_key(p) && 0 <= i < files[p].chunks.len() && files[p].chunks[i].hash@
                == h;
        lemma_mended_file(blocks, v.catalog.files, p, i);
    } else {
        let s = choose|s: int|
            0 <= s < r.catalog.snapshots.len() && crate::vault::rewrite::mentions(
                (#[trigger] r.catalog.snapshots[s]).files,
                h,
            );
        let files = r.catalog.snapshots[s].files;
        let (p, i) = choose|p: Seq<char>, i: int|
            #![trigger files[p].chunks[i]]
            files.contains_key(p) && 0 <= i < files[p].chunks.len() && files[p].chunks[i].hash@
                == h;
        lemma_mended_file(blocks, v.catalog.snapshots[s].files, p, i);
    }
}

proof fn lemma_no_notes(
    blocks: Map<Seq<u8>, crate::catalog::BlockRef>,
    path: Seq<char>,
    chunks: Seq<ChunkRef>,
    n: int,
)
    requires
        0 <= n <= chunks.len(),
        forall|i: int| 0 <= i < chunks.len() ==> blocks.contains_key((#[trigger] chunks[i]).hash@),
    ensures
        crate::vault::integrity::file_notes(blocks, path, chunks, n).len() == 0,
    decreases n,
{
    if n > 0 {
        lemma_no_notes(blocks, path, chunks, n - 1);
        assert(blocks.contains_key(chunks[n - 1].hash@));
    }
}

proof fn lemma_tree_misses_nothing(
    blocks: Map<Seq<u8>, crate::catalog::BlockRef>,
    files: Map<Seq<char>, crate::catalog::FileView>,
    order: Seq<Seq<char>>,
    n: int,
)
    requires
        0 <= n <= order.len(),
        forall|i: int|
            0 <= i < order.len() ==> mended(blocks, files).contains_key(#[trigger] order[i]),
    ensures
        crate::vault::integrity::tree_notes(blocks, mended(blocks, files), order, n).len() == 0,
    decreases n,
{
    if n > 0 {
        lemma_tree_misses_nothing(blocks, files, order, n - 1);
        let p = order[n - 1];
        assert(mended(blocks, files).contains_key(p));
        let chunks = mended(blocks, files)[p].chunks;
        assert forall|i: int| 0 <= i < chunks.len() implies blocks.contains_key(
            (#[trigger] chunks[i]).hash@,
        ) by {
            lemma_mended_file(blocks, files, p, i);
        }
        lemma_no_notes(blocks, p, chunks, chunks.len() as int);
    }
}

/// The paths of a mended tree, in order.
proof fn lemma_mended_order(
    blocks: Map<Seq<u8>, crate::catalog::BlockRef>,
    files: Map<Seq<char>, crate::catalog::FileView>,
)
    requires
        files.dom().finite(),
    ensures
        ({
            let m = mended(blocks, files);
            forall|i: int|
                0 <= i < crate::vault::tree::path_order(m.dom()).len() ==> m.contains_key(
                    #[trigger] crate::vault::tree::path_order(m.dom())[i],
                )
        }),
{
    let m = mended(blocks, files);
    let order = crate::vault::tree::path_order(m.dom());
    assert(m.dom().subset_of(files.dom()));
    vstd::set_lib::lemma_len_subset(m.dom(), files.dom());
    crate::sorted::lemma_in_order_exists::<String>(m.dom());
    assert forall|i: int| 0 <= i < order.len() implies m.contains_key(#[trigger] order[i]) by {
        assert(order.to_set().contains(order[i]));
    }
}

proof fn lemma_snapshots_miss_nothing(v: VaultView, bad: Set<Seq<u8>>, n: int)
    requires
        trees_finite(v),
        0 <= n <= v.catalog.snapshots.len(),
    ensures
        crate::vault::integrity::snapshot_notes(repaired(v, bad), n).len() == 0,
    decreases n,
{
    if n > 0 {
        lemma_snapshots_miss_nothing(v, bad, n - 1);
        let files = v.catalog.snapshots[n - 1].files;
        let blocks = sound_blocks(v, bad);
        let order = crate::vault::tree::path_order(mended(blocks, files).dom());
        lemma_mended_order(blocks, files);
        lemma_tree_misses_nothing(blocks, files, order, order.len() as int);
    }
}

/// The trees of the vault have finitely many files.
pub open spec fn trees_finite(v: VaultView) -> bool {
    v.catalog.files.dom().finite() && forall|i: int|
        0 <= i < v.catalog.snapshots.len() ==> (
        #[trigger] v.catalog.snapshots[i]).files.dom().finite()
}

/// A repaired vault has no missing blocks to report.
pub proof fn repaired_vault_misses_nothing(v: VaultView, bad: Set<Seq<u8>>)
    requires
        trees_finite(v),
    ensures
        crate::vault::integrity::missing_notes(repaired(v, bad)).len() == 0,
{
    let blocks = sound_blocks(v, bad);
    let order = crate::vault::tree::path_order(mended(blocks, v.catalog.files).dom());
    lemma_mended_order(blocks, v.catalog.files);
    lemma_tree_misses_nothing(blocks, v.catalog.files, order, order.len() as int);
    lemma_snapshots_miss_nothing(v, bad, v.catalog.snapshots.len() as int);
}

/// The blocks that a check of the file finds bad.
pub open spec fn bad_in(v: VaultView, file: Seq<u8>) -> Set<Seq<u8>> {
    crate::vault::integrity::invalid_blocks(v, crate::vault::integrity::reads_of(v, file))
}

/// A block is among the bad ones exactly if it is in the index and its verdict is not good.
pub proof fn lemma_bad_in(v: VaultView, file: Seq<u8>, h: Seq<u8>)
    requires
        v.catalog.blocks.dom().finite(),
    ensures
        bad_in(v, file).contains(h) <==> v.catalog.blocks.contains_key(h)
            && crate::vault::integrity::verdict_of(
            v.key(),
            h,
            crate::vault::integrity::read_at(file, v.catalog.blocks[h]),
        ) != crate::vault::integrity::Verdict::Good,
{
    let order = crate::vault::integrity::block_order(v);
    crate::vault::integrity::lemma_block_order(v);
    if v.catalog.blocks.contains_key(h) {
        let i = order.index_of(h);
        assert(order[i] == h);
    }
}

/// A vault that was repaired after a check of its file verifies clean, and there is nothing left
/// for a second repair: the check finds no bad block, and to repair again changes nothing and
/// reports nothing.
pub proof fn repaired_vault_verifies_clean(v: VaultView, file: Seq<u8>)
    requires
        trees_finite(v),
        v.catalog.blocks.dom().finite(),
        v.catalog.blocks.dom().len() <= usize::MAX,
    ensures
        ({
            let r = repaired(v, bad_in(v, file));
            let report = crate::vault::integrity::full_report(
                r,
                crate::vault::integrity::verdicts_of(
                    r,
                    crate::vault::integrity::reads_of(r, file),
                ),
            );
            &&& report.blocks_bad == 0
            &&& report.missing_blocks == 0
            &&& bad_in(r, file) == Set::<Seq<u8>>::empty()
            &&& repaired(r, bad_in(r, file)) == r
            &&& repair_report(r, bad_in(r, file)) == empty_repair()
        }),
{
    let bad = bad_in(v, file);
    let r = repaired(v, bad);
    assert(r.catalog.blocks.dom().subset_of(v.catalog.blocks.dom()));
    vstd::set_lib::lemma_len_subset(r.catalog.blocks.dom(), v.catalog.blocks.dom());
    assert forall|h: Seq<u8>| #[trigger]
        r.catalog.blocks.contains_key(h) implies crate::vault::integrity::verdict_of(
        r.key(),
        h,
        crate::vault::integrity::read_at(file, r.catalog.blocks[h]),
    ) == crate::vault::integrity::Verdict::Good by {
        lemma_bad_in(v, file, h);
    }
    crate::vault::integrity::lemma_good_blocks_are_counted(r, file);
    crate::vault::integrity::lemma_block_order(r);
    repaired_vault_misses_nothing(v, bad);
    crate::vault::integrity::report_adds_up(
        r,
        crate::vault::integrity::verdicts_of(r, crate::vault::integrity::reads_of(r, file)),
    );
    assert(bad_in(r, file) =~= Set::<Seq<u8>>::empty()) by {
        assert forall|h: Seq<u8>| !bad_in(r, file).contains(h) by {
            lemma_bad_in(r, file, h);
        }
    }
    nothing_bad_nothing_repaired(v, bad);
}

/// To repair a repaired vault in which no block is bad changes nothing and reports nothing.
pub proof fn nothing_bad_nothing_repaired(v: VaultView, bad: Set<Seq<u8>>)
    requires
        trees_finite(v),
    ensures
        repaired(repaired(v, bad), Set::empty()) == repaired(v, bad),
        repair_report(repaired(v, bad), Set::empty()) == empty_repair(),
{
    let r = repaired(v, bad);
    let blocks = sound_blocks(v, bad);
    assert(sound_blocks(r, Set::empty()) =~= blocks);
    lemma_mending_twice(blocks, v.catalog.files);
    assert forall|i: int| 0 <= i < v.catalog.snapshots.len() implies mended(
        blocks,
        mended(blocks, (#[trigger] v.catalog.snapshots[i]).files),
    ) == mended(blocks, v.catalog.snapshots[i].files) by {
        lemma_mending_twice(blocks, v.catalog.snapshots[i].files);
    }
    assert(mended_snapshots(blocks, r.catalog.snapshots) =~= r.catalog.snapshots) by {
        assert forall|i: int| 0 <= i < r.catalog.snapshots.len() implies mended_snapshots(
            blocks,
            r.catalog.snapshots,
        )[i] == r.catalog.snapshots[i] by {
            assert(v.catalog.snapshots[i].files == v.catalog.snapshots[i].files);
        }
    }
    assert(repaired(r, Set::empty()) =~= r);
    lemma_no_damage_in_snapshots(v, bad, v.catalog.snapshots.len() as int);
}

proof fn lemma_no_damage_in_snapshots(v: VaultView, bad: Set<Seq<u8>>, n: int)
    requires
        trees_finite(v),
        0 <= n <= v.catalog.snapshots.len(),
    ensures
        snapshots_damage(sound_blocks(v, bad), repaired(v, bad).catalog.snapshots, n) == 0,
    decreases n,
{
    if n > 0 {
        lemma_no_damage_in_snapshots(v, bad, n - 1);
        lemma_mending_twice(sound_blocks(v, bad), v.catalog.snapshots[n - 1].files);
    }
}

/// A file with all its blocks is kept.
proof fn lemma_whole_file(
    blocks: Map<Seq<u8>, crate::catalog::BlockRef>,
    chunks: Seq<ChunkRef>,
    i: int,
)
    requires
        0 <= i <= chunks.len(),
        forall|j: int| 0 <= j < chunks.len() ==> blocks.contains_key((#[trigger] chunks[j]).hash@),
    ensures
        sound_prefix(blocks, chunks, i) == chunks.len(),
    decreases chunks.len() - i,
{
    if i < chunks.len() {
        assert(blocks.contains_key(chunks[i].hash@));
        lemma_whole_file(blocks, chunks, i + 1);
    }
}

proof fn lemma_mending_twice(
    blocks: Map<Seq<u8>, crate::catalog::BlockRef>,
    files: Map<Seq<char>, crate::catalog::FileView>,
)
    requires
        files.dom().finite(),
    ensures
        mended(blocks, mended(blocks, files)) == mended(blocks, files),
        all_tree_report(blocks, mended(blocks, files)) == empty_repair(),
{
    let m = mended(blocks, files);
    assert forall|p: Seq<char>| #[trigger] m.contains_key(p) implies fate(blocks, m[p]) is Keep by {
        let chunks = m[p].chunks;
        assert forall|j: int| 0 <= j < chunks.len() implies blocks.contains_key(
            (#[trigger] chunks[j]).hash@,
        ) by {
            lemma_mended_file(blocks, files, p, j);
        }
        lemma_whole_file(blocks, chunks, 0);
    }
    assert(mended(blocks, m) =~= m);
    lemma_mended_order(blocks, files);
    let order = crate::vault::tree::path_order(m.dom());
    lemma_nothing_reported(blocks, m, order, order.len() as int);
}

proof fn lemma_nothing_reported(
    blocks: Map<Seq<u8>, crate::catalog::BlockRef>,
    files: Map<Seq<char>, crate::catalog::FileView>,
    order: Seq<Seq<char>>,
    n: int,
)
    requires
        0 <= n <= order.len(),
        forall|i: int| 0 <= i < order.len() ==> files.contains_key(#[trigger] order[i]),
        forall|p: Seq<char>| #[trigger] files.contains_key(p) ==> fate(blocks, files[p]) is Keep,
    ensures
        tree_report(blocks, files, order, n) == empty_repair(),
    decreases n,
{
    if n > 0 {
        lemma_nothing_reported(blocks, files, order, n - 1);
        assert(files.contains_key(order[n - 1]));
    }
}

/// Every damaged file is either taken out or cut off.
pub proof fn damage_adds_up(v: VaultView, bad: Set<Seq<u8>>)
    requires
        v.catalog.files.dom().finite(),
        v.catalog.files.dom().len() <= usize::MAX,
    ensures
        ({
            let r = repair_report(v, bad);
            r.files_damaged == r.removed.len() + r.truncated.len()
        }),
{
    let order = crate::vault::tree::path_order(v.catalog.files.dom());
    crate::sorted::lemma_in_order_exists::<String>(v.catalog.files.dom());
    order.unique_seq_to_set();
    lemma_damage_adds_up(
        sound_blocks(v, bad),
        v.catalog.files,
        order,
        order.len() as int,
    );
}

proof fn lemma_damage_adds_up(
    blocks: Map<Seq<u8>, crate::catalog::BlockRef>,
    files: Map<Seq<char>, crate::catalog::FileView>,
    order: Seq<Seq<char>>,
    n: int,
)
    requires
        0 <= n <= order.len() <= usize::MAX,
    ensures
        ({
            let r = tree_report(blocks, files, order, n);
            &&& r.files_damaged == r.removed.len() + r.truncated.len()
            &&& r.files_damaged <= n
        }),
    decreases n,
{
    if n > 0 {
        lemma_damage_adds_up(blocks, files, order, n - 1);
    }
}

/// What repair keeps of a file is the beginning of its content.
pub proof fn repair_keeps_a_prefix(
    blocks: Map<Seq<u8>, crate::catalog::BlockRef>,
    files: Map<Seq<char>, crate::catalog::FileView>,
    p: Seq<char>,
    bytes: Seq<u8>,
)
    requires
        mended(blocks, files).contains_key(p),
        files[p].size == bytes.len(),
        crate::chunking::describes(files[p].chunks, bytes),
    ensures
        ({
            let f = mended(blocks, files)[p];
            &&& f.size <= bytes.len()
            &&& crate::chunking::describes(f.chunks, bytes.take(f.size as int))
        }),
{
    reveal(crate::chunking::describes);
    let old_file = files[p];
    let f = mended(blocks, files)[p];
    let n = sound_prefix(blocks, old_file.chunks, 0);
    lemma_sound_prefix(blocks, old_file.chunks, 0);
    if fate(blocks, old_file) is Keep {
        assert(bytes.take(f.size as int) =~= bytes);
    } else {
        crate::chunking::lemma_start_monotone(old_file.chunks, n, old_file.chunks.len() as int);
        let short = old_file.chunks.take(n);
        assert(old_file.chunks.take(short.len() as int) =~= short);
        crate::chunking::lemma_start_take(short, old_file.chunks, n);
        assert forall|i: int| 0 <= i < short.len() implies (#[trigger] short[i]).hash@
            == crate::pipeline::blake3_digest(
            bytes.take(f.size as int).subrange(
                crate::chunking::chunk_start(short, i) as int,
                crate::chunking::chunk_start(short, i + 1) as int,
            ),
        ) by {
            crate::chunking::lemma_start_take(short, old_file.chunks, i);
            crate::chunking::lemma_start_take(short, old_file.chunks, i + 1);
            crate::chunking::lemma_start_monotone(short, i, i + 1);
            crate::chunking::lemma_start_monotone(short, i + 1, n);
            assert(short[i] == old_file.chunks[i]);
            assert(bytes.take(f.size as int).subrange(
                crate::chunking::chunk_start(short, i) as int,
                crate::chunking::chunk_start(short, i + 1) as int,
            ) =~= bytes.subrange(
                crate::chunking::chunk_start(short, i) as int,
                crate::chunking::chunk_start(short, i + 1) as int,
            ));
        }
    }
}

} // verus!
