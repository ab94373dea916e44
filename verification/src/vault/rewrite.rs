//! Rewriting a vault into a new file: to win back space, or under another password.

use crate::catalog::{copy_snapshots, BlockMap, BlockRef, Catalog, FileMap};

use crate::header::HEADER_SIZE;
use crate::sorted::{SortedMap, SortedSet};
use crate::vault::{Vault, VaultView};
use vstd::prelude::*;

verus! {

/// What a compaction won.
#[derive(Clone, Copy, Debug, PartialEq, Eq, Structural)]
pub struct CompactReport {
    pub blocks_before: usize,
    pub blocks_after: usize,
    pub bytes_before: u64,
    pub bytes_after: u64,
}

impl CompactReport {
    /// How many bytes were won back.
    pub fn reclaimed_bytes(&self) -> (r: u64)
        ensures
            r == (if self.bytes_before >= self.bytes_after {
                self.bytes_before - self.bytes_after
            } else {
                0
            }),
    {
        self.bytes_before.saturating_sub(self.bytes_after)
    }
}

/// A chunk of one of the files has the address `h`.
pub open spec fn mentions(files: Map<Seq<char>, crate::catalog::FileView>, h: Seq<u8>) -> bool {
    exists|p: Seq<char>, i: int|
        #![trigger files[p].chunks[i]]
        files.contains_key(p) && 0 <= i < files[p].chunks.len() && files[p].chunks[i].hash@ == h
}

/// The addresses that the current tree or a snapshot needs.
pub open spec fn reachable(v: VaultView) -> Set<Seq<u8>> {
    Set::new(
        |h: Seq<u8>|
            mentions(v.catalog.files, h) || exists|s: int|
                0 <= s < v.catalog.snapshots.len() && mentions(
                    (#[trigger] v.catalog.snapshots[s]).files,
                    h,
                ),
    )
}

/// The blocks that are needed, in order.
pub open spec fn live(v: VaultView) -> Seq<Seq<u8>> {
    crate::vault::integrity::block_order(v).filter(|h: Seq<u8>| reachable(v).contains(h))
}

/// Where the `i`-th of the blocks goes when they are packed behind the header.
pub open spec fn packed_start(blocks: Map<Seq<u8>, BlockRef>, keys: Seq<Seq<u8>>, i: int) -> nat
    decreases i,
{
    if i <= 0 {
        HEADER_SIZE as nat
    } else {
        packed_start(blocks, keys, i - 1) + blocks[keys[i - 1]].len as nat
    }
}

/// The index of the first `n` blocks when they are packed behind the header.
pub open spec fn packed_index(blocks: Map<Seq<u8>, BlockRef>, keys: Seq<Seq<u8>>, n: int) -> Map<
    Seq<u8>,
    BlockRef,
>
    decreases n,
{
    if n <= 0 {
        Map::empty()
    } else {
        let b = blocks[keys[n - 1]];
        packed_index(blocks, keys, n - 1).insert(
            keys[n - 1],
            BlockRef {
                offset: packed_start(blocks, keys, n - 1) as u64,
                len: b.len,
                raw_len: b.raw_len,
            },
        )
    }
}

/// A block that has to be copied from the old file to the new one.
#[derive(Clone, Copy, Debug, PartialEq, Eq, Structural)]
pub struct BlockCopy {
    pub from: u64,
    pub len: u32,
    pub to: u64,
}

/// The copies of the first `n` blocks.
pub open spec fn packed_copies(blocks: Map<Seq<u8>, BlockRef>, keys: Seq<Seq<u8>>, n: int) -> Seq<
    BlockCopy,
>
    decreases n,
{
    if n <= 0 {
        Seq::empty()
    } else {
        let b = blocks[keys[n - 1]];
        packed_copies(blocks, keys, n - 1).push(
            BlockCopy {
                from: b.offset,
                len: b.len,
                to: packed_start(blocks, keys, n - 1) as u64,
            },
        )
    }
}

/// How a vault is packed into a new file.
pub struct CompactPlan {
    pub copies: Vec<BlockCopy>,
    /// The catalog of the new file.
    pub catalog: Catalog,
    /// Where the catalog goes in the new file.
    pub end: u64,
}

/// Adds the addresses that the files mention.
fn add_mentioned(set: &mut SortedSet<crate::pipeline::Hash>, files: &FileMap)
    requires
        old(set).wf(),
        files.wf(),
    ensures
        final(set).wf(),
        forall|h: Seq<u8>| #[trigger]
            final(set)@.contains(h) <==> old(set)@.contains(h) || mentions(files@, h),
{
    proof {
        files.lemma_rows();
    }
    let ghost first = set@;
    let ghost order = files.key_seq();
    let mut i: usize = 0;
    while i < files.len()
        invariant
            set.wf(),
            files.wf(),
            order == files.key_seq(),
            i <= order.len(),
            forall|h: Seq<u8>| #[trigger]
                set@.contains(h) <==> first.contains(h) || exists|x: int, y: int|
                    #![trigger files@[order[x]].chunks[y]]
                    0 <= x < i && 0 <= y < files@[order[x]].chunks.len()
                        && files@[order[x]].chunks[y].hash@ == h,
        decreases order.len() - i,
    {
        proof {
            files.lemma_rows();
        }
        let e = files.value_at(i);
        let ghost chunks = e@.chunks;
        assert(files@[order[i as int]].chunks == chunks);
        let ghost before = set@;
        let mut j: usize = 0;
        while j < e.chunks.len()
            invariant
                set.wf(),
                chunks == e.chunks@,
                j <= chunks.len(),
                forall|h: Seq<u8>| #[trigger]
                    set@.contains(h) <==> before.contains(h) || exists|y: int|
                        0 <= y < j && (#[trigger] chunks[y]).hash@ == h,
            decreases chunks.len() - j,
        {
            let ghost now = set@;
            set.insert(e.chunks[j].hash);
            proof {
                assert forall|h: Seq<u8>| #[trigger] set@.contains(h) <==> before.contains(h)
                    || exists|y: int| 0 <= y < j + 1 && (#[trigger] chunks[y]).hash@ == h by {
                    if now.contains(h) && !before.contains(h) {
                        let y = choose|y: int| 0 <= y < j && (#[trigger] chunks[y]).hash@ == h;
                        assert(chunks[y].hash@ == h);
                    }
                    assert(chunks[j as int].hash@ == chunks[j as int].hash@);
                    if exists|y: int| 0 <= y < j + 1 && (#[trigger] chunks[y]).hash@ == h {
                        let y = choose|y: int| 0 <= y < j + 1 && (#[trigger] chunks[y]).hash@ == h;
                        if y < j {
                            assert(chunks[y].hash@ == h);
                        }
                    }
                }
            }
            j = j + 1;
        }
        proof {
            assert forall|h: Seq<u8>| #[trigger] set@.contains(h) <==> first.contains(h) || exists|
                x: int,
                y: int,
            |
                #![trigger files@[order[x]].chunks[y]]
                0 <= x < i + 1 && 0 <= y < files@[order[x]].chunks.len()
                    && files@[order[x]].chunks[y].hash@ == h by {
                if before.contains(h) && !first.contains(h) {
                    let (x, y) = choose|x: int, y: int|
                        #![trigger files@[order[x]].chunks[y]]
                        0 <= x < i && 0 <= y < files@[order[x]].chunks.len()
                            && files@[order[x]].chunks[y].hash@ == h;
                    assert(files@[order[x]].chunks[y].hash@ == h);
                }
                if exists|y: int| 0 <= y < chunks.len() && (#[trigger] chunks[y]).hash@ == h {
                    let y = choose|y: int|
                        0 <= y < chunks.len() && (#[trigger] chunks[y]).hash@ == h;
                    assert(files@[order[i as int]].chunks[y].hash@ == h);
                }
                if exists|x: int, y: int|
                    #![trigger files@[order[x]].chunks[y]]
                    0 <= x < i + 1 && 0 <= y < files@[order[x]].chunks.len()
                        && files@[order[x]].chunks[y].hash@ == h {
                    let (x, y) = choose|x: int, y: int|
                        #![trigger files@[order[x]].chunks[y]]
                        0 <= x < i + 1 && 0 <= y < files@[order[x]].chunks.len()
                            && files@[order[x]].chunks[y].hash@ == h;
                    if x < i {
                        assert(files@[order[x]].chunks[y].hash@ == h);
                        assert(before.contains(h));
                    } else {
                        assert(chunks[y].hash@ == h);
                    }
                }
            }
        }
        i = i + 1;
    }
    proof {
        files.lemma_rows();
        assert forall|h: Seq<u8>| #[trigger] set@.contains(h) <==> first.contains(h) || mentions(
            files@,
            h,
        ) by {
            if set@.contains(h) && !first.contains(h) {
                let (x, y) = choose|x: int, y: int|
                    #![trigger files@[order[x]].chunks[y]]
                    0 <= x < order.len() && 0 <= y < files@[order[x]].chunks.len()
                        && files@[order[x]].chunks[y].hash@ == h;
                assert(files@.contains_key(order[x]));
                assert(files@[order[x]].chunks[y].hash@ == h);
            }
            if mentions(files@, h) {
                let (p, y) = choose|p: Seq<char>, y: int|
                    #![trigger files@[p].chunks[y]]
                    files@.contains_key(p) && 0 <= y < files@[p].chunks.len()
                        && files@[p].chunks[y].hash@ == h;
                let x = order.index_of(p);
                assert(order[x] == p);
                assert(files@[order[x]].chunks[y].hash@ == h);
            }
        }
    }
}

impl Vault {
    /// The addresses that the current tree or a snapshot needs.
    fn reachable(&self) -> (r: SortedSet<crate::pipeline::Hash>)
        requires
            self.wf(),
        ensures
            r.wf(),
            r@ == reachable(self@),
    {
        let ghost v = self@;
        let mut set: SortedSet<crate::pipeline::Hash> = SortedSet::new();
        add_mentioned(&mut set, &self.catalog.files);
        let mut i: usize = 0;
        while i < self.catalog.snapshots.len()
            invariant
                self.wf(),
                v == self@,
                set.wf(),
                i <= self.catalog.snapshots@.len(),
                forall|h: Seq<u8>| #[trigger]
                    set@.contains(h) <==> mentions(v.catalog.files, h) || exists|s: int|
                        0 <= s < i && mentions((#[trigger] v.catalog.snapshots[s]).files, h),
            decreases self.catalog.snapshots@.len() - i,
        {
            let ghost before = set@;
            assert(self.catalog.snapshots@[i as int].wf());
            assert(v.catalog.snapshots[i as int] == self.catalog.snapshots@[i as int]@);
            add_mentioned(&mut set, &self.catalog.snapshots[i].files);
            proof {
                assert forall|h: Seq<u8>| #[trigger] set@.contains(h) <==> mentions(
                    v.catalog.files,
                    h,
                ) || exists|s: int|
                    0 <= s < i + 1 && mentions((#[trigger] v.catalog.snapshots[s]).files, h) by {
                    if before.contains(h) && !mentions(v.catalog.files, h) {
                        let s = choose|s: int|
                            0 <= s < i && mentions((#[trigger] v.catalog.snapshots[s]).files, h);
                        assert(mentions(v.catalog.snapshots[s].files, h));
                    }
                    if mentions(v.catalog.snapshots[i as int].files, h) {
                        assert(mentions(v.catalog.snapshots[i as int].files, h));
                    }
                }
            }
            i = i + 1;
        }
        assert(set@ =~= reachable(v));
        set
    }

    /// The addresses of the blocks that are needed, in order.
    pub fn live_blocks(&self) -> (r: Vec<crate::pipeline::Hash>)
        requires
            self.wf(),
        ensures
            crate::vault::integrity::hash_views(r@) == live(self@),
            forall|i: int|
                0 <= i < r@.len() ==> self@.catalog.blocks.contains_key((#[trigger] r@[i])@),
    {
        let ghost v = self@;
        let ghost p = |h: Seq<u8>| reachable(v).contains(h);
        let needed = self.reachable();
        let all = self.block_hashes();
        let ghost order = crate::vault::integrity::block_order(v);
        let mut r: Vec<crate::pipeline::Hash> = Vec::new();
        let mut i: usize = 0;
        proof {
            reveal(Seq::filter);
            assert(crate::vault::integrity::hash_views(r@) =~= order.take(0).filter(p));
        }
        while i < all.len()
            invariant
                needed.wf(),
                needed@ == reachable(v),
                v == self@,
                p == (|h: Seq<u8>| reachable(v).contains(h)),
                order == crate::vault::integrity::hash_views(all@),
                i <= all@.len(),
                forall|j: int|
                    0 <= j < all@.len() ==> v.catalog.blocks.contains_key((#[trigger] all@[j])@),
                forall|j: int|
                    0 <= j < r@.len() ==> v.catalog.blocks.contains_key((#[trigger] r@[j])@),
                crate::vault::integrity::hash_views(r@) == order.take(i as int).filter(p),
            decreases all@.len() - i,
        {
            let ghost before = r@;
            proof {
                reveal(Seq::filter);
                assert(order.take(i + 1).drop_last() =~= order.take(i as int));
                assert(order.take(i + 1).last() == all@[i as int]@);
            }
            if needed.contains(&all[i]) {
                r.push(all[i]);
                assert(crate::vault::integrity::hash_views(r@)
                    =~= crate::vault::integrity::hash_views(before).push(all@[i as int]@));
            }
            i = i + 1;
        }
        assert(order.take(i as int) =~= order);
        r
    }

    /// Where the catalog goes when the needed blocks are packed behind the header.
    pub fn packed_end(&self) -> (r: u128)
        requires
            self.wf(),
        ensures
            r == packed_start(self@.catalog.blocks, live(self@), live(self@).len() as int),
    {
        let keys = self.live_blocks();
        let ghost blocks = self@.catalog.blocks;
        let ghost order = live(self@);
        let count: usize = keys.len();
        let mut end: u128 = HEADER_SIZE as u128;
        let mut i: usize = 0;
        while i < keys.len()
            invariant
                self.wf(),
                blocks == self@.catalog.blocks,
                order == crate::vault::integrity::hash_views(keys@),
                count == keys@.len(),
                i <= keys@.len(),
                forall|j: int|
                    0 <= j < keys@.len() ==> blocks.contains_key((#[trigger] keys@[j])@),
                end == packed_start(blocks, order, i as int),
                end <= 4096 + i * 0x1_0000_0000,
            decreases keys@.len() - i,
        {
            assert(blocks.contains_key(keys@[i as int]@));
            if let Some(b) = self.block_place(&keys[i]) {
                assert(end + b.len <= 4096 + (i + 1) * 0x1_0000_0000) by (nonlinear_arith)
                    requires
                        end <= 4096 + i * 0x1_0000_0000,
                        b.len <= 0xffff_ffff,
                ;
                assert((i + 1) * 0x1_0000_0000 <= 0x1_0000_0000_0000_0000 * 0x1_0000_0000)
                    by (nonlinear_arith)
                    requires
                        i + 1 <= 0x1_0000_0000_0000_0000,
                ;
                assert(order[i as int] == keys@[i as int]@);
                end = end + b.len as u128;
            }
            i = i + 1;
        }
        end
    }

    /// How the needed blocks are packed into a new file. The tree, the snapshots and the quota
    /// stay as they are.
    pub fn compact_to(&self) -> (r: CompactPlan)
        requires
            self.wf(),
            packed_start(self@.catalog.blocks, live(self@), live(self@).len() as int) <= u64::MAX,
        ensures
            ({
                let blocks = self@.catalog.blocks;
                let keys = live(self@);
                let n = keys.len() as int;
                &&& r.catalog.wf()
                &&& r.catalog@ == (crate::catalog::CatalogView {
                    blocks: packed_index(blocks, keys, n),
                    ..self@.catalog
                })
                &&& r.copies@ == packed_copies(blocks, keys, n)
                &&& r.end == packed_start(blocks, keys, n)
            }),
    {
        let keys = self.live_blocks();
        let ghost blocks = self@.catalog.blocks;
        let ghost order = live(self@);
        let mut index: BlockMap = SortedMap::new();
        let mut copies: Vec<BlockCopy> = Vec::new();
        let mut end: u64 = HEADER_SIZE;
        let mut i: usize = 0;
        assert(copies@ =~= packed_copies(blocks, order, 0));
        while i < keys.len()
            invariant
                self.wf(),
                blocks == self@.catalog.blocks,
                order == crate::vault::integrity::hash_views(keys@),
                i <= keys@.len(),
                forall|j: int|
                    0 <= j < keys@.len() ==> blocks.contains_key((#[trigger] keys@[j])@),
                packed_start(blocks, order, order.len() as int) <= u64::MAX,
                index.wf(),
                index@ == packed_index(blocks, order, i as int),
                copies@ == packed_copies(blocks, order, i as int),
                end == packed_start(blocks, order, i as int),
            decreases keys@.len() - i,
        {
            assert(blocks.contains_key(keys@[i as int]@));
            if let Some(b) = self.block_place(&keys[i]) {
                assert(order[i as int] == keys@[i as int]@);
                proof {
                    lemma_packed_monotone(blocks, order, i + 1, order.len() as int);
                }
                copies.push(BlockCopy { from: b.offset, len: b.len, to: end });
                index.insert(
                    keys[i],
                    BlockRef { offset: end, len: b.len, raw_len: b.raw_len },
                );
                end = end + b.len as u64;
            }
            i = i + 1;
        }
        let catalog = self.catalog_with(index);
        CompactPlan { copies, catalog, end }
    }

    /// The catalog with another index.
    pub(super) fn catalog_with(&self, blocks: BlockMap) -> (r: Catalog)
        requires
            self.wf(),
            blocks.wf(),
        ensures
            r.wf(),
            r@ == (crate::catalog::CatalogView { blocks: blocks@, ..self@.catalog }),
    {
        Catalog {
            blocks,
            files: self.catalog.files.copy(),
            snapshots: copy_snapshots(&self.catalog.snapshots),
            dirs: self.catalog.dirs.copy(),
            quota: self.catalog.quota,
        }
    }

    /// What a compaction won, when the old file had `bytes_before` bytes and the new catalog
    /// takes `catalog_len`.
    pub fn compact_report(
        &self,
        plan: &CompactPlan,
        bytes_before: u64,
        catalog_len: u64,
    ) -> (r: CompactReport)
        requires
            self.wf(),
            plan.catalog.wf(),
            plan.end + catalog_len <= u64::MAX,
        ensures
            r.blocks_before == self@.catalog.blocks.dom().len(),
            r.blocks_after == plan.catalog@.blocks.dom().len(),
            r.bytes_before == bytes_before,
            r.bytes_after == plan.end + catalog_len,
    {
        CompactReport {
            blocks_before: self.catalog.blocks.len(),
            blocks_after: plan.catalog.blocks.len(),
            bytes_before,
            bytes_after: plan.end + catalog_len,
        }
    }
}

/// Later blocks go further behind.
pub proof fn lemma_packed_monotone(
    blocks: Map<Seq<u8>, BlockRef>,
    keys: Seq<Seq<u8>>,
    i: int,
    j: int,
)
    requires
        0 <= i <= j,
    ensures
        packed_start(blocks, keys, i) <= packed_start(blocks, keys, j),
    decreases j - i,
{
    if i < j {
        lemma_packed_monotone(blocks, keys, i, j - 1);
    }
}

} // verus!
