//! How much a vault holds and takes.

use crate::catalog::{BlockRef, FileMap};
use crate::vault::{Vault, VaultView};
use vstd::prelude::*;

verus! {

/// How much a vault holds and takes.
#[derive(Clone, Copy, Debug, PartialEq, Eq, Structural)]
pub struct Stats {
    pub files: usize,
    pub unique_blocks: usize,
    /// The sizes of all files together.
    pub logical_bytes: u64,
    /// The contents of all blocks together, before compression.
    pub unique_raw_bytes: u64,
    /// The stored blocks together.
    pub physical_bytes: u64,
    pub encrypted: bool,
    pub snapshots: usize,
    pub quota: Option<u64>,
    /// How many bytes the file of the vault takes.
    pub used_bytes: u64,
}

/// The same sums, wide enough for every vault.
#[derive(Clone, Copy, Debug, PartialEq, Eq, Structural)]
pub struct Totals {
    pub logical: u128,
    pub unique_raw: u128,
    pub physical: u128,
}

/// The sizes of the first `n` files together.
pub open spec fn sum_sizes(
    files: Map<Seq<char>, crate::catalog::FileView>,
    keys: Seq<Seq<char>>,
    n: int,
) -> nat
    decreases n,
{
    if n <= 0 {
        0
    } else {
        sum_sizes(files, keys, n - 1) + files[keys[n - 1]].size as nat
    }
}

/// The contents of the first `n` blocks together.
pub open spec fn sum_raw(blocks: Map<Seq<u8>, BlockRef>, keys: Seq<Seq<u8>>, n: int) -> nat
    decreases n,
{
    if n <= 0 {
        0
    } else {
        sum_raw(blocks, keys, n - 1) + blocks[keys[n - 1]].raw_len as nat
    }
}

/// The first `n` blocks as they are stored together.
pub open spec fn sum_stored(blocks: Map<Seq<u8>, BlockRef>, keys: Seq<Seq<u8>>, n: int) -> nat
    decreases n,
{
    if n <= 0 {
        0
    } else {
        sum_stored(blocks, keys, n - 1) + blocks[keys[n - 1]].len as nat
    }
}

/// The sizes of the files together.
pub open spec fn size_total(files: Map<Seq<char>, crate::catalog::FileView>) -> nat {
    let order = crate::vault::tree::path_order(files.dom());
    sum_sizes(files, order, order.len() as int)
}

/// The sizes of all files together.
pub open spec fn logical_total(v: VaultView) -> nat {
    size_total(v.catalog.files)
}

/// The contents of all blocks together.
pub open spec fn raw_total(v: VaultView) -> nat {
    let order = crate::vault::integrity::block_order(v);
    sum_raw(v.catalog.blocks, order, order.len() as int)
}

/// All blocks as they are stored together.
pub open spec fn stored_total(v: VaultView) -> nat {
    let order = crate::vault::integrity::block_order(v);
    sum_stored(v.catalog.blocks, order, order.len() as int)
}

/// The sizes of the files together.
pub fn total_size(files: &FileMap) -> (r: u128)
    requires
        files.wf(),
    ensures
        r == size_total(files@),
{
    let ghost keys = files.key_seq();
    proof {
        files.lemma_rows();
    }
    let n: usize = files.len();
    let mut sum: u128 = 0;
    let mut i: usize = 0;
    while i < n
        invariant
            files.wf(),
            keys == files.key_seq(),
            n == keys.len(),
            i <= n,
            sum == sum_sizes(files@, keys, i as int),
            sum <= i * 0xffff_ffff_ffff_ffff,
        decreases n - i,
    {
        proof {
            files.lemma_rows();
        }
        let e = files.value_at(i);
        assert(files@[keys[i as int]] == e@);
        assert(sum + e.size <= (i + 1) * 0xffff_ffff_ffff_ffff) by (nonlinear_arith)
            requires
                sum <= i * 0xffff_ffff_ffff_ffff,
                e.size <= 0xffff_ffff_ffff_ffff,
        ;
        assert((i + 1) * 0xffff_ffff_ffff_ffff <= 0xffff_ffff_ffff_ffff * 0xffff_ffff_ffff_ffff)
            by (nonlinear_arith)
            requires
                i + 1 <= 0xffff_ffff_ffff_ffff,
        ;
        sum = sum + e.size as u128;
        i = i + 1;
    }
    sum
}

impl Vault {
    /// The sums over all files and blocks.
    pub fn totals(&self) -> (r: Totals)
        requires
            self.wf(),
        ensures
            r.logical == logical_total(self@),
            r.unique_raw == raw_total(self@),
            r.physical == stored_total(self@),
    {
        let ghost v = self@;
        let ghost bk = self.catalog.blocks.key_seq();
        proof {
            self.catalog.blocks.lemma_rows();
        }
        let blocks: usize = self.catalog.blocks.len();
        let logical: u128 = total_size(&self.catalog.files);
        let mut unique_raw: u128 = 0;
        let mut physical: u128 = 0;
        let mut j: usize = 0;
        while j < blocks
            invariant
                self.wf(),
                v == self@,
                bk == self.catalog.blocks.key_seq(),
                blocks == bk.len(),
                j <= blocks,
                unique_raw == sum_raw(v.catalog.blocks, bk, j as int),
                physical == sum_stored(v.catalog.blocks, bk, j as int),
                unique_raw <= j * 0xffff_ffff,
                physical <= j * 0xffff_ffff,
            decreases blocks - j,
        {
            proof {
                self.catalog.blocks.lemma_rows();
            }
            let b = *self.catalog.blocks.value_at(j);
            assert(v.catalog.blocks[bk[j as int]] == b);
            assert(unique_raw + b.raw_len <= (j + 1) * 0xffff_ffff && physical + b.len <= (j + 1)
                * 0xffff_ffff) by (nonlinear_arith)
                requires
                    unique_raw <= j * 0xffff_ffff,
                    physical <= j * 0xffff_ffff,
                    b.raw_len <= 0xffff_ffff,
                    b.len <= 0xffff_ffff,
            ;
            assert((j + 1) * 0xffff_ffff <= 0xffff_ffff_ffff_ffff * 0xffff_ffff)
                by (nonlinear_arith)
                requires
                    j + 1 <= 0xffff_ffff_ffff_ffff,
            ;
            unique_raw = unique_raw + b.raw_len as u128;
            physical = physical + b.len as u128;
            j = j + 1;
        }
        Totals { logical, unique_raw, physical }
    }

    /// How much the vault holds and takes.
    pub fn stats(&self) -> (r: Stats)
        requires
            self.wf(),
            logical_total(self@) <= u64::MAX,
            raw_total(self@) <= u64::MAX,
            stored_total(self@) <= u64::MAX,
        ensures
            r.files == self@.catalog.files.dom().len(),
            r.unique_blocks == self@.catalog.blocks.dom().len(),
            r.logical_bytes == logical_total(self@),
            r.unique_raw_bytes == raw_total(self@),
            r.physical_bytes == stored_total(self@),
            r.encrypted == (self@.enc is Some),
            r.snapshots == self@.catalog.snapshots.len(),
            r.quota == self@.catalog.quota,
            r.used_bytes == self@.next_append,
    {
        let t = self.totals();
        Stats {
            files: self.catalog.files.len(),
            unique_blocks: self.catalog.blocks.len(),
            logical_bytes: t.logical as u64,
            unique_raw_bytes: t.unique_raw as u64,
            physical_bytes: t.physical as u64,
            encrypted: self.is_encrypted(),
            snapshots: self.catalog.snapshots.len(),
            quota: self.catalog.quota,
            used_bytes: self.next_append,
        }
    }
}

proof fn lemma_sizes_sum(
    files: Map<Seq<char>, crate::catalog::FileView>,
    keys: Seq<Seq<char>>,
    n: int,
)
    requires
        0 <= n <= keys.len(),
    ensures
        sum_sizes(files, keys, n) == crate::sums::sum_over(
            keys.take(n),
            |k: Seq<char>| files[k].size as nat,
        ),
    decreases n,
{
    if n > 0 {
        lemma_sizes_sum(files, keys, n - 1);
        assert(keys.take(n).drop_last() =~= keys.take(n - 1));
    }
}

proof fn lemma_blocks_sum(blocks: Map<Seq<u8>, BlockRef>, keys: Seq<Seq<u8>>, n: int)
    requires
        0 <= n <= keys.len(),
    ensures
        sum_raw(blocks, keys, n) == crate::sums::sum_over(
            keys.take(n),
            |k: Seq<u8>| blocks[k].raw_len as nat,
        ),
        sum_stored(blocks, keys, n) == crate::sums::sum_over(
            keys.take(n),
            |k: Seq<u8>| blocks[k].len as nat,
        ),
    decreases n,
{
    if n > 0 {
        lemma_blocks_sum(blocks, keys, n - 1);
        assert(keys.take(n).drop_last() =~= keys.take(n - 1));
    }
}

/// A tree without files has no bytes, and a file that comes to it adds its size, whatever else
/// the tree holds.
pub proof fn sizes_add_up(
    files: Map<Seq<char>, crate::catalog::FileView>,
    p: Seq<char>,
    f: crate::catalog::FileView,
)
    requires
        files.dom().finite(),
        !files.contains_key(p),
    ensures
        size_total(Map::empty()) == 0,
        size_total(files.insert(p, f)) == size_total(files) + f.size,
{
    let none = Map::<Seq<char>, crate::catalog::FileView>::empty();
    let more = files.insert(p, f);
    let a = crate::vault::tree::path_order(files.dom());
    let b = crate::vault::tree::path_order(more.dom());
    let e = crate::vault::tree::path_order(none.dom());
    crate::sorted::lemma_in_order_exists::<String>(files.dom());
    crate::sorted::lemma_in_order_exists::<String>(more.dom());
    crate::sorted::lemma_in_order_exists::<String>(none.dom());
    assert(e.len() == 0) by {
        if e.len() > 0 {
            assert(e.to_set().contains(e[0]));
        }
    }
    assert(a.to_set().contains(p) == a.contains(p));
    let w = |k: Seq<char>| files[k].size as nat;
    let x = |k: Seq<char>| more[k].size as nat;
    lemma_sizes_sum(files, a, a.len() as int);
    lemma_sizes_sum(more, b, b.len() as int);
    assert(a.take(a.len() as int) =~= a);
    assert(b.take(b.len() as int) =~= b);
    assert(b.to_set() =~= a.to_set().insert(p));
    crate::sums::lemma_sum_with_one(a, b, p, x);
    assert forall|i: int| 0 <= i < a.len() implies w(#[trigger] a[i]) == x(a[i]) by {
        assert(a.contains(a[i]));
    }
    crate::sums::lemma_sum_same(a, w, x);
}

/// The same of a vault's files: its logical bytes grow by the size of each file that comes to
/// it, and by nothing else.
pub proof fn logical_bytes_add_up(
    v: VaultView,
    w: VaultView,
    p: Seq<char>,
    f: crate::catalog::FileView,
)
    requires
        v.catalog.files.dom().finite(),
        !v.catalog.files.contains_key(p),
        w.catalog.files == v.catalog.files.insert(p, f),
    ensures
        logical_total(w) == logical_total(v) + f.size,
{
    sizes_add_up(v.catalog.files, p, f);
}

/// A vault without blocks takes no bytes, and each block that comes to it adds its length to the
/// bytes stored and the length of its content to those that are unique.
pub proof fn blocks_add_up(v: VaultView, w: VaultView, h: Seq<u8>, b: BlockRef)
    requires
        v.catalog.blocks.dom().finite(),
    ensures
        v.catalog.blocks == Map::<Seq<u8>, BlockRef>::empty() ==> stored_total(v) == 0 && raw_total(
            v,
        ) == 0,
        !v.catalog.blocks.contains_key(h) && w.catalog.blocks == v.catalog.blocks.insert(h, b)
            ==> stored_total(w) == stored_total(v) + b.len && raw_total(w) == raw_total(v)
            + b.raw_len,
{
    let blocks = v.catalog.blocks;
    let a = crate::vault::integrity::block_order(v);
    crate::sorted::lemma_in_order_exists::<crate::pipeline::Hash>(blocks.dom());
    if blocks == Map::<Seq<u8>, BlockRef>::empty() {
        if a.len() > 0 {
            assert(a.to_set().contains(a[0]));
        }
    }
    if !blocks.contains_key(h) && w.catalog.blocks == blocks.insert(h, b) {
        let more = w.catalog.blocks;
        let c = crate::vault::integrity::block_order(w);
        crate::sorted::lemma_in_order_exists::<crate::pipeline::Hash>(more.dom());
        assert(a.to_set().contains(h) == a.contains(h));
        lemma_blocks_sum(blocks, a, a.len() as int);
        lemma_blocks_sum(more, c, c.len() as int);
        assert(a.take(a.len() as int) =~= a);
        assert(c.take(c.len() as int) =~= c);
        assert(c.to_set() =~= a.to_set().insert(h));
        let l = |k: Seq<u8>| blocks[k].len as nat;
        let l2 = |k: Seq<u8>| more[k].len as nat;
        let r = |k: Seq<u8>| blocks[k].raw_len as nat;
        let r2 = |k: Seq<u8>| more[k].raw_len as nat;
        crate::sums::lemma_sum_with_one(a, c, h, l2);
        crate::sums::lemma_sum_with_one(a, c, h, r2);
        assert forall|i: int| 0 <= i < a.len() implies l(#[trigger] a[i]) == l2(a[i]) && r(a[i])
            == r2(a[i]) by {
            assert(a.contains(a[i]));
        }
        crate::sums::lemma_sum_same(a, l, l2);
        crate::sums::lemma_sum_same(a, r, r2);
    }
}

/// The bytes stored are the lengths of the blocks, summed in any order.
pub proof fn lemma_stored_total(v: VaultView)
    ensures
        stored_total(v) == crate::sums::sum_over(
            crate::vault::integrity::block_order(v),
            |k: Seq<u8>| v.catalog.blocks[k].len as nat,
        ),
{
    let order = crate::vault::integrity::block_order(v);
    lemma_blocks_sum(v.catalog.blocks, order, order.len() as int);
    assert(order.take(order.len() as int) =~= order);
}

} // verus!
