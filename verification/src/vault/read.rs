//! Reading: which blocks a range needs, how they are fetched and how the bytes are put together.

use crate::catalog::ChunkRef;
use crate::error::VaultError;
use crate::paths::normalize_path;
use crate::vault::{Vault, VaultView};
use std::sync::Arc;
use vstd::prelude::*;

verus! {

/// A range of a file and the chunks that it touches.
pub struct ReadPlan {
    needed: Vec<(crate::pipeline::Hash, u64)>,
    offset: u64,
    end: u64,
}

/// A plan as a value.
#[verifier::ext_equal]
pub struct PlanView {
    /// The address of each chunk and where it starts in the file.
    pub needed: Seq<(crate::pipeline::Hash, u64)>,
    pub offset: u64,
    pub end: u64,
}

impl View for ReadPlan {
    type V = PlanView;

    closed spec fn view(&self) -> PlanView {
        PlanView { needed: self.needed@, offset: self.offset, end: self.end }
    }
}

/// Those of the first `n` chunks that `offset..end` touches.
pub open spec fn touched(chunks: Seq<ChunkRef>, n: int, offset: int, end: int) -> Seq<
    (crate::pipeline::Hash, u64),
>
    decreases n,
{
    if n <= 0 {
        Seq::empty()
    } else {
        let front = touched(chunks, n - 1, offset, end);
        let start = crate::chunking::chunk_start(chunks, n - 1);
        if crate::chunking::chunk_start(chunks, n) > offset && start < end {
            front.push((chunks[n - 1].hash, start as u64))
        } else {
            front
        }
    }
}

/// Where a read of `len` bytes at `offset` ends in a file of `size` bytes.
pub open spec fn read_end(size: u64, offset: u64, len: usize) -> u64 {
    if offset + len <= size {
        (offset + len) as u64
    } else {
        size
    }
}

/// The plan to read `len` bytes at `offset` of the file `f`.
pub open spec fn plan_for(f: crate::catalog::FileView, offset: u64, len: usize) -> PlanView {
    if offset >= f.size || len == 0 {
        PlanView { needed: Seq::empty(), offset, end: offset }
    } else {
        let end = read_end(f.size, offset, len);
        PlanView {
            needed: touched(f.chunks, f.chunks.len() as int, offset as int, end as int),
            offset,
            end,
        }
    }
}

impl PlanView {
    /// The chunks start in front of the end of the range.
    pub open spec fn wf(self) -> bool {
        &&& self.offset <= self.end
        &&& forall|i: int| 0 <= i < self.needed.len() ==> (#[trigger] self.needed[i]).1 < self.end
    }

    /// Where the range starts in the `i`-th chunk.
    pub open spec fn from(self, i: int) -> int {
        if self.offset >= self.needed[i].1 {
            self.offset - self.needed[i].1
        } else {
            0
        }
    }

    /// Where the range ends in the `i`-th chunk, if that has `n` bytes.
    pub open spec fn to(self, i: int, n: int) -> int {
        if self.end - self.needed[i].1 <= n {
            self.end - self.needed[i].1
        } else {
            n
        }
    }
}

/// No block ends in front of the range.
pub open spec fn pieces_fit(p: PlanView, blocks: Seq<Arc<Vec<u8>>>) -> bool {
    blocks.len() == p.needed.len() && forall|i: int|
        0 <= i < blocks.len() ==> p.from(i) <= p.to(i, (#[trigger] blocks[i])@.len() as int)
}

/// The bytes that the first `n` blocks contribute.
pub open spec fn assembled(p: PlanView, blocks: Seq<Arc<Vec<u8>>>, n: int) -> Seq<u8>
    decreases n,
{
    if n <= 0 {
        Seq::empty()
    } else {
        let b = blocks[n - 1]@;
        assembled(p, blocks, n - 1) + b.subrange(p.from(n - 1), p.to(n - 1, b.len() as int))
    }
}

impl ReadPlan {
    pub closed spec fn wf(self) -> bool {
        self@.wf()
    }

    /// The chunks that the range touches, with their places in the file.
    pub fn needed(&self) -> (r: &Vec<(crate::pipeline::Hash, u64)>)
        ensures
            r@ == self@.needed,
    {
        &self.needed
    }

    /// Where the range starts and ends in the `i`-th chunk, if that has `n` bytes and reaches it.
    fn bounds(&self, i: usize, n: usize) -> (r: Option<(usize, usize)>)
        requires
            self.wf(),
            i < self@.needed.len(),
        ensures
            match r {
                Some((from, to)) => from <= to && from == self@.from(i as int) && to == self@.to(
                    i as int,
                    n as int,
                ),
                None => self@.from(i as int) > self@.to(i as int, n as int),
            },
    {
        let start: u64 = self.needed[i].1;
        let left: u64 = self.end - start;
        let to: usize = if left <= n as u64 {
            left as usize
        } else {
            n
        };
        let from: u64 = if self.offset >= start {
            self.offset - start
        } else {
            0
        };
        if from <= to as u64 {
            Some((from as usize, to))
        } else {
            None
        }
    }

    /// Whether every block reaches the range.
    pub fn fits(&self, blocks: &Vec<Arc<Vec<u8>>>) -> (r: bool)
        requires
            self.wf(),
        ensures
            r == pieces_fit(self@, blocks@),
    {
        if blocks.len() != self.needed.len() {
            return false;
        }
        let mut i: usize = 0;
        while i < blocks.len()
            invariant
                i <= blocks@.len(),
                self.wf(),
                blocks@.len() == self@.needed.len(),
                forall|j: int|
                    0 <= j < i ==> self@.from(j) <= self@.to(
                        j,
                        (#[trigger] blocks@[j])@.len() as int,
                    ),
            decreases blocks@.len() - i,
        {
            if self.bounds(i, blocks[i].len()).is_none() {
                assert(self@.from(i as int) > self@.to(
                    i as int,
                    blocks@[i as int]@.len() as int,
                ));
                return false;
            }
            i = i + 1;
        }
        true
    }

    /// Puts the range together from the blocks.
    pub fn assemble(&self, blocks: &Vec<Arc<Vec<u8>>>) -> (r: Vec<u8>)
        requires
            self.wf(),
            pieces_fit(self@, blocks@),
        ensures
            r@ == assembled(self@, blocks@, blocks@.len() as int),
    {
        let mut out: Vec<u8> = Vec::new();
        let mut i: usize = 0;
        while i < blocks.len()
            invariant
                i <= blocks@.len(),
                self.wf(),
                pieces_fit(self@, blocks@),
                out@ == assembled(self@, blocks@, i as int),
            decreases blocks@.len() - i,
        {
            let b = &blocks[i];
            assert(self@.from(i as int) <= self@.to(i as int, blocks@[i as int]@.len() as int));
            if let Some((from, to)) = self.bounds(i, b.len()) {
                out.extend_from_slice(vstd::slice::slice_subrange(b.as_slice(), from, to));
                assert(out@ =~= assembled(self@, blocks@, i as int) + blocks@[i as int]@.subrange(
                    from as int,
                    to as int,
                ));
            }
            i = i + 1;
        }
        out
    }
}

/// Chunks in front of the range and behind it are left out.
proof fn lemma_touched(chunks: Seq<ChunkRef>, n: int, offset: int, end: int)
    requires
        0 <= n,
        crate::chunking::chunk_start(chunks, n) >= end,
    ensures
        forall|m: int| n <= m ==> #[trigger] touched(chunks, m, offset, end) == touched(
            chunks,
            n,
            offset,
            end,
        ),
{
    assert forall|m: int| n <= m implies #[trigger] touched(chunks, m, offset, end) == touched(
        chunks,
        n,
        offset,
        end,
    ) by {
        lemma_touched_to(chunks, n, m, offset, end);
    }
}

proof fn lemma_touched_to(chunks: Seq<ChunkRef>, n: int, m: int, offset: int, end: int)
    requires
        0 <= n <= m,
        crate::chunking::chunk_start(chunks, n) >= end,
    ensures
        touched(chunks, m, offset, end) == touched(chunks, n, offset, end),
    decreases m - n,
{
    if n < m {
        lemma_touched_to(chunks, n, m - 1, offset, end);
        crate::chunking::lemma_start_monotone(chunks, n, m - 1);
    }
}

/// There is a file at the path, and a read of `len` bytes at `offset` is not empty.
pub open spec fn reads_inside(v: VaultView, logical: Seq<char>, offset: u64, len: usize) -> bool {
    let path = crate::paths::normal(logical);
    v.catalog.files.contains_key(path) && offset < v.catalog.files[path].size && len > 0
}

impl Vault {
    /// Which chunks a read of `len` bytes at `offset` touches. A read behind the end of the
    /// file is empty.
    pub fn plan_read(&self, logical: &str, offset: u64, len: usize) -> (r: Result<
        ReadPlan,
        VaultError,
    >)
        requires
            self.wf(),
            reads_inside(self@, logical@, offset, len) ==> offset + len <= u64::MAX,
        ensures
            match r {
                Ok(p) => {
                    &&& p.wf()
                    &&& self@.catalog.files.contains_key(crate::paths::normal(logical@))
                    &&& p@ == plan_for(
                        self@.catalog.files[crate::paths::normal(logical@)],
                        offset,
                        len,
                    )
                },
                Err(e) => e == VaultError::FileNotFound && !self@.catalog.files.contains_key(
                    crate::paths::normal(logical@),
                ),
            },
    {
        let path = normalize_path(logical);
        let entry = match self.catalog.files.get(&path) {
            None => {
                return Err(VaultError::FileNotFound);
            },
            Some(entry) => entry,
        };
        if offset >= entry.size || len == 0 {
            return Ok(ReadPlan { needed: Vec::new(), offset, end: offset });
        }
        let wanted: u64 = offset + len as u64;
        let end: u64 = if wanted <= entry.size {
            wanted
        } else {
            entry.size
        };
        let mut needed: Vec<(crate::pipeline::Hash, u64)> = Vec::new();
        let mut pos: u128 = 0;
        let mut i: usize = 0;
        let ghost chunks = entry@.chunks;
        let count: usize = entry.chunks.len();
        while i < entry.chunks.len()
            invariant
                i <= entry.chunks@.len(),
                chunks == entry.chunks@,
                pos == crate::chunking::chunk_start(chunks, i as int),
                pos <= i * 0x1_0000_0000,
                needed@ == touched(chunks, i as int, offset as int, end as int),
                forall|j: int| 0 <= j < needed@.len() ==> (#[trigger] needed@[j]).1 < end,
                offset < end,
                count == entry.chunks@.len(),
            ensures
                needed@ == touched(chunks, chunks.len() as int, offset as int, end as int),
                forall|j: int| 0 <= j < needed@.len() ==> (#[trigger] needed@[j]).1 < end,
            decreases entry.chunks@.len() - i,
        {
            let c = entry.chunks[i];
            let chunk_start: u128 = pos;
            if chunk_start >= end as u128 {
                proof {
                    lemma_touched(chunks, i as int, offset as int, end as int);
                }
                break;
            }
            assert(pos + c.len <= (i + 1) * 0x1_0000_0000) by (nonlinear_arith)
                requires
                    pos <= i * 0x1_0000_0000,
                    c.len <= 0xffff_ffff,
            ;
            assert((i + 1) * 0x1_0000_0000 <= 0x1_0000_0000_0000_0000 * 0x1_0000_0000) by (nonlinear_arith)
                requires
                    i + 1 <= 0x1_0000_0000_0000_0000,
            ;
            pos = pos + c.len as u128;
            if pos > offset as u128 {
                needed.push((c.hash, chunk_start as u64));
            }
            i = i + 1;
        }
        Ok(ReadPlan { needed, offset, end })
    }
}

/// The block for each chunk that is needed is the content of that chunk.
pub open spec fn served(
    p: PlanView,
    blocks: Seq<Arc<Vec<u8>>>,
    chunks: Seq<ChunkRef>,
    bytes: Seq<u8>,
) -> bool {
    &&& blocks.len() == p.needed.len()
    &&& forall|i: int, k: int|
        #![trigger blocks[i], chunks[k]]
        0 <= i < blocks.len() && 0 <= k < chunks.len() && p.needed[i].0 == chunks[k].hash
            ==> blocks[i]@ == bytes.subrange(
            crate::chunking::chunk_start(chunks, k) as int,
            crate::chunking::chunk_start(chunks, k + 1) as int,
        )
}

/// How far the range is covered once the first `n` chunks are looked at.
spec fn covered(chunks: Seq<ChunkRef>, n: int, offset: int, end: int) -> int {
    let s = crate::chunking::chunk_start(chunks, n) as int;
    if s <= offset {
        offset
    } else if s <= end {
        s
    } else {
        end
    }
}

proof fn lemma_touched_prefix(chunks: Seq<ChunkRef>, n: int, m: int, offset: int, end: int)
    requires
        0 <= n <= m,
    ensures
        touched(chunks, n, offset, end).len() <= touched(chunks, m, offset, end).len(),
        touched(chunks, m, offset, end).take(touched(chunks, n, offset, end).len() as int)
            == touched(chunks, n, offset, end),
    decreases m - n,
{
    let t = touched(chunks, n, offset, end);
    if n < m {
        lemma_touched_prefix(chunks, n, m - 1, offset, end);
        let u = touched(chunks, m - 1, offset, end);
        let w = touched(chunks, m, offset, end);
        assert(w.take(u.len() as int) =~= u);
        assert(w.take(t.len() as int) =~= u.take(t.len() as int));
    } else {
        assert(t.take(t.len() as int) =~= t);
    }
}

proof fn lemma_assembled_prefix(
    p: PlanView,
    blocks: Seq<Arc<Vec<u8>>>,
    chunks: Seq<ChunkRef>,
    bytes: Seq<u8>,
    n: int,
)
    requires
        p.offset < p.end <= bytes.len(),
        p.needed == touched(chunks, chunks.len() as int, p.offset as int, p.end as int),
        served(p, blocks, chunks, bytes),
        crate::chunking::chunk_start(chunks, chunks.len() as int) == bytes.len(),
        0 <= n <= chunks.len(),
    ensures
        ({
            let m = touched(chunks, n, p.offset as int, p.end as int).len() as int;
            &&& forall|i: int|
                0 <= i < m ==> p.from(i) <= p.to(i, (#[trigger] blocks[i])@.len() as int)
            &&& assembled(p, blocks, m) == bytes.subrange(
                p.offset as int,
                covered(chunks, n, p.offset as int, p.end as int),
            )
        }),
    decreases n,
{
    let offset = p.offset as int;
    let end = p.end as int;
    if n <= 0 {
        assert(bytes.subrange(offset, offset) =~= Seq::empty());
    } else {
        lemma_assembled_prefix(p, blocks, chunks, bytes, n - 1);
        let m0 = touched(chunks, n - 1, offset, end).len() as int;
        let m = touched(chunks, n, offset, end).len() as int;
        lemma_touched_prefix(chunks, n, chunks.len() as int, offset, end);
        crate::chunking::lemma_start_monotone(chunks, n, chunks.len() as int);
        let s = crate::chunking::chunk_start(chunks, n - 1) as int;
        let e = crate::chunking::chunk_start(chunks, n) as int;
        if e > offset && s < end {
            assert(p.needed.take(m)[m0] == p.needed[m0]);
            assert(p.needed[m0] == (chunks[n - 1].hash, s as u64));
            let b = blocks[m0]@;
            assert(b == bytes.subrange(s, e));
            let from = p.from(m0);
            let to = p.to(m0, b.len() as int);
            assert(b.subrange(from, to) =~= bytes.subrange(s + from, s + to));
            assert(bytes.subrange(offset, s + to) =~= bytes.subrange(offset, s + from)
                + bytes.subrange(s + from, s + to));
        }
    }
}

/// A range that is put together from the right blocks is that range of the file, cut off at
/// its end.
pub proof fn assembled_range_is_content(
    f: crate::catalog::FileView,
    bytes: Seq<u8>,
    offset: u64,
    len: usize,
    blocks: Seq<Arc<Vec<u8>>>,
)
    requires
        f.size == bytes.len(),
        crate::chunking::describes(f.chunks, bytes),
        served(plan_for(f, offset, len), blocks, f.chunks, bytes),
    ensures
        pieces_fit(plan_for(f, offset, len), blocks),
        assembled(plan_for(f, offset, len), blocks, blocks.len() as int) == (if offset >= f.size {
            Seq::empty()
        } else {
            bytes.subrange(offset as int, read_end(f.size, offset, len) as int)
        }),
{
    reveal(crate::chunking::describes);
    let p = plan_for(f, offset, len);
    if offset < f.size && len > 0 {
        lemma_assembled_prefix(p, blocks, f.chunks, bytes, f.chunks.len() as int);
    } else if offset < f.size {
        assert(bytes.subrange(offset as int, offset as int) =~= Seq::empty());
    }
}

/// A read that begins in a file gives as many bytes as were asked for, or those up to the end of
/// the file if these are fewer; one that begins behind it gives none.
pub proof fn read_is_as_long_as_asked(f: crate::catalog::FileView, offset: u64, len: usize)
    ensures
        plan_for(f, offset, len).offset == offset,
        offset < f.size && offset + len <= f.size ==> plan_for(f, offset, len).end - offset == len,
        offset < f.size && offset + len > f.size ==> plan_for(f, offset, len).end == f.size,
        offset >= f.size ==> plan_for(f, offset, len).end == offset && plan_for(
            f,
            offset,
            len,
        ).needed.len() == 0,
        offset < f.size && len > 0 ==> read_end(f.size, offset, len) == plan_for(
            f,
            offset,
            len,
        ).end,
{
}

proof fn lemma_all_touched(chunks: Seq<ChunkRef>, n: int, offset: int, end: int, i: int)
    requires
        0 <= n <= chunks.len(),
        0 <= i < n,
    ensures
        touched(chunks, n, offset, end).contains(
            (chunks[i].hash, crate::chunking::chunk_start(chunks, i) as u64),
        ) || crate::chunking::chunk_start(chunks, i + 1) <= offset || crate::chunking::chunk_start(
            chunks,
            i,
        ) >= end,
    decreases n,
{
    let t = touched(chunks, n, offset, end);
    let front = touched(chunks, n - 1, offset, end);
    let x = (chunks[i].hash, crate::chunking::chunk_start(chunks, i) as u64);
    if i < n - 1 {
        lemma_all_touched(chunks, n - 1, offset, end, i);
        if front.contains(x) {
            assert(t[front.index_of(x)] == x);
        }
    } else if crate::chunking::chunk_start(chunks, n) > offset && crate::chunking::chunk_start(
        chunks,
        n - 1,
    ) < end {
        assert(t[front.len() as int] == x);
    }
}

proof fn lemma_only_touched(chunks: Seq<ChunkRef>, n: int, offset: int, end: int, j: int)
    requires
        0 <= n <= chunks.len(),
        0 <= j < touched(chunks, n, offset, end).len(),
    ensures
        exists|i: int|
            0 <= i < n && (#[trigger] chunks[i]).hash == touched(chunks, n, offset, end)[j].0
                && crate::chunking::chunk_start(chunks, i) as u64 == touched(
                chunks,
                n,
                offset,
                end,
            )[j].1 && crate::chunking::chunk_start(chunks, i + 1) > offset
                && crate::chunking::chunk_start(chunks, i) < end,
    decreases n,
{
    let front = touched(chunks, n - 1, offset, end);
    if j < front.len() {
        lemma_only_touched(chunks, n - 1, offset, end, j);
        let i = choose|i: int|
            0 <= i < n - 1 && (#[trigger] chunks[i]).hash == front[j].0
                && crate::chunking::chunk_start(chunks, i) as u64 == front[j].1
                && crate::chunking::chunk_start(chunks, i + 1) > offset
                && crate::chunking::chunk_start(chunks, i) < end;
        assert(0 <= i < n);
    } else {
        assert(chunks[n - 1].hash == touched(chunks, n, offset, end)[j].0);
    }
}

/// A read asks for every block that holds a byte of its range, and for no block that lies beside
/// it.
pub proof fn read_needs_the_blocks_it_touches(
    f: crate::catalog::FileView,
    offset: u64,
    len: usize,
    i: int,
    j: int,
)
    requires
        offset < f.size,
        len > 0,
        0 <= i < f.chunks.len(),
    ensures
        ({
            let p = plan_for(f, offset, len);
            let start = crate::chunking::chunk_start(f.chunks, i);
            let end = crate::chunking::chunk_start(f.chunks, i + 1);
            &&& end > offset && start < p.end ==> p.needed.contains(
                (f.chunks[i].hash, start as u64),
            )
            &&& 0 <= j < p.needed.len() ==> exists|c: int|
                0 <= c < f.chunks.len() && (#[trigger] f.chunks[c]).hash == p.needed[j].0
                    && crate::chunking::chunk_start(f.chunks, c) as u64 == p.needed[j].1
                    && crate::chunking::chunk_start(f.chunks, c + 1) > offset
                    && crate::chunking::chunk_start(f.chunks, c) < p.end
        }),
{
    let p = plan_for(f, offset, len);
    lemma_all_touched(f.chunks, f.chunks.len() as int, offset as int, p.end as int, i);
    if 0 <= j < p.needed.len() {
        lemma_only_touched(f.chunks, f.chunks.len() as int, offset as int, p.end as int, j);
    }
}

/// Blocks serve a read exactly if there is one for each that it needs, and none ends in front of
/// the range.
pub proof fn blocks_that_reach_the_range_fit(p: PlanView, blocks: Seq<Arc<Vec<u8>>>)
    requires
        p.wf(),
    ensures
        pieces_fit(p, blocks) <==> blocks.len() == p.needed.len() && forall|i: int|
            0 <= i < blocks.len() ==> p.offset <= p.needed[i].1 + (#[trigger] blocks[i])@.len(),
{
    if pieces_fit(p, blocks) {
        assert forall|i: int| 0 <= i < blocks.len() implies p.offset <= p.needed[i].1 + (
        #[trigger] blocks[i])@.len() by {
            assert(p.needed[i].1 < p.end);
            assert(p.from(i) <= p.to(i, blocks[i]@.len() as int));
        }
    }
    if blocks.len() == p.needed.len() && forall|i: int|
        0 <= i < blocks.len() ==> p.offset <= p.needed[i].1 + (#[trigger] blocks[i])@.len() {
        assert forall|i: int| 0 <= i < blocks.len() implies p.from(i) <= p.to(
            i,
            (#[trigger] blocks[i])@.len() as int,
        ) by {
            assert(p.needed[i].1 < p.end);
        }
    }
}

/// What a block gives to a read is the part of it that lies in the range.
pub proof fn block_gives_its_part_of_the_range(p: PlanView, i: int, n: int, k: int)
    requires
        p.wf(),
        0 <= i < p.needed.len(),
        0 <= k < n,
    ensures
        p.from(i) <= k < p.to(i, n) <==> p.offset <= p.needed[i].1 + k < p.end,
{
}

} // verus!
