//! Fetching blocks: from the cache, or from runs of the file that are read at once.

use crate::cache::{share, BlockCache};
use crate::catalog::{BlockRef, ChunkRef};
use crate::error::VaultError;
use crate::paths::normalize_path;
use crate::pipeline::decode_block;
use crate::vault::{Vault, VaultView};
use std::sync::Arc;
use vstd::prelude::*;

verus! {

/// Blocks that stand one behind the other in the file.
pub struct Run {
    start: u64,
    len: u128,
    parts: Vec<(crate::pipeline::Hash, BlockRef)>,
    next: usize,
}

/// A run as a value.
#[verifier::ext_equal]
pub struct RunView {
    /// Where the run starts in the file of the vault.
    pub start: u64,
    /// How many bytes it takes.
    pub len: nat,
    /// The blocks in it.
    pub parts: Seq<(crate::pipeline::Hash, BlockRef)>,
    /// The first chunk that was not looked at.
    pub next: nat,
}

impl View for Run {
    type V = RunView;

    closed spec fn view(&self) -> RunView {
        RunView {
            start: self.start,
            len: self.len as nat,
            parts: self.parts@,
            next: self.next as nat,
        }
    }
}

impl RunView {
    /// The blocks follow each other from the start of the run to its end.
    pub open spec fn wf(self) -> bool {
        &&& self.parts.len() > 0
        &&& self.parts[0].1.offset == self.start
        &&& self.start + self.len == self.parts.last().1.offset + self.parts.last().1.len
        &&& forall|i: int, j: int|
            #![trigger self.parts[i], self.parts[j]]
            0 <= i && j == i + 1 && j < self.parts.len() ==> self.parts[i].1.offset
                + self.parts[i].1.len == self.parts[j].1.offset
    }

    /// The bytes of the `i`-th block in what was read for the run.
    pub open spec fn slice(self, buf: Seq<u8>, i: int) -> Seq<u8> {
        let at = self.parts[i].1.offset - self.start;
        buf.subrange(at, at + self.parts[i].1.len)
    }
}

/// The first chunk at `i` or behind it that is not in the cache.
pub open spec fn first_uncached(
    needed: Seq<(crate::pipeline::Hash, u64)>,
    rows: Seq<(Seq<u8>, Seq<u8>)>,
    i: int,
) -> int
    decreases needed.len() - i,
{
    if i >= needed.len() {
        needed.len() as int
    } else if crate::cache::has_row(rows, needed[i].0@) {
        first_uncached(needed, rows, i + 1)
    } else {
        i
    }
}

/// Where a run that reaches `end` in the file and chunk `j` stops: at a chunk that is in the
/// cache or does not follow. `None` if a block is not in the index.
pub open spec fn run_stop(
    v: VaultView,
    needed: Seq<(crate::pipeline::Hash, u64)>,
    rows: Seq<(Seq<u8>, Seq<u8>)>,
    j: int,
    end: int,
) -> Option<int>
    decreases needed.len() - j,
{
    if j >= needed.len() {
        Some(needed.len() as int)
    } else if crate::cache::has_row(rows, needed[j].0@) {
        Some(j)
    } else if !v.catalog.blocks.contains_key(needed[j].0@) {
        None
    } else {
        let b = v.catalog.blocks[needed[j].0@];
        if b.offset == end {
            run_stop(v, needed, rows, j + 1, b.offset + b.len)
        } else {
            Some(j)
        }
    }
}

/// The next run of chunks that are not in the cache, from the `i`-th on.
pub open spec fn is_next_run(
    v: VaultView,
    needed: Seq<(crate::pipeline::Hash, u64)>,
    rows: Seq<(Seq<u8>, Seq<u8>)>,
    i: int,
    run: RunView,
) -> bool {
    let first = first_uncached(needed, rows, i);
    let blocks = v.catalog.blocks;
    &&& first < needed.len()
    &&& blocks.contains_key(needed[first].0@)
    &&& run_stop(
        v,
        needed,
        rows,
        first + 1,
        blocks[needed[first].0@].offset + blocks[needed[first].0@].len,
    ) == Some(run.next as int)
    &&& run.parts.len() == run.next - first
    &&& forall|k: int|
        0 <= k < run.parts.len() ==> (#[trigger] run.parts[k]).0 == needed[first + k].0
            && blocks.contains_key(run.parts[k].0@) && run.parts[k].1 == blocks[run.parts[k].0@]
}

/// The rows of the cache after the first `n` blocks of a run were put.
pub open spec fn after_run(
    rows: Seq<(Seq<u8>, Seq<u8>)>,
    cap: nat,
    run: RunView,
    buf: Seq<u8>,
    key: Option<Seq<u8>>,
    n: int,
) -> Seq<(Seq<u8>, Seq<u8>)>
    decreases n,
{
    if n <= 0 {
        rows
    } else {
        crate::cache::after_put(
            after_run(rows, cap, run, buf, key, n - 1),
            cap,
            run.parts[n - 1].0@,
            crate::pipeline::block_content(run.slice(buf, n - 1), key)->0,
        )
    }
}

impl Run {
    pub closed spec fn wf(self) -> bool {
        self@.wf()
    }

    /// Where the run starts in the file of the vault.
    pub fn start(&self) -> (r: u64)
        ensures
            r == self@.start,
    {
        self.start
    }

    /// How many bytes the run takes.
    pub fn len(&self) -> (r: u128)
        ensures
            r == self@.len,
    {
        self.len
    }

    /// The chunk to go on with.
    pub fn next(&self) -> (r: usize)
        ensures
            r == self@.next,
    {
        self.next
    }
}

/// Blocks of a run stand inside it.
pub proof fn lemma_run_inside(run: RunView, i: int)
    requires
        run.wf(),
        0 <= i < run.parts.len(),
    ensures
        run.start <= run.parts[i].1.offset,
        run.parts[i].1.offset + run.parts[i].1.len <= run.start + run.len,
{
    lemma_run_front(run, i);
    lemma_run_back(run, i);
}

proof fn lemma_run_front(run: RunView, i: int)
    requires
        run.wf(),
        0 <= i < run.parts.len(),
    ensures
        run.start <= run.parts[i].1.offset,
    decreases i,
{
    if i > 0 {
        lemma_run_front(run, i - 1);
        assert(run.parts[i - 1].1.offset + run.parts[i - 1].1.len == run.parts[i].1.offset);
    }
}

proof fn lemma_run_back(run: RunView, i: int)
    requires
        run.wf(),
        0 <= i < run.parts.len(),
    ensures
        run.parts[i].1.offset + run.parts[i].1.len <= run.start + run.len,
    decreases run.parts.len() - i,
{
    if i + 1 < run.parts.len() {
        lemma_run_back(run, i + 1);
        assert(run.parts[i].1.offset + run.parts[i].1.len == run.parts[i + 1].1.offset);
    } else {
        assert(run.parts.last() == run.parts[i]);
    }
}

/// Where a block is to be had.
pub enum Found {
    Cached(Arc<Vec<u8>>),
    Stored(BlockRef),
}

impl Vault {
    /// The next blocks to read for `needed`, from the `i`-th on, as far as they stand one
    /// behind the other; `None` if all that are left are in the cache.
    pub fn next_run(
        &self,
        cache: &BlockCache,
        needed: &Vec<(crate::pipeline::Hash, u64)>,
        i: usize,
    ) -> (r: Result<Option<Run>, VaultError>)
        requires
            self.wf(),
            cache.wf(),
            i <= needed@.len(),
        ensures
            match r {
                Ok(None) => first_uncached(needed@, cache.rows(), i as int) == needed@.len(),
                Ok(Some(run)) => run.wf() && i < run@.next <= needed@.len() && is_next_run(
                    self@,
                    needed@,
                    cache.rows(),
                    i as int,
                    run@,
                ),
                Err(e) => {
                    let first = first_uncached(needed@, cache.rows(), i as int);
                    let blocks = self@.catalog.blocks;
                    &&& e == VaultError::MissingBlock
                    &&& first < needed@.len()
                    &&& !blocks.contains_key(needed@[first].0@) || run_stop(
                        self@,
                        needed@,
                        cache.rows(),
                        first + 1,
                        blocks[needed@[first].0@].offset + blocks[needed@[first].0@].len,
                    ) is None
                },
            },
    {
        let ghost rows = cache.rows();
        let ghost blocks = self@.catalog.blocks;
        let mut first: usize = i;
        while first < needed.len() && cache.contains(&needed[first].0)
            invariant
                cache.wf(),
                rows == cache.rows(),
                i <= first <= needed@.len(),
                first_uncached(needed@, rows, first as int) == first_uncached(
                    needed@,
                    rows,
                    i as int,
                ),
            decreases needed@.len() - first,
        {
            first = first + 1;
        }
        if first == needed.len() {
            return Ok(None);
        }
        let hash = needed[first].0;
        let b: BlockRef = match self.catalog.blocks.get(&hash) {
            None => {
                return Err(VaultError::MissingBlock);
            },
            Some(b) => *b,
        };
        let start: u64 = b.offset;
        let mut end: u128 = b.offset as u128 + b.len as u128;
        let ghost end0 = end as int;
        let mut parts: Vec<(crate::pipeline::Hash, BlockRef)> = Vec::new();
        parts.push((hash, b));
        let mut j: usize = first + 1;
        while j < needed.len()
            invariant
                self.wf(),
                cache.wf(),
                rows == cache.rows(),
                blocks == self@.catalog.blocks,
                i <= first < j <= needed@.len(),
                first == first_uncached(needed@, rows, i as int),
                blocks.contains_key(needed@[first as int].0@),
                b == blocks[needed@[first as int].0@],
                start == b.offset,
                end0 == b.offset + b.len,
                parts@.len() == j - first,
                parts@[0].1.offset == start,
                end == parts@.last().1.offset + parts@.last().1.len,
                forall|k: int, l: int|
                    #![trigger parts@[k], parts@[l]]
                    0 <= k && l == k + 1 && l < parts@.len() ==> parts@[k].1.offset
                        + parts@[k].1.len == parts@[l].1.offset,
                forall|k: int|
                    0 <= k < parts@.len() ==> (#[trigger] parts@[k]).0 == needed@[first + k].0
                        && blocks.contains_key(parts@[k].0@) && parts@[k].1 == blocks[parts@[k].0@],
                start <= end,
                run_stop(self@, needed@, rows, j as int, end as int) == run_stop(
                    self@,
                    needed@,
                    rows,
                    first + 1,
                    end0,
                ),
            ensures
                i <= first < j <= needed@.len(),
                parts@.len() == j - first,
                parts@[0].1.offset == start,
                end == parts@.last().1.offset + parts@.last().1.len,
                forall|k: int, l: int|
                    #![trigger parts@[k], parts@[l]]
                    0 <= k && l == k + 1 && l < parts@.len() ==> parts@[k].1.offset
                        + parts@[k].1.len == parts@[l].1.offset,
                forall|k: int|
                    0 <= k < parts@.len() ==> (#[trigger] parts@[k]).0 == needed@[first + k].0
                        && blocks.contains_key(parts@[k].0@) && parts@[k].1 == blocks[parts@[k].0@],
                start <= end,
                run_stop(self@, needed@, rows, first + 1, end0) == Some(j as int),
            decreases needed@.len() - j,
        {
            let h2 = needed[j].0;
            if cache.contains(&h2) {
                break;
            }
            let b2: BlockRef = match self.catalog.blocks.get(&h2) {
                None => {
                    return Err(VaultError::MissingBlock);
                },
                Some(b2) => *b2,
            };
            if b2.offset as u128 != end {
                break;
            }
            let ghost before = parts@;
            end = b2.offset as u128 + b2.len as u128;
            parts.push((h2, b2));
            proof {
                assert forall|k: int, l: int|
                    #![trigger parts@[k], parts@[l]]
                    0 <= k && l == k + 1 && l < parts@.len() implies parts@[k].1.offset
                    + parts@[k].1.len == parts@[l].1.offset by {
                    assert(parts@[k] == before[k]);
                    if l < before.len() {
                        assert(parts@[l] == before[l]);
                    } else {
                        assert(before.last() == before[k]);
                    }
                }
                assert forall|k: int| 0 <= k < parts@.len() implies (#[trigger] parts@[k]).0
                    == needed@[first + k].0 && blocks.contains_key(parts@[k].0@) && parts@[k].1
                    == blocks[parts@[k].0@] by {
                    if k < before.len() {
                        assert(parts@[k] == before[k]);
                    }
                }
            }
            j = j + 1;
        }
        let len: u128 = end - start as u128;
        Ok(Some(Run { start, len, parts, next: j }))
    }

    /// Decodes the blocks of a run and keeps them in the cache.
    pub fn absorb_run(&self, cache: &mut BlockCache, run: &Run, buf: &[u8]) -> (r: Result<
        (),
        VaultError,
    >)
        requires
            self.wf(),
            old(cache).wf(),
            run.wf(),
            buf@.len() == run@.len,
        ensures
            final(cache).wf(),
            final(cache).cap() == old(cache).cap(),
            match r {
                Ok(()) => {
                    &&& final(cache).rows() == after_run(
                        old(cache).rows(),
                        old(cache).cap(),
                        run@,
                        buf@,
                        self@.key(),
                        run@.parts.len() as int,
                    )
                    &&& forall|k: int|
                        0 <= k < run@.parts.len() ==> crate::pipeline::block_content(
                            #[trigger] run@.slice(buf@, k),
                            self@.key(),
                        ) is Some
                },
                Err(e) => exists|k: int|
                    {
                        &&& 0 <= k < run@.parts.len()
                        &&& forall|j: int|
                            0 <= j < k ==> crate::pipeline::block_content(
                                #[trigger] run@.slice(buf@, j),
                                self@.key(),
                            ) is Some
                        &&& undecodable(#[trigger] run@.slice(buf@, k), self@.key(), e)
                        &&& final(cache).rows() == after_run(
                            old(cache).rows(),
                            old(cache).cap(),
                            run@,
                            buf@,
                            self@.key(),
                            k,
                        )
                    },
            },
    {
        let ghost rows0 = cache.rows();
        let ghost cap = cache.cap();
        let size: usize = buf.len();
        let mut i: usize = 0;
        while i < run.parts.len()
            invariant
                i <= run@.parts.len(),
                run@.parts == run.parts@,
                run@.start == run.start,
                self.wf(),
                cache.wf(),
                cache.cap() == cap,
                run.wf(),
                run@.wf(),
                buf@.len() == run@.len,
                size == buf@.len(),
                rows0 == old(cache).rows(),
                cap == old(cache).cap(),
                cache.rows() == after_run(rows0, cap, run@, buf@, self@.key(), i as int),
                forall|k: int|
                    0 <= k < i ==> crate::pipeline::block_content(
                        #[trigger] run@.slice(buf@, k),
                        self@.key(),
                    ) is Some,
            decreases run@.parts.len() - i,
        {
            let (hash, b) = run.parts[i];
            proof {
                lemma_run_inside(run@, i as int);
            }
            let at: usize = (b.offset - run.start) as usize;
            let stored = vstd::slice::slice_subrange(buf, at, at + b.len as usize);
            assert(stored@ == run@.slice(buf@, i as int));
            match decode_block(stored, self.key()) {
                Err(e) => {
                    assert(undecodable(run@.slice(buf@, i as int), self@.key(), e));
                    return Err(e);
                },
                Ok(data) => {
                    cache.put(hash, Arc::new(data));
                },
            }
            i = i + 1;
        }
        Ok(())
    }

    /// Looks for a block in the cache and then in the index.
    pub fn find_block(&self, cache: &BlockCache, hash: &crate::pipeline::Hash) -> (r: Result<
        Found,
        VaultError,
    >)
        requires
            self.wf(),
            cache.wf(),
        ensures
            match r {
                Ok(Found::Cached(data)) => exists|i: int|
                    0 <= i < cache.rows().len() && #[trigger] cache.rows()[i] == (hash@, data@),
                Ok(Found::Stored(b)) => !crate::cache::has_row(cache.rows(), hash@)
                    && self@.catalog.blocks.contains_key(hash@) && b
                    == self@.catalog.blocks[hash@],
                Err(e) => e == VaultError::MissingBlock && !crate::cache::has_row(
                    cache.rows(),
                    hash@,
                ) && !self@.catalog.blocks.contains_key(hash@),
            },
    {
        match cache.get(hash) {
            Some(data) => Ok(Found::Cached(data)),
            None => match self.catalog.blocks.get(hash) {
                Some(b) => Ok(Found::Stored(*b)),
                None => Err(VaultError::MissingBlock),
            },
        }
    }

    /// Decodes a block that was read and keeps it in the cache.
    pub fn admit_block(
        &self,
        cache: &mut BlockCache,
        hash: &crate::pipeline::Hash,
        stored: &[u8],
    ) -> (r: Result<Arc<Vec<u8>>, VaultError>)
        requires
            self.wf(),
            old(cache).wf(),
        ensures
            final(cache).wf(),
            final(cache).cap() == old(cache).cap(),
            match r {
                Ok(data) => {
                    &&& crate::pipeline::block_content(stored@, self@.key()) == Some(data@)
                    &&& final(cache).rows() == crate::cache::after_put(
                        old(cache).rows(),
                        old(cache).cap(),
                        hash@,
                        data@,
                    )
                },
                Err(e) => final(cache).rows() == old(cache).rows() && undecodable(
                    stored@,
                    self@.key(),
                    e,
                ),
            },
    {
        match decode_block(stored, self.key()) {
            Err(e) => Err(e),
            Ok(data) => {
                let data = Arc::new(data);
                cache.put(*hash, share(&data));
                Ok(data)
            },
        }
    }

    /// The addresses of the blocks of a file, in order.
    pub fn extract(&self, logical: &str) -> (r: Result<Vec<crate::pipeline::Hash>, VaultError>)
        requires
            self.wf(),
        ensures
            match r {
                Ok(hashes) => {
                    let path = crate::paths::normal(logical@);
                    &&& self@.catalog.files.contains_key(path)
                    &&& hashes@ == self@.catalog.files[path].chunks.map_values(
                        |c: ChunkRef| c.hash,
                    )
                },
                Err(e) => e == VaultError::FileNotFound && !self@.catalog.files.contains_key(
                    crate::paths::normal(logical@),
                ),
            },
    {
        let path = normalize_path(logical);
        match self.catalog.files.get(&path) {
            None => Err(VaultError::FileNotFound),
            Some(entry) => {
                let mut hashes: Vec<crate::pipeline::Hash> = Vec::new();
                let mut i: usize = 0;
                while i < entry.chunks.len()
                    invariant
                        i <= entry.chunks@.len(),
                        hashes@.len() == i,
                        forall|j: int| 0 <= j < i ==> hashes@[j] == entry.chunks@[j].hash,
                    decreases entry.chunks@.len() - i,
                {
                    hashes.push(entry.chunks[i].hash);
                    i = i + 1;
                }
                assert(hashes@ =~= entry@.chunks.map_values(|c: ChunkRef| c.hash));
                Ok(hashes)
            },
        }
    }
}

/// Decoding the stored block fails with `e`.
pub open spec fn undecodable(stored: Seq<u8>, key: Option<Seq<u8>>, e: VaultError) -> bool {
    crate::pipeline::block_decoded(stored, key) == Err::<Seq<u8>, VaultError>(e)
}

proof fn lemma_first_uncached(
    needed: Seq<(crate::pipeline::Hash, u64)>,
    rows: Seq<(Seq<u8>, Seq<u8>)>,
    i: int,
)
    requires
        0 <= i <= needed.len(),
    ensures
        i <= first_uncached(needed, rows, i) <= needed.len(),
        forall|k: int|
            i <= k < first_uncached(needed, rows, i) ==> crate::cache::has_row(
                rows,
                (#[trigger] needed[k]).0@,
            ),
        first_uncached(needed, rows, i) < needed.len() ==> !crate::cache::has_row(
            rows,
            needed[first_uncached(needed, rows, i)].0@,
        ),
    decreases needed.len() - i,
{
    if i < needed.len() && crate::cache::has_row(rows, needed[i].0@) {
        lemma_first_uncached(needed, rows, i + 1);
    }
}

proof fn lemma_run_stop(
    v: VaultView,
    needed: Seq<(crate::pipeline::Hash, u64)>,
    rows: Seq<(Seq<u8>, Seq<u8>)>,
    j: int,
    end: int,
)
    requires
        1 <= j <= needed.len(),
        v.catalog.blocks.contains_key(needed[j - 1].0@),
        end == v.catalog.blocks[needed[j - 1].0@].offset + v.catalog.blocks[needed[j - 1].0@].len,
    ensures
        run_stop(v, needed, rows, j, end) matches Some(stop) ==> {
            let blocks = v.catalog.blocks;
            &&& j <= stop <= needed.len()
            &&& forall|k: int|
                j <= k < stop ==> !crate::cache::has_row(rows, (#[trigger] needed[k]).0@)
                    && blocks.contains_key(needed[k].0@) && blocks[needed[k].0@].offset
                    == blocks[needed[k - 1].0@].offset + blocks[needed[k - 1].0@].len
            &&& stop < needed.len() && !crate::cache::has_row(rows, needed[stop].0@)
                ==> blocks.contains_key(needed[stop].0@) && blocks[needed[stop].0@].offset
                != blocks[needed[stop - 1].0@].offset + blocks[needed[stop - 1].0@].len
        },
    decreases needed.len() - j,
{
    if j < needed.len() && !crate::cache::has_row(rows, needed[j].0@)
        && v.catalog.blocks.contains_key(needed[j].0@) {
        let b = v.catalog.blocks[needed[j].0@];
        if b.offset == end {
            lemma_run_stop(v, needed, rows, j + 1, b.offset + b.len);
        }
    }
}

/// A run reads, from the first block that is needed and not in the cache on, as many blocks at
/// once as lie right behind each other: it stops only at the end, at a block that is in the
/// cache, or at one that lies elsewhere.
pub proof fn run_is_as_long_as_it_can_be(
    v: VaultView,
    needed: Seq<(crate::pipeline::Hash, u64)>,
    rows: Seq<(Seq<u8>, Seq<u8>)>,
    i: int,
    run: RunView,
)
    requires
        0 <= i <= needed.len(),
        is_next_run(v, needed, rows, i, run),
    ensures
        ({
            let blocks = v.catalog.blocks;
            let first = run.next - run.parts.len();
            let stop = run.next as int;
            &&& i <= first < stop <= needed.len()
            &&& forall|k: int|
                i <= k < first ==> exists|r: int|
                    0 <= r < rows.len() && (#[trigger] rows[r]).0 == (#[trigger] needed[k]).0@
            &&& forall|k: int, r: int|
                #![trigger needed[k], rows[r]]
                first <= k < stop && 0 <= r < rows.len() ==> rows[r].0 != needed[k].0@
            &&& forall|k: int|
                first <= k < stop ==> run.parts[k - first] == (
                    (#[trigger] needed[k]).0,
                    blocks[needed[k].0@],
                ) && blocks.contains_key(needed[k].0@)
            &&& forall|k: int|
                first < k < stop ==> blocks[(#[trigger] needed[k]).0@].offset
                    == blocks[needed[k - 1].0@].offset + blocks[needed[k - 1].0@].len
            &&& stop < needed.len() ==> (exists|r: int|
                0 <= r < rows.len() && (#[trigger] rows[r]).0 == needed[stop].0@)
                || blocks[needed[stop].0@].offset != blocks[needed[stop - 1].0@].offset
                + blocks[needed[stop - 1].0@].len
        }),
{
    let blocks = v.catalog.blocks;
    let first = first_uncached(needed, rows, i);
    lemma_first_uncached(needed, rows, i);
    lemma_run_stop(
        v,
        needed,
        rows,
        first + 1,
        blocks[needed[first].0@].offset + blocks[needed[first].0@].len,
    );
    assert forall|k: int| i <= k < first implies exists|r: int|
        0 <= r < rows.len() && (#[trigger] rows[r]).0 == (#[trigger] needed[k]).0@ by {
        assert(crate::cache::has_row(rows, needed[k].0@));
    }
    assert forall|k: int| first <= k < run.next implies run.parts[k - first] == (
        (#[trigger] needed[k]).0,
        blocks[needed[k].0@],
    ) && blocks.contains_key(needed[k].0@) by {
        assert(run.parts[k - first].0 == needed[first + (k - first)].0);
    }
}

/// Nothing is read exactly if every block that is needed is in the cache.
pub proof fn nothing_is_read_twice(
    needed: Seq<(crate::pipeline::Hash, u64)>,
    rows: Seq<(Seq<u8>, Seq<u8>)>,
    i: int,
)
    requires
        0 <= i <= needed.len(),
    ensures
        first_uncached(needed, rows, i) == needed.len() <==> forall|k: int|
            i <= k < needed.len() ==> exists|r: int|
                0 <= r < rows.len() && (#[trigger] rows[r]).0 == (#[trigger] needed[k]).0@,
{
    lemma_first_uncached(needed, rows, i);
    let first = first_uncached(needed, rows, i);
    if first == needed.len() {
        assert forall|k: int| i <= k < needed.len() implies exists|r: int|
            0 <= r < rows.len() && (#[trigger] rows[r]).0 == (#[trigger] needed[k]).0@ by {
            assert(crate::cache::has_row(rows, needed[k].0@));
        }
    } else {
        assert(needed[first] == needed[first]);
    }
}

/// A run puts the content of each of its blocks into the cache, in order: the block at `k` is
/// there when it was put, if it is not longer than the limit, and is put on top of those before.
pub proof fn run_fills_the_cache(
    rows: Seq<(Seq<u8>, Seq<u8>)>,
    cap: nat,
    run: RunView,
    buf: Seq<u8>,
    key: Option<Seq<u8>>,
    k: int,
    data: Seq<u8>,
)
    requires
        0 <= k < run.parts.len(),
        crate::pipeline::block_content(
            buf.subrange(
                run.parts[k].1.offset - run.start,
                run.parts[k].1.offset - run.start + run.parts[k].1.len,
            ),
            key,
        ) == Some(data),
    ensures
        after_run(rows, cap, run, buf, key, 0) == rows,
        after_run(rows, cap, run, buf, key, k + 1) == crate::cache::after_put(
            after_run(rows, cap, run, buf, key, k),
            cap,
            run.parts[k].0@,
            data,
        ),
        data.len() <= cap ==> crate::cache::has_row(
            after_run(rows, cap, run, buf, key, k + 1),
            run.parts[k].0@,
        ),
{
    if data.len() <= cap {
        crate::cache::newest_block_stays(
            after_run(rows, cap, run, buf, key, k),
            cap,
            run.parts[k].0@,
            data,
        );
    }
}

/// A block that cannot be decoded is told with the error that decoding it gives.
pub proof fn undecodable_block_tells_its_error(
    stored: Seq<u8>,
    key: Option<Seq<u8>>,
    e: VaultError,
)
    ensures
        undecodable(stored, key, e) <==> crate::pipeline::block_decoded(stored, key) == Err::<
            Seq<u8>,
            VaultError,
        >(e),
        undecodable(stored, key, e) ==> crate::pipeline::block_content(stored, key) is None,
        crate::pipeline::block_content(stored, key) is None ==> exists|x: VaultError| #[trigger]
            undecodable(stored, key, x),
{
    match crate::pipeline::block_decoded(stored, key) {
        Err(x) => {
            assert(undecodable(stored, key, x));
        },
        Ok(data) => {},
    }
}

} // verus!
