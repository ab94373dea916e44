//! Cutting content into chunks at boundaries that the content itself sets.

use crate::catalog::ChunkRef;

use vstd::prelude::*;

verus! {

/// The average chunk size that new vaults aim at.
pub const DEFAULT_AVG_CHUNK: u32 = 65536;

/// The longest chunk that the cutter makes.
pub const MAX_CHUNK: u32 = 16_777_216;

/// The smallest, average and largest chunk for an average aimed at.
#[derive(Clone, Copy, Debug, PartialEq, Eq, Structural)]
pub struct CdcParams {
    pub min: u32,
    pub avg: u32,
    pub max: u32,
}

impl CdcParams {
    /// The cutter accepts these sizes.
    pub open spec fn valid(self) -> bool {
        &&& 64 <= self.min <= 1_048_576
        &&& 256 <= self.avg <= 4_194_304
        &&& 1024 <= self.max <= 16_777_216
        &&& self.min <= self.avg <= self.max
    }
}

/// The average, held between the bounds of the cutter.
pub open spec fn clamped_avg(target: u32) -> u32 {
    if target < 256 {
        256
    } else if target > 4_194_304 {
        4_194_304
    } else {
        target
    }
}

/// The sizes that an average of `target` bytes leads to.
pub open spec fn params_for(target: u32) -> CdcParams {
    let avg = clamped_avg(target);
    CdcParams { min: (avg / 4) as u32, avg, max: (avg * 4) as u32 }
}

/// The sizes for an average of `target_avg` bytes: the average itself within the bounds of the
/// cutter, a quarter of it and four times it.
pub fn cdc_params(target_avg: u32) -> (r: CdcParams)
    ensures
        r == params_for(target_avg),
        r.valid(),
{
    let avg: u32 = if target_avg < 256 {
        256
    } else if target_avg > 4_194_304 {
        4_194_304
    } else {
        target_avg
    };
    CdcParams { min: avg / 4, avg, max: avg * 4 }
}

/// The cuts that FastCDC makes in `data`: for each chunk where it starts and how long it is.
pub uninterp spec fn fastcdc_cuts(data: Seq<u8>, min: u32, avg: u32, max: u32) -> Seq<
    (usize, usize),
>;

/// The chunks follow each other from 0 to `n`; none is empty or longer than `max`.
pub open spec fn tiles(cuts: Seq<(usize, usize)>, n: nat, max: nat) -> bool {
    &&& cuts.len() == 0 <==> n == 0
    &&& cuts.len() > 0 ==> cuts[0].0 == 0 && cuts.last().0 + cuts.last().1 == n
    &&& forall|i: int| 0 <= i < cuts.len() ==> 0 < (#[trigger] cuts[i]).1 <= max
    &&& forall|i: int, j: int|
        #![trigger cuts[i], cuts[j]]
        0 <= i && j == i + 1 && j < cuts.len() ==> cuts[i].0 + cuts[i].1 == cuts[j].0
}

/// Iterates over `fastcdc::v2020::FastCDC`. The chunks it gives follow each other without a gap
/// from the start of the data to its end, none of them empty or longer than `max`.
#[verifier::external_body]
pub(crate) fn cut_points(data: &[u8], params: CdcParams) -> (r: Vec<(usize, usize)>)
    requires
        params.valid(),
    ensures
        r@ == fastcdc_cuts(data@, params.min, params.avg, params.max),
        tiles(r@, data@.len(), params.max as nat),
{
    fastcdc::v2020::FastCDC::new(data, params.min, params.avg, params.max)
        .map(|c| (c.offset, c.length))
        .collect()
}

/// Where chunk `i` of a file starts.
pub open spec fn chunk_start(chunks: Seq<ChunkRef>, i: int) -> nat
    decreases i,
{
    if i <= 0 {
        0
    } else {
        chunk_start(chunks, i - 1) + chunks[i - 1].len as nat
    }
}

/// The chunks, one after the other, are the content `bytes`.
#[verifier::opaque]
pub open spec fn describes(chunks: Seq<ChunkRef>, bytes: Seq<u8>) -> bool {
    &&& chunk_start(chunks, chunks.len() as int) == bytes.len()
    &&& forall|i: int|
        0 <= i < chunks.len() ==> (#[trigger] chunks[i]).hash@
            == crate::pipeline::blake3_digest(
            bytes.subrange(chunk_start(chunks, i) as int, chunk_start(chunks, i + 1) as int),
        )
}

/// `c` is the chunk of `data` that `cut` marks.
pub open spec fn is_cut(c: ChunkRef, data: Seq<u8>, cut: (usize, usize)) -> bool {
    &&& c.len == cut.1
    &&& c.hash@ == crate::pipeline::blake3_digest(data.subrange(cut.0 as int, cut.0 + cut.1))
}

/// `chunks` are the chunks of `data` that `cuts` mark.
pub open spec fn follow_cuts(
    chunks: Seq<ChunkRef>,
    data: Seq<u8>,
    cuts: Seq<(usize, usize)>,
) -> bool {
    chunks.len() == cuts.len() && forall|i: int|
        0 <= i < cuts.len() ==> is_cut(#[trigger] chunks[i], data, cuts[i])
}

/// The chunk positions only depend on the chunks in front.
pub proof fn lemma_start_take(chunks: Seq<ChunkRef>, more: Seq<ChunkRef>, i: int)
    requires
        i <= chunks.len() <= more.len(),
        more.take(chunks.len() as int) == chunks,
    ensures
        chunk_start(more, i) == chunk_start(chunks, i),
    decreases i,
{
    if i > 0 {
        lemma_start_take(chunks, more, i - 1);
        assert(more.take(chunks.len() as int)[i - 1] == more[i - 1]);
    }
}

/// Later chunks start later.
pub proof fn lemma_start_monotone(chunks: Seq<ChunkRef>, i: int, j: int)
    requires
        0 <= i <= j,
    ensures
        chunk_start(chunks, i) <= chunk_start(chunks, j),
    decreases j - i,
{
    if i < j {
        lemma_start_monotone(chunks, i, j - 1);
    }
}

/// In a tiling each cut ends inside the data.
pub proof fn lemma_tiles_bounds(cuts: Seq<(usize, usize)>, n: nat, max: nat, i: int)
    requires
        tiles(cuts, n, max),
        0 <= i < cuts.len(),
    ensures
        cuts[i].0 + cuts[i].1 <= n,
    decreases cuts.len() - i,
{
    if i + 1 < cuts.len() {
        lemma_tiles_bounds(cuts, n, max, i + 1);
        assert(cuts[i].0 + cuts[i].1 == cuts[i + 1].0);
    } else {
        assert(cuts.last() == cuts[i]);
    }
}

/// Chunks that follow a tiling start where the cuts do.
pub proof fn lemma_cut_starts(
    chunks: Seq<ChunkRef>,
    data: Seq<u8>,
    cuts: Seq<(usize, usize)>,
    max: nat,
    i: int,
)
    requires
        follow_cuts(chunks, data, cuts),
        tiles(cuts, data.len(), max),
        0 <= i < cuts.len(),
    ensures
        chunk_start(chunks, i) == cuts[i].0,
    decreases i,
{
    if i > 0 {
        lemma_cut_starts(chunks, data, cuts, max, i - 1);
        assert(is_cut(chunks[i - 1], data, cuts[i - 1]));
        assert(cuts[i - 1].0 + cuts[i - 1].1 == cuts[i].0);
    }
}

/// The chunks that a tiling marks are the content.
pub proof fn lemma_cuts_describe(
    chunks: Seq<ChunkRef>,
    data: Seq<u8>,
    cuts: Seq<(usize, usize)>,
    max: nat,
)
    requires
        follow_cuts(chunks, data, cuts),
        tiles(cuts, data.len(), max),
    ensures
        describes(chunks, data),
{
    reveal(describes);
    let n = cuts.len() as int;
    if n > 0 {
        lemma_cut_starts(chunks, data, cuts, max, n - 1);
        assert(is_cut(chunks[n - 1], data, cuts[n - 1]));
        assert(cuts.last() == cuts[n - 1]);
        assert(chunk_start(chunks, n) == data.len());
    }
    assert forall|i: int| 0 <= i < chunks.len() implies (#[trigger] chunks[i]).hash@
        == crate::pipeline::blake3_digest(
        data.subrange(chunk_start(chunks, i) as int, chunk_start(chunks, i + 1) as int),
    ) by {
        lemma_cut_starts(chunks, data, cuts, max, i);
        assert(is_cut(chunks[i], data, cuts[i]));
    }
}

/// The chunks of `a`, then those of `b`, are the content of `a` and then that of `b`.
pub proof fn lemma_describes_concat(
    a: Seq<ChunkRef>,
    x: Seq<u8>,
    b: Seq<ChunkRef>,
    y: Seq<u8>,
)
    requires
        describes(a, x),
        describes(b, y),
    ensures
        describes(a + b, x + y),
{
    reveal(describes);
    let c = a + b;
    let n = a.len() as int;
    assert(c.take(n) =~= a);
    assert forall|i: int| 0 <= i <= b.len() implies #[trigger] chunk_start(c, n + i) == x.len()
        + chunk_start(b, i) by {
        lemma_start_concat(a, b, i);
    }
    assert(chunk_start(c, n + b.len()) == x.len() + y.len());
    assert forall|i: int| 0 <= i < c.len() implies (#[trigger] c[i]).hash@
        == crate::pipeline::blake3_digest(
        (x + y).subrange(chunk_start(c, i) as int, chunk_start(c, i + 1) as int),
    ) by {
        if i < n {
            lemma_start_take(a, c, i);
            lemma_start_take(a, c, i + 1);
            lemma_start_monotone(a, i, i + 1);
            lemma_start_monotone(a, i + 1, n);
            assert((x + y).subrange(chunk_start(a, i) as int, chunk_start(a, i + 1) as int)
                =~= x.subrange(chunk_start(a, i) as int, chunk_start(a, i + 1) as int));
            assert(c[i] == a[i]);
        } else {
            let k = i - n;
            assert(chunk_start(c, n + k) == x.len() + chunk_start(b, k));
            assert(chunk_start(c, n + (k + 1)) == x.len() + chunk_start(b, k + 1));
            lemma_start_monotone(b, k, k + 1);
            lemma_start_monotone(b, k + 1, b.len() as int);
            assert((x + y).subrange(chunk_start(c, i) as int, chunk_start(c, i + 1) as int)
                =~= y.subrange(chunk_start(b, k) as int, chunk_start(b, k + 1) as int));
            assert(c[i] == b[k]);
        }
    }
}

pub proof fn lemma_start_concat(a: Seq<ChunkRef>, b: Seq<ChunkRef>, i: int)
    requires
        0 <= i <= b.len(),
    ensures
        chunk_start(a + b, a.len() + i) == chunk_start(a, a.len() as int) + chunk_start(b, i),
    decreases i,
{
    if i > 0 {
        lemma_start_concat(a, b, i - 1);
        assert((a + b)[a.len() + i - 1] == b[i - 1]);
    } else {
        assert((a + b).take(a.len() as int) =~= a);
        lemma_start_take(a, a + b, a.len() as int);
    }
}

/// The file of a single chunk.
pub proof fn lemma_describes_one(c: ChunkRef, data: Seq<u8>)
    requires
        c.len == data.len(),
        c.hash@ == crate::pipeline::blake3_digest(data),
    ensures
        describes(seq![c], data),
{
    reveal(describes);
    let s = seq![c];
    assert(chunk_start(s, 0) == 0);
    assert(chunk_start(s, 1) == c.len);
    assert(data.subrange(0, data.len() as int) =~= data);
}

/// No chunks are no content.
pub proof fn lemma_describes_nothing()
    ensures
        describes(Seq::<ChunkRef>::empty(), Seq::<u8>::empty()),
{
    reveal(describes);
}

/// The chunks of a file begin at its start, and each where the one in front of it ends.
pub proof fn chunks_follow_each_other(chunks: Seq<ChunkRef>, i: int)
    requires
        0 <= i < chunks.len(),
    ensures
        chunk_start(chunks, 0) == 0,
        chunk_start(chunks, i + 1) == chunk_start(chunks, i) + chunks[i].len,
{
}

/// The average length of chunks is the one asked for, as far as the limits of the cutting let it
/// be; the shortest ones have a quarter of it and the longest ones four times as much.
pub proof fn chunk_lengths_follow_the_target(target: u32)
    ensures
        256 <= target <= 4_194_304 ==> params_for(target).avg == target,
        target <= 256 ==> params_for(target).avg == 256,
        target >= 4_194_304 ==> params_for(target).avg == 4_194_304,
        params_for(target).max == 4 * params_for(target).avg,
        4 * params_for(target).min <= params_for(target).avg < 4 * params_for(target).min + 4,
{
}

} // verus!
