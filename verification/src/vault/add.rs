//! Taking a file in chunk by chunk, and taking back blocks that could not be written.

use crate::catalog::{ChunkRef, FileEntry};
use crate::error::VaultError;
use crate::paths::normalize_path;
use crate::vault::write::BlockWrite;
use crate::vault::{Vault, VaultView};
use vstd::prelude::*;

verus! {

/// A file that is being taken in.
pub struct Intake {
    chunks: Vec<ChunkRef>,
    total: u64,
}

/// An intake as a value.
#[verifier::ext_equal]
pub struct IntakeView {
    pub chunks: Seq<ChunkRef>,
    pub total: u64,
}

impl View for Intake {
    type V = IntakeView;

    closed spec fn view(&self) -> IntakeView {
        IntakeView { chunks: self.chunks@, total: self.total }
    }
}

impl IntakeView {
    /// `bytes` were taken in so far.
    pub open spec fn holds(self, bytes: Seq<u8>) -> bool {
        self.total == bytes.len() && crate::chunking::describes(self.chunks, bytes)
    }
}

impl Intake {
    pub fn new() -> (r: Self)
        ensures
            r@ == (IntakeView { chunks: Seq::empty(), total: 0 }),
            r@.holds(Seq::empty()),
    {
        let r = Intake { chunks: Vec::new(), total: 0 };
        proof {
            crate::chunking::lemma_describes_nothing();
            assert(r@.chunks =~= Seq::empty());
        }
        r
    }

    /// How many bytes were taken in.
    pub fn total(&self) -> (r: u64)
        ensures
            r == self@.total,
    {
        self.total
    }
}

/// The one block that storing `data` needs, if it needs one.
pub open spec fn stored_one(
    v0: VaultView,
    v: VaultView,
    data: Seq<u8>,
    out0: Seq<BlockWrite>,
    out: Seq<BlockWrite>,
) -> bool {
    if v0.catalog.blocks.contains_key(crate::pipeline::blake3_digest(data)) {
        v == v0 && out == out0
    } else {
        &&& out.len() == out0.len() + 1
        &&& out.drop_last() == out0
        &&& crate::vault::write::is_write(v0, out.last(), data)
        &&& v == crate::vault::write::after_write(v0, out.last())
    }
}

/// The addresses of the blocks that `ws` write.
pub open spec fn addresses(ws: Seq<BlockWrite>) -> Set<Seq<u8>> {
    Set::new(|h: Seq<u8>| exists|i: int| 0 <= i < ws.len() && (#[trigger] ws[i]).hash@ == h)
}

/// `v` without the blocks of `ws`, which start at the first of them.
pub open spec fn taken_back(v: VaultView, ws: Seq<BlockWrite>) -> VaultView {
    if ws.len() == 0 {
        v
    } else {
        crate::vault::with_blocks(
            v,
            v.catalog.blocks.remove_keys(addresses(ws)),
            ws[0].offset,
        )
    }
}

/// `v` with the file that was taken in at its path.
pub open spec fn added(
    v: VaultView,
    intake: IntakeView,
    dest: Seq<char>,
    mtime: i64,
) -> VaultView {
    crate::vault::with_tree(
        v,
        v.catalog.files.insert(
            crate::paths::normal(dest),
            crate::catalog::FileView { size: intake.total, mtime, chunks: intake.chunks },
        ),
        v.catalog.dirs,
    )
}

impl Vault {
    /// Takes in the next chunk of a file and returns how many bytes were taken in so far.
    pub fn add_chunk(&mut self, intake: &mut Intake, data: &[u8], out: &mut Vec<BlockWrite>) -> (r:
        Result<u64, VaultError>)
        requires
            old(self).wf(),
            data@.len() <= crate::chunking::MAX_CHUNK,
            old(self)@.next_append + data@.len() + 41 <= u64::MAX,
            old(intake)@.total + data@.len() <= u64::MAX,
        ensures
            final(self).wf(),
            r is Ok == crate::vault::write::storable(old(self)@, data@),
            match r {
                Ok(total) => {
                    &&& total == final(intake)@.total
                    &&& total == old(intake)@.total + data@.len()
                    &&& final(intake)@.chunks.len() == old(intake)@.chunks.len() + 1
                    &&& final(intake)@.chunks.drop_last() == old(intake)@.chunks
                    &&& final(intake)@.chunks.last().len == data@.len()
                    &&& final(intake)@.chunks.last().hash@ == crate::pipeline::blake3_digest(data@)
                    &&& stored_one(old(self)@, final(self)@, data@, old(out)@, final(out)@)
                    &&& forall|b: Seq<u8>| #[trigger]
                        old(intake)@.holds(b) ==> final(intake)@.holds(b + data@)
                },
                Err(e) => {
                    &&& final(self)@ == old(self)@
                    &&& final(intake)@ == old(intake)@
                    &&& final(out)@ == old(out)@
                    &&& crate::vault::write::refused(old(self)@, data@, e)
                },
            },
    {
        match self.write_block(data, out) {
            Err(e) => Err(e),
            Ok(hash) => {
                let ghost before = intake@;
                let c = ChunkRef { hash, len: data.len() as u32 };
                intake.chunks.push(c);
                intake.total = intake.total + data.len() as u64;
                proof {
                    assert(intake@.chunks.drop_last() =~= before.chunks);
                    assert forall|b: Seq<u8>| #[trigger] before.holds(b) implies intake@.holds(
                        b + data@,
                    ) by {
                        crate::chunking::lemma_describes_one(c, data@);
                        crate::chunking::lemma_describes_concat(
                            before.chunks,
                            b,
                            seq![c],
                            data@,
                        );
                        assert(before.chunks + seq![c] =~= intake@.chunks);
                    }
                }
                Ok(intake.total)
            },
        }
    }

    /// Links the file that was taken in, in place of what was at its path. Explicit
    /// directories stay as they are.
    pub fn finish_add(&mut self, intake: Intake, dest: &str, mtime: i64)
        requires
            old(self).wf(),
        ensures
            final(self).wf(),
            final(self)@ == added(old(self)@, intake@, dest@, mtime),
    {
        let path = normalize_path(dest);
        self.catalog.files.insert(
            path,
            FileEntry { size: intake.total, mtime, chunks: intake.chunks },
        );
    }

    /// Takes back the blocks of `ws[from..]`, which could not be written.
    pub fn retract(&mut self, ws: &Vec<BlockWrite>, from: usize)
        requires
            old(self).wf(),
            from <= ws@.len(),
        ensures
            final(self).wf(),
            final(self)@ == taken_back(old(self)@, ws@.skip(from as int)),
    {
        let ghost before = self@;
        let ghost undone = ws@.skip(from as int);
        if from == ws.len() {
            return ;
        }
        let mut i: usize = from;
        while i < ws.len()
            invariant
                from <= i <= ws@.len(),
                self.wf(),
                self@ == crate::vault::with_blocks(before, self@.catalog.blocks, self@.next_append),
                forall|h: Seq<u8>| #[trigger]
                    self@.catalog.blocks.contains_key(h) <==> before.catalog.blocks.contains_key(h)
                        && !(exists|k: int| from <= k < i && (#[trigger] ws@[k]).hash@ == h),
                forall|h: Seq<u8>| #[trigger]
                    self@.catalog.blocks.contains_key(h) ==> self@.catalog.blocks[h]
                        == before.catalog.blocks[h],
            decreases ws@.len() - i,
        {
            let ghost prev = self@;
            let _ = self.catalog.blocks.remove(&ws[i].hash);
            proof {
                assert forall|h: Seq<u8>| #[trigger]
                    self@.catalog.blocks.contains_key(h) <==> before.catalog.blocks.contains_key(h)
                        && !(exists|k: int| from <= k < i + 1 && (#[trigger] ws@[k]).hash@ == h) by {
                    if prev.catalog.blocks.contains_key(h) && h != ws@[i as int].hash@ {
                        if exists|k: int| from <= k < i + 1 && (#[trigger] ws@[k]).hash@ == h {
                            let k = choose|k: int|
                                from <= k < i + 1 && (#[trigger] ws@[k]).hash@ == h;
                            assert(k < i);
                        }
                    }
                    assert(ws@[i as int].hash@ == ws@[i as int].hash@);
                }
            }
            i = i + 1;
        }
        self.next_append = ws[from].offset;
        proof {
            assert forall|h: Seq<u8>| addresses(undone).contains(h) <==> exists|k: int|
                from <= k < ws@.len() && (#[trigger] ws@[k]).hash@ == h by {
                if addresses(undone).contains(h) {
                    let j = choose|j: int|
                        0 <= j < undone.len() && (#[trigger] undone[j]).hash@ == h;
                    assert(ws@[from + j].hash@ == h);
                }
                if exists|k: int| from <= k < ws@.len() && (#[trigger] ws@[k]).hash@ == h {
                    let k = choose|k: int|
                        from <= k < ws@.len() && (#[trigger] ws@[k]).hash@ == h;
                    assert(undone[k - from].hash@ == h);
                }
            }
            assert(self@.catalog.blocks =~= before.catalog.blocks.remove_keys(addresses(undone)));
            assert(self@ =~= taken_back(before, undone));
        }
    }
}

/// To take back the writes from the `k`-th on leaves the vault as it was when that write was to
/// be made. To take back all of them leaves it as it was before.
pub proof fn retract_undoes_stores(v: VaultView, pieces: Seq<Seq<u8>>, ws: Seq<BlockWrite>, k: int)
    requires
        crate::vault::write::stores(v, pieces, ws),
        0 <= k <= ws.len(),
    ensures
        taken_back(crate::vault::write::after_writes(v, ws), ws.skip(k))
            == crate::vault::write::after_writes(v, ws.take(k)),
    decreases pieces.len(),
{
    if k == ws.len() {
        assert(ws.take(k) =~= ws);
        assert(ws.skip(k).len() == 0);
    } else {
        let rest = pieces.drop_last();
        let h = crate::pipeline::blake3_digest(pieces.last());
        if crate::vault::write::known(v, rest, h) {
            retract_undoes_stores(v, rest, ws, k);
        } else {
            let init = ws.drop_last();
            let last = ws.last();
            let mid = crate::vault::write::after_writes(v, init);
            let end = crate::vault::write::after_writes(v, ws);
            let tail = ws.skip(k);
            let short = init.skip(k);
            retract_undoes_stores(v, rest, init, k);
            crate::vault::write::lemma_stored_index(v, rest, init, h);
            assert(init.take(k) =~= ws.take(k));
            assert(tail =~= short.push(last));
            assert forall|x: Seq<u8>| addresses(tail).contains(x) <==> (addresses(short).contains(x)
                || x == h) by {
                if addresses(tail).contains(x) {
                    let i = choose|i: int| 0 <= i < tail.len() && (#[trigger] tail[i]).hash@ == x;
                    if i < short.len() {
                        assert(short[i].hash@ == x);
                    }
                }
                if addresses(short).contains(x) {
                    let i = choose|i: int| 0 <= i < short.len() && (#[trigger] short[i]).hash@ == x;
                    assert(tail[i].hash@ == x);
                }
                assert(tail[short.len() as int].hash@ == h);
            }
            assert(end.catalog.blocks.remove_keys(addresses(tail))
                =~= mid.catalog.blocks.remove_keys(addresses(short)));
            if short.len() == 0 {
                assert(addresses(short) =~= Set::empty());
                assert(mid.catalog.blocks.remove_keys(addresses(short)) =~= mid.catalog.blocks);
                assert(tail[0] == last);
            } else {
                assert(tail[0] == short[0]);
            }
            assert(taken_back(end, tail) =~= taken_back(mid, short));
        }
    }
}

/// A file that was taken in stands at its normal path with the size, the chunks and the time
/// given; every other path stays, and so do the blocks.
pub proof fn added_file_takes_its_path_alone(
    v: VaultView,
    intake: IntakeView,
    dest: Seq<char>,
    mtime: i64,
    k: Seq<char>,
)
    ensures
        ({
            let p = crate::paths::normal(dest);
            let w = added(v, intake, dest, mtime);
            &&& w.catalog.files.contains_key(p)
            &&& w.catalog.files[p].size == intake.total
            &&& w.catalog.files[p].mtime == mtime
            &&& w.catalog.files[p].chunks == intake.chunks
            &&& k != p ==> (w.catalog.files.contains_key(k) <==> v.catalog.files.contains_key(k))
            &&& k != p && v.catalog.files.contains_key(k) ==> w.catalog.files[k]
                == v.catalog.files[k]
            &&& w.catalog.dirs == v.catalog.dirs && w.catalog.blocks == v.catalog.blocks
            &&& w.next_append == v.next_append && w.catalog.snapshots == v.catalog.snapshots
            &&& w.catalog.quota == v.catalog.quota && w.enc == v.enc
        }),
{
}

/// A chunk that is taken in costs nothing if its content is in the vault, and one block behind
/// all others if it is not.
pub proof fn taken_chunk_is_stored_once(
    v0: VaultView,
    v: VaultView,
    data: Seq<u8>,
    out0: Seq<BlockWrite>,
    out: Seq<BlockWrite>,
)
    requires
        stored_one(v0, v, data, out0, out),
        data.len() <= crate::chunking::MAX_CHUNK,
    ensures
        ({
            let d = crate::pipeline::blake3_digest(data);
            &&& v0.catalog.blocks.contains_key(d) ==> v == v0 && out == out0
            &&& !v0.catalog.blocks.contains_key(d) ==> {
                &&& out.len() == out0.len() + 1
                &&& out.drop_last() == out0
                &&& out.last().hash@ == d && out.last().offset == v0.next_append
                &&& v.catalog.blocks.contains_key(d) && v.catalog.blocks[d].offset
                    == v0.next_append
                &&& v.next_append == v0.next_append + out.last().bytes@.len()
            }
            &&& v.catalog.files == v0.catalog.files && v.catalog.dirs == v0.catalog.dirs
        }),
{
}

} // verus!
