//! A bounded cache of decoded blocks. What came first leaves first.

use crate::sorted::SortedMap;
use std::collections::VecDeque;
use std::sync::Arc;
use vstd::prelude::*;

verus! {

/// How many bytes of blocks are kept by default.
pub const DEFAULT_CACHE_CAP: usize = 134_217_728;

/// Calls `Arc::clone`: another handle on the same bytes.
#[verifier::external_body]
pub(crate) fn share(data: &Arc<Vec<u8>>) -> (r: Arc<Vec<u8>>)
    ensures
        r == *data,
{
    data.clone()
}

/// How many bytes the rows hold.
pub open spec fn weight(rows: Seq<(Seq<u8>, Seq<u8>)>) -> nat
    decreases rows.len(),
{
    if rows.len() == 0 {
        0
    } else {
        rows[0].1.len() + weight(rows.drop_first())
    }
}

/// The rows that stay when the oldest leave until `cap` bytes are enough.
pub open spec fn kept(rows: Seq<(Seq<u8>, Seq<u8>)>, cap: nat) -> Seq<(Seq<u8>, Seq<u8>)>
    decreases rows.len(),
{
    if rows.len() > 0 && weight(rows) > cap {
        kept(rows.drop_first(), cap)
    } else {
        rows
    }
}

/// `hash` has a row.
pub open spec fn has_row(rows: Seq<(Seq<u8>, Seq<u8>)>, hash: Seq<u8>) -> bool {
    exists|i: int| 0 <= i < rows.len() && (#[trigger] rows[i]).0 == hash
}

/// The rows after the block `data` was put under `hash`.
pub open spec fn after_put(
    rows: Seq<(Seq<u8>, Seq<u8>)>,
    cap: nat,
    hash: Seq<u8>,
    data: Seq<u8>,
) -> Seq<(Seq<u8>, Seq<u8>)> {
    if data.len() > cap || has_row(rows, hash) {
        rows
    } else {
        kept(rows.push((hash, data)), cap)
    }
}

pub proof fn lemma_weight_push(rows: Seq<(Seq<u8>, Seq<u8>)>, row: (Seq<u8>, Seq<u8>))
    ensures
        weight(rows.push(row)) == weight(rows) + row.1.len(),
    decreases rows.len(),
{
    let more = rows.push(row);
    if rows.len() == 0 {
        assert(more.drop_first() =~= rows);
    } else {
        assert(more.drop_first() =~= rows.drop_first().push(row));
        lemma_weight_push(rows.drop_first(), row);
    }
}

/// What stays fits under the limit.
pub proof fn lemma_kept_fits(rows: Seq<(Seq<u8>, Seq<u8>)>, cap: nat)
    ensures
        weight(kept(rows, cap)) <= cap,
    decreases rows.len(),
{
    if rows.len() > 0 && weight(rows) > cap {
        lemma_kept_fits(rows.drop_first(), cap);
    }
}

/// Decoded blocks by address.
pub struct BlockCache {
    map: SortedMap<crate::pipeline::Hash, Arc<Vec<u8>>>,
    order: VecDeque<crate::pipeline::Hash>,
    bytes: usize,
    cap: usize,
}

impl BlockCache {
    /// The blocks with their addresses, oldest first.
    pub closed spec fn rows(self) -> Seq<(Seq<u8>, Seq<u8>)> {
        Seq::new(self.order@.len(), |i: int| (self.order@[i]@, self.map@[self.order@[i]@]))
    }

    pub closed spec fn cap(self) -> nat {
        self.cap as nat
    }

    pub closed spec fn wf(self) -> bool {
        &&& self.map.wf()
        &&& self.bytes == weight(self.rows())
        &&& self.bytes <= self.cap
        &&& forall|i: int| 0 <= i < self.order@.len() ==> self.map@.contains_key(#[trigger] self.order@[i]@)
        &&& forall|h: Seq<u8>| #[trigger]
            self.map@.contains_key(h) ==> exists|i: int|
                0 <= i < self.order@.len() && #[trigger] self.order@[i]@ == h
        &&& forall|i: int, j: int|
            #![trigger self.order@[i], self.order@[j]]
            0 <= i < j < self.order@.len() ==> self.order@[i]@ != self.order@[j]@
    }

    pub fn new(cap: usize) -> (r: Self)
        ensures
            r.wf(),
            r.rows() == Seq::<(Seq<u8>, Seq<u8>)>::empty(),
            r.cap() == cap,
    {
        let r = BlockCache { map: SortedMap::new(), order: VecDeque::new(), bytes: 0, cap };
        assert(r.rows() =~= Seq::<(Seq<u8>, Seq<u8>)>::empty());
        r
    }

    proof fn lemma_has_row(self, hash: Seq<u8>)
        requires
            self.wf(),
        ensures
            has_row(self.rows(), hash) == self.map@.contains_key(hash),
    {
        if has_row(self.rows(), hash) {
            let i = choose|i: int| 0 <= i < self.rows().len() && (#[trigger] self.rows()[i]).0 == hash;
            assert(self.map@.contains_key(self.order@[i]@));
        }
        if self.map@.contains_key(hash) {
            let i = choose|i: int| 0 <= i < self.order@.len() && #[trigger] self.order@[i]@ == hash;
            assert(self.rows()[i].0 == hash);
        }
    }

    /// The block at `hash`, if it is kept.
    pub fn get(&self, hash: &crate::pipeline::Hash) -> (r: Option<Arc<Vec<u8>>>)
        requires
            self.wf(),
        ensures
            match r {
                Some(data) => exists|i: int|
                    0 <= i < self.rows().len() && #[trigger] self.rows()[i] == (hash@, data@),
                None => !has_row(self.rows(), hash@),
            },
            r is Some == has_row(self.rows(), hash@),
    {
        proof {
            self.lemma_has_row(hash@);
        }
        match self.map.get(hash) {
            Some(data) => {
                proof {
                    let i = choose|i: int|
                        0 <= i < self.order@.len() && #[trigger] self.order@[i]@ == hash@;
                    assert(self.rows()[i] == (hash@, data@));
                }
                Some(share(data))
            },
            None => None,
        }
    }

    /// Whether the block at `hash` is kept.
    pub fn contains(&self, hash: &crate::pipeline::Hash) -> (r: bool)
        requires
            self.wf(),
        ensures
            r == has_row(self.rows(), hash@),
    {
        proof {
            self.lemma_has_row(hash@);
        }
        self.map.contains_key(hash)
    }

    /// Takes the oldest block out.
    fn drop_oldest(&mut self)
        requires
            old(self).wf(),
            old(self).rows().len() > 0,
        ensures
            final(self).wf(),
            final(self).rows() == old(self).rows().drop_first(),
            final(self).cap == old(self).cap,
    {
        let ghost before = *self;
        match self.order.pop_front() {
            None => {},
            Some(oldest) => {
                match self.map.remove(&oldest) {
                    None => {},
                    Some(data) => {
                        proof {
                            assert(before.rows()[0] == (oldest@, data@));
                        }
                        self.bytes = self.bytes - data.len();
                        proof {
                            assert(self.rows() =~= before.rows().drop_first()) by {
                                assert forall|i: int| 0 <= i < self.order@.len() implies self.order@[i]
                                    == before.order@[i + 1] && self.order@[i]@ != oldest@ by {}
                            }
                            assert forall|i: int|
                                0 <= i < self.order@.len() implies self.map@.contains_key(
                                #[trigger] self.order@[i]@,
                            ) by {
                                assert(before.map@.contains_key(before.order@[i + 1]@));
                                assert(before.order@[0]@ != before.order@[i + 1]@);
                            }
                            assert forall|h: Seq<u8>| #[trigger]
                                self.map@.contains_key(h) implies exists|i: int|
                                0 <= i < self.order@.len() && #[trigger] self.order@[i]@ == h by {
                                assert(before.map@.contains_key(h));
                                let k = choose|k: int|
                                    0 <= k < before.order@.len() && #[trigger] before.order@[k]@
                                        == h;
                                assert(k != 0);
                                assert(self.order@[k - 1]@ == h);
                            }
                        }
                    },
                }
            },
        }
    }

    /// Keeps a block. One that is longer than the limit or already there changes nothing;
    /// otherwise the oldest blocks leave until everything fits.
    pub fn put(&mut self, hash: crate::pipeline::Hash, data: Arc<Vec<u8>>)
        requires
            old(self).wf(),
        ensures
            final(self).wf(),
            final(self).cap() == old(self).cap(),
            final(self).rows() == after_put(old(self).rows(), old(self).cap(), hash@, data@),
    {
        let n: usize = data.len();
        proof {
            self.lemma_has_row(hash@);
        }
        if n > self.cap || self.map.contains_key(&hash) {
            return ;
        }
        let ghost first = *self;
        let ghost row = (hash@, data@);
        while self.bytes > self.cap - n
            invariant
                self.wf(),
                self.cap == first.cap,
                n == data@.len(),
                n <= self.cap,
                row == (hash@, data@),
                !self.map@.contains_key(hash@),
                kept(self.rows().push(row), self.cap as nat) == kept(
                    first.rows().push(row),
                    self.cap as nat,
                ),
            decreases self.rows().len(),
        {
            let ghost before = *self;
            proof {
                lemma_weight_push(self.rows(), row);
                assert(self.rows().push(row).drop_first() =~= self.rows().drop_first().push(row));
                self.lemma_has_row(hash@);
            }
            self.drop_oldest();
            proof {
                self.lemma_has_row(hash@);
                if has_row(self.rows(), hash@) {
                    let i = choose|i: int|
                        0 <= i < self.rows().len() && (#[trigger] self.rows()[i]).0 == hash@;
                    assert(before.rows()[i + 1].0 == hash@);
                }
            }
        }
        let ghost before = *self;
        self.bytes = self.bytes + n;
        self.map.insert(hash, data);
        self.order.push_back(hash);
        proof {
            lemma_weight_push(before.rows(), row);
            assert forall|i: int| 0 <= i < before.order@.len() implies self.order@[i]
                == before.order@[i] && self.order@[i]@ != hash@ by {
                assert(before.map@.contains_key(before.order@[i]@));
            }
            assert(self.rows() =~= before.rows().push(row));
            assert(self.order@[before.order@.len() as int]@ == hash@);
            assert forall|h: Seq<u8>| #[trigger] self.map@.contains_key(h) implies exists|i: int|
                0 <= i < self.order@.len() && #[trigger] self.order@[i]@ == h by {
                if h != hash@ {
                    assert(before.map@.contains_key(h));
                    let k = choose|k: int|
                        0 <= k < before.order@.len() && #[trigger] before.order@[k]@ == h;
                    assert(self.order@[k]@ == h);
                }
            }
        }
    }
}

/// However blocks are put, the cache never holds more bytes than its limit.
pub proof fn cache_stays_bounded(
    rows: Seq<(Seq<u8>, Seq<u8>)>,
    cap: nat,
    hash: Seq<u8>,
    data: Seq<u8>,
)
    requires
        weight(rows) <= cap,
    ensures
        weight(after_put(rows, cap, hash, data)) <= cap,
{
    lemma_kept_fits(rows.push((hash, data)), cap);
}

/// The block that was put last is kept, if it is not longer than the limit.
pub proof fn newest_block_stays(
    rows: Seq<(Seq<u8>, Seq<u8>)>,
    cap: nat,
    hash: Seq<u8>,
    data: Seq<u8>,
)
    requires
        data.len() <= cap,
    ensures
        has_row(after_put(rows, cap, hash, data), hash),
{
    if !has_row(rows, hash) {
        lemma_last_kept(rows, (hash, data), cap);
        let k = kept(rows.push((hash, data)), cap);
        assert(k[k.len() - 1].0 == hash);
    }
}

proof fn lemma_last_kept(
    rows: Seq<(Seq<u8>, Seq<u8>)>,
    row: (Seq<u8>, Seq<u8>),
    cap: nat,
)
    requires
        row.1.len() <= cap,
    ensures
        kept(rows.push(row), cap).len() > 0,
        kept(rows.push(row), cap).last() == row,
    decreases rows.len(),
{
    let more = rows.push(row);
    lemma_weight_push(rows, row);
    if weight(more) > cap {
        assert(rows.len() > 0);
        assert(more.drop_first() =~= rows.drop_first().push(row));
        lemma_last_kept(rows.drop_first(), row, cap);
    }
}

/// The weight of a cache is the bytes of its blocks together: nothing without blocks, and larger
/// by its own length for each block more.
pub proof fn weight_adds_up(rows: Seq<(Seq<u8>, Seq<u8>)>, hash: Seq<u8>, data: Seq<u8>)
    ensures
        weight(Seq::empty()) == 0,
        weight(rows.push((hash, data))) == weight(rows) + data.len(),
{
    lemma_weight_push(rows, (hash, data));
}

/// Whether a block is in the cache is told by its address.
pub proof fn cached_block_has_a_row(rows: Seq<(Seq<u8>, Seq<u8>)>, hash: Seq<u8>)
    ensures
        has_row(rows, hash) <==> exists|i: int|
            0 <= i < rows.len() && (#[trigger] rows[i]).0 == hash,
{
}

proof fn lemma_kept_suffix(rows: Seq<(Seq<u8>, Seq<u8>)>, cap: nat)
    ensures
        kept(rows, cap).len() <= rows.len(),
        kept(rows, cap) == rows.skip(rows.len() - kept(rows, cap).len()),
        weight(kept(rows, cap)) <= cap,
        kept(rows, cap).len() < rows.len() ==> weight(
            rows.skip(rows.len() - kept(rows, cap).len() - 1),
        ) > cap,
    decreases rows.len(),
{
    if rows.len() > 0 && weight(rows) > cap {
        let rest = rows.drop_first();
        lemma_kept_suffix(rest, cap);
        let k = kept(rest, cap);
        assert(rest.skip(rest.len() - k.len()) =~= rows.skip(rows.len() - k.len()));
        if k.len() < rest.len() {
            assert(rest.skip(rest.len() - k.len() - 1) =~= rows.skip(rows.len() - k.len() - 1));
        } else {
            assert(rows.skip(rows.len() - k.len() - 1) =~= rows);
        }
    } else {
        assert(rows.skip(0) =~= rows);
    }
}

/// A block that is put new stands behind those that are there, and the oldest go, as few of them
/// as make room for it: what stays fits the limit, and would not with one more. A block that is
/// there already, or that is longer than the limit, changes nothing.
pub proof fn oldest_blocks_make_room(
    rows: Seq<(Seq<u8>, Seq<u8>)>,
    cap: nat,
    hash: Seq<u8>,
    data: Seq<u8>,
)
    requires
        weight(rows) <= cap,
    ensures
        ({
            let all = rows.push((hash, data));
            let r = after_put(rows, cap, hash, data);
            let there = exists|i: int| 0 <= i < rows.len() && (#[trigger] rows[i]).0 == hash;
            &&& there || data.len() > cap ==> r == rows
            &&& !there && data.len() <= cap ==> {
                &&& 0 < r.len() <= all.len()
                &&& r == all.skip(all.len() - r.len())
                &&& weight(r) <= cap
                &&& r.len() < all.len() ==> weight(all.skip(all.len() - r.len() - 1)) > cap
            }
        }),
{
    lemma_kept_suffix(rows.push((hash, data)), cap);
    if data.len() <= cap {
        lemma_last_kept(rows, (hash, data), cap);
    }
}

} // verus!
