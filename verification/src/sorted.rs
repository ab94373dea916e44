//! A map kept as two parallel vectors, sorted by key.

use crate::order::SortKey;
use vstd::prelude::*;

verus! {

/// A value that can be copied so that the copy has the same view.
pub trait Duplicate: View + Sized {
    fn duplicate(&self) -> (r: Self)
        ensures
            r@ == self@,
    ;
}

impl Duplicate for String {
    fn duplicate(&self) -> (r: Self) {
        self.clone()
    }
}

impl Duplicate for [u8; 32] {
    fn duplicate(&self) -> (r: Self) {
        *self
    }
}

impl Duplicate for () {
    fn duplicate(&self) -> (r: Self) {
    }
}

/// The keys of `keys` ascend strictly.
pub open spec fn ascending<K: SortKey>(keys: Seq<K::V>) -> bool {
    forall|i: int, j: int|
        #![trigger keys[i], keys[j]]
        0 <= i < j < keys.len() ==> K::key_before(keys[i], keys[j])
}

/// The members of `s` in ascending order.
pub open spec fn in_order<K: SortKey>(s: Set<K::V>) -> Seq<K::V> {
    choose|q: Seq<K::V>| ascending::<K>(q) && q.to_set() == s
}

/// An ascending sequence is the enumeration of its members.
pub proof fn lemma_in_order<K: SortKey>(q: Seq<K::V>)
    requires
        ascending::<K>(q),
    ensures
        in_order::<K>(q.to_set()) == q,
{
    lemma_ascending_unique::<K>(in_order::<K>(q.to_set()), q);
}

/// A finite set can be enumerated in ascending order.
pub proof fn lemma_in_order_exists<K: SortKey>(s: Set<K::V>)
    requires
        s.finite(),
    ensures
        ascending::<K>(in_order::<K>(s)),
        in_order::<K>(s).to_set() == s,
        in_order::<K>(s).no_duplicates(),
    decreases s.len(),
{
    lemma_enumerable::<K>(s);
    let q = in_order::<K>(s);
    assert forall|i: int, j: int| 0 <= i < q.len() && 0 <= j < q.len() && i != j implies q[i]
        != q[j] by {
        K::order_irreflexive(q[i]);
        if i < j {
            assert(K::key_before(q[i], q[j]));
        } else {
            assert(K::key_before(q[j], q[i]));
        }
    }
}

proof fn lemma_enumerable<K: SortKey>(s: Set<K::V>)
    requires
        s.finite(),
    ensures
        exists|q: Seq<K::V>| ascending::<K>(q) && #[trigger] q.to_set() == s,
    decreases s.len(),
{
    if s.len() == 0 {
        let q = Seq::<K::V>::empty();
        assert(q.to_set() =~= s);
        assert(ascending::<K>(q));
    } else {
        let x = s.choose();
        lemma_enumerable::<K>(s.remove(x));
        let q = choose|q: Seq<K::V>| ascending::<K>(q) && #[trigger] q.to_set() == s.remove(x);
        let r = lemma_insert_ascending::<K>(q, x);
        assert(r.to_set() =~= s);
    }
}

/// Where a new member goes in an ascending sequence.
proof fn lemma_insert_ascending<K: SortKey>(q: Seq<K::V>, x: K::V) -> (r: Seq<K::V>)
    requires
        ascending::<K>(q),
        !q.contains(x),
    ensures
        ascending::<K>(r),
        r.to_set() == q.to_set().insert(x),
    decreases q.len(),
{
    if q.len() == 0 || K::key_before(q.last(), x) {
        let r = q.push(x);
        assert forall|i: int, j: int|
            #![trigger r[i], r[j]]
            0 <= i < j < r.len() implies K::key_before(r[i], r[j]) by {
            if j == q.len() && i < q.len() - 1 {
                assert(K::key_before(q[i], q[q.len() - 1]));
                K::order_transitive(q[i], q.last(), x);
            } else if j < q.len() {
                assert(K::key_before(q[i], q[j]));
            }
        }
        lemma_push_set(q, x);
        r
    } else {
        let init = q.drop_last();
        let last = q.last();
        assert(!init.contains(x)) by {
            if init.contains(x) {
                let i = init.index_of(x);
                assert(q[i] == x);
            }
        }
        assert forall|i: int, j: int|
            #![trigger init[i], init[j]]
            0 <= i < j < init.len() implies K::key_before(init[i], init[j]) by {
            assert(K::key_before(q[i], q[j]));
        }
        let s = lemma_insert_ascending::<K>(init, x);
        let r = s.push(last);
        assert(q.contains(last)) by {
            assert(q[q.len() - 1] == last);
        }
        K::order_total(x, last);
        assert forall|y: K::V| s.contains(y) implies K::key_before(y, last) by {
            assert(s.to_set().contains(y));
            if y != x {
                assert(init.to_set().contains(y));
                let i = init.index_of(y);
                assert(K::key_before(q[i], q[q.len() - 1]));
            }
        }
        assert forall|i: int, j: int|
            #![trigger r[i], r[j]]
            0 <= i < j < r.len() implies K::key_before(r[i], r[j]) by {
            if j == s.len() {
                assert(s.contains(s[i]));
            } else {
                assert(K::key_before(s[i], s[j]));
            }
        }
        lemma_push_set(s, last);
        lemma_push_set(init, last);
        assert(init.push(last) =~= q);
        assert(r.to_set() =~= q.to_set().insert(x));
        r
    }
}

proof fn lemma_push_set<A>(s: Seq<A>, x: A)
    ensures
        s.push(x).to_set() == s.to_set().insert(x),
{
    let r = s.push(x);
    assert forall|y: A| r.to_set().contains(y) <==> s.to_set().insert(x).contains(y) by {
        if r.contains(y) {
            let i = r.index_of(y);
            if i < s.len() {
                assert(s[i] == y);
            }
        }
        if s.contains(y) {
            let i = s.index_of(y);
            assert(r[i] == y);
        }
        assert(r[s.len() as int] == x);
    }
    assert(r.to_set() =~= s.to_set().insert(x));
}

/// A map from keys to values. The keys are in ascending order, each of them once.
pub struct SortedMap<K: SortKey, T: View> {
    keys: Vec<K>,
    values: Vec<T>,
}

impl<K: SortKey, T: View> View for SortedMap<K, T> {
    type V = Map<K::V, T::V>;

    closed spec fn view(&self) -> Map<K::V, T::V> {
        Map::new(
            |k: K::V| self.key_seq().contains(k),
            |k: K::V| self.value_seq()[self.key_seq().index_of(k)],
        )
    }
}

impl<K: SortKey, T: View> SortedMap<K, T> {
    /// The keys in order.
    pub closed spec fn key_seq(self) -> Seq<K::V> {
        Seq::new(self.keys@.len(), |i: int| self.keys@[i]@)
    }

    /// The values, in the order of their keys.
    pub closed spec fn value_seq(self) -> Seq<T::V> {
        Seq::new(self.values@.len(), |i: int| self.values@[i]@)
    }

    pub closed spec fn wf(self) -> bool {
        &&& self.keys@.len() == self.values@.len()
        &&& ascending::<K>(self.key_seq())
    }

    /// How the two sequences and the map hang together.
    pub proof fn lemma_rows(self)
        requires
            self.wf(),
        ensures
            self.key_seq().len() == self.value_seq().len(),
            self.key_seq().len() <= usize::MAX,
            ascending::<K>(self.key_seq()),
            self.key_seq().no_duplicates(),
            forall|k: K::V| #[trigger] self@.contains_key(k) <==> self.key_seq().contains(k),
            forall|i: int|
                #![trigger self.key_seq()[i]]
                #![trigger self.value_seq()[i]]
                0 <= i < self.key_seq().len() ==> self@.contains_key(self.key_seq()[i])
                    && self@[self.key_seq()[i]] == self.value_seq()[i],
            self@.dom() == self.key_seq().to_set(),
            self@.dom().finite(),
            self@.dom().len() == self.key_seq().len(),
            self.key_seq() == in_order::<K>(self@.dom()),
    {
        let ks = self.key_seq();
        assert(ks.len() == self.keys.len());
        assert forall|i: int, j: int| 0 <= i < ks.len() && 0 <= j < ks.len() && i != j implies ks[i]
            != ks[j] by {
            K::order_irreflexive(ks[i]);
            if i < j {
                assert(K::key_before(ks[i], ks[j]));
            } else {
                assert(K::key_before(ks[j], ks[i]));
            }
        }
        assert forall|i: int| 0 <= i < ks.len() implies #[trigger] self@.contains_key(ks[i])
            && self@[ks[i]] == self.value_seq()[i] by {
            assert(ks.contains(ks[i]));
            let j = ks.index_of(ks[i]);
            assert(0 <= j < ks.len() && ks[j] == ks[i]);
            assert(i == j);
        }
        assert(self@.dom() =~= ks.to_set());
        ks.unique_seq_to_set();
        lemma_in_order::<K>(ks);
    }

    pub fn new() -> (r: Self)
        ensures
            r.wf(),
            r@ == Map::<K::V, T::V>::empty(),
            r.key_seq().len() == 0,
    {
        let r = SortedMap { keys: Vec::new(), values: Vec::new() };
        assert(r@ =~= Map::<K::V, T::V>::empty());
        r
    }

    pub fn len(&self) -> (r: usize)
        requires
            self.wf(),
        ensures
            r == self.key_seq().len(),
            r == self@.dom().len(),
    {
        proof {
            self.lemma_rows();
        }
        self.keys.len()
    }

    pub fn is_empty(&self) -> (r: bool)
        requires
            self.wf(),
        ensures
            r == (self.key_seq().len() == 0),
    {
        self.keys.len() == 0
    }

    pub fn key_at(&self, i: usize) -> (r: &K)
        requires
            self.wf(),
            i < self.key_seq().len(),
        ensures
            r@ == self.key_seq()[i as int],
    {
        &self.keys[i]
    }

    pub fn value_at(&self, i: usize) -> (r: &T)
        requires
            self.wf(),
            i < self.key_seq().len(),
        ensures
            r@ == self.value_seq()[i as int],
    {
        &self.values[i]
    }

    /// Where `key` stands, or where it would be inserted.
    fn locate(&self, key: &K) -> (r: (usize, bool))
        requires
            self.wf(),
        ensures
            r.0 <= self.key_seq().len(),
            r.1 == self.key_seq().contains(key@),
            r.1 ==> r.0 < self.key_seq().len() && self.key_seq()[r.0 as int] == key@,
            forall|i: int| 0 <= i < r.0 ==> K::key_before(#[trigger] self.key_seq()[i], key@),
            !r.1 ==> forall|i: int|
                r.0 <= i < self.key_seq().len() ==> K::key_before(
                    key@,
                    #[trigger] self.key_seq()[i],
                ),
    {
        let mut low: usize = 0;
        let mut high: usize = self.keys.len();
        let ghost ks = self.key_seq();
        while low < high
            invariant
                self.wf(),
                ks == self.key_seq(),
                low <= high <= ks.len(),
                ks.len() == self.keys.len(),
                forall|i: int| 0 <= i < low ==> K::key_before(#[trigger] ks[i], key@),
                forall|i: int| high <= i < ks.len() ==> K::key_before(key@, #[trigger] ks[i]),
            decreases high - low,
        {
            let mid: usize = low + (high - low) / 2;
            if self.keys[mid].is_same(key) {
                assert(ks[mid as int] == key@);
                return (mid, true);
            }
            assert(ks[mid as int] == self.keys[mid as int]@);
            if self.keys[mid].is_before(key) {
                assert forall|i: int| 0 <= i < mid + 1 implies K::key_before(
                    #[trigger] ks[i],
                    key@,
                ) by {
                    if i < mid {
                        K::order_transitive(ks[i], ks[mid as int], key@);
                    }
                }
                low = mid + 1;
            } else {
                proof {
                    K::order_total(key@, ks[mid as int]);
                }
                assert forall|i: int| mid <= i < ks.len() implies K::key_before(
                    key@,
                    #[trigger] ks[i],
                ) by {
                    if i > mid {
                        K::order_transitive(key@, ks[mid as int], ks[i]);
                    }
                }
                high = mid;
            }
        }
        proof {
            if ks.contains(key@) {
                let i = ks.index_of(key@);
                K::order_irreflexive(key@);
                assert(K::key_before(ks[i], key@) || K::key_before(key@, ks[i]));
            }
        }
        (low, false)
    }

    pub fn position(&self, key: &K) -> (r: Option<usize>)
        requires
            self.wf(),
        ensures
            match r {
                Some(i) => i < self.key_seq().len() && self.key_seq()[i as int] == key@
                    && self@.contains_key(key@) && self@[key@] == self.value_seq()[i as int],
                None => !self@.contains_key(key@),
            },
    {
        proof {
            self.lemma_rows();
        }
        let (i, found) = self.locate(key);
        if found {
            Some(i)
        } else {
            None
        }
    }

    pub fn contains_key(&self, key: &K) -> (r: bool)
        requires
            self.wf(),
        ensures
            r == self@.contains_key(key@),
    {
        proof {
            self.lemma_rows();
        }
        self.locate(key).1
    }

    pub fn get(&self, key: &K) -> (r: Option<&T>)
        requires
            self.wf(),
        ensures
            match r {
                Some(v) => self@.contains_key(key@) && v@ == self@[key@],
                None => !self@.contains_key(key@),
            },
    {
        match self.position(key) {
            Some(i) => Some(self.value_at(i)),
            None => None,
        }
    }

    /// Puts `value` at `key`, in place of what was there.
    pub fn insert(&mut self, key: K, value: T)
        requires
            old(self).wf(),
        ensures
            final(self).wf(),
            final(self)@ == old(self)@.insert(key@, value@),
    {
        let ghost before = *self;
        proof {
            before.lemma_rows();
        }
        let (i, found) = self.locate(&key);
        if found {
            self.values.set(i, value);
            proof {
                assert(self.key_seq() =~= before.key_seq());
                assert(self.value_seq() =~= before.value_seq().update(i as int, value@));
                self.lemma_rows();
                assert(self@ =~= before@.insert(key@, value@)) by {
                    assert forall|k: K::V| #[trigger] self@.contains_key(k) && k != key@ implies
                        self@[k] == before@[k] by {
                        let j = before.key_seq().index_of(k);
                        assert(before.key_seq()[j] == k);
                        assert(self.key_seq()[j] == k);
                    }
                    assert(self.key_seq()[i as int] == key@);
                }
            }
        } else {
            let ghost k = key@;
            let ghost v = value@;
            let ghost ks0 = before.key_seq();
            self.keys.insert(i, key);
            self.values.insert(i, value);
            proof {
                let ks = self.key_seq();
                assert(ks =~= ks0.insert(i as int, k));
                assert(self.value_seq() =~= before.value_seq().insert(i as int, v));
                assert forall|a: int, b: int|
                    #![trigger ks[a], ks[b]]
                    0 <= a < b < ks.len() implies K::key_before(ks[a], ks[b]) by {
                    let a0 = if a < i { a } else { a - 1 };
                    let b0 = if b < i { b } else { b - 1 };
                    if a == i {
                        assert(ks[b] == ks0[b0]);
                    } else if b == i {
                        assert(ks[a] == ks0[a0]);
                    } else {
                        assert(K::key_before(ks0[a0], ks0[b0]));
                    }
                }
                self.lemma_rows();
                assert(self@ =~= before@.insert(k, v)) by {
                    assert(ks[i as int] == k);
                    assert forall|x: K::V| self@.contains_key(x) implies x == k || (
                    before@.contains_key(x) && self@[x] == before@[x]) by {
                        let j = ks.index_of(x);
                        assert(ks[j] == x);
                        if j != i {
                            let j0 = if j < i { j } else { j - 1 };
                            assert(ks0[j0] == x);
                        }
                    }
                    assert forall|x: K::V| before@.contains_key(x) implies self@.contains_key(
                        x,
                    ) by {
                        let j0 = ks0.index_of(x);
                        assert(ks0[j0] == x);
                        let j = if j0 < i { j0 } else { j0 + 1 };
                        assert(ks[j] == x);
                    }
                }
            }
        }
    }

    /// Takes `key` and its value out.
    pub fn remove(&mut self, key: &K) -> (r: Option<T>)
        requires
            old(self).wf(),
        ensures
            final(self).wf(),
            final(self)@ == old(self)@.remove(key@),
            match r {
                Some(v) => old(self)@.contains_key(key@) && v@ == old(self)@[key@],
                None => !old(self)@.contains_key(key@) && final(self)@ == old(self)@,
            },
    {
        let ghost before = *self;
        proof {
            before.lemma_rows();
        }
        let (i, found) = self.locate(key);
        if found {
            let ghost ks0 = before.key_seq();
            let _k = self.keys.remove(i);
            let v = self.values.remove(i);
            proof {
                let ks = self.key_seq();
                assert(ks =~= ks0.remove(i as int));
                assert(self.value_seq() =~= before.value_seq().remove(i as int));
                assert forall|a: int, b: int|
                    #![trigger ks[a], ks[b]]
                    0 <= a < b < ks.len() implies K::key_before(ks[a], ks[b]) by {
                    let a0 = if a < i { a } else { a + 1 };
                    let b0 = if b < i { b } else { b + 1 };
                    assert(K::key_before(ks0[a0], ks0[b0]));
                }
                self.lemma_rows();
                assert(self@ =~= before@.remove(key@)) by {
                    assert forall|x: K::V| self@.contains_key(x) implies x != key@
                        && before@.contains_key(x) && self@[x] == before@[x] by {
                        let j = ks.index_of(x);
                        assert(ks[j] == x);
                        let j0 = if j < i { j } else { j + 1 };
                        assert(ks0[j0] == x);
                    }
                    assert forall|x: K::V| before@.contains_key(x) && x != key@ implies self@.contains_key(
                    x) by {
                        let j0 = ks0.index_of(x);
                        assert(ks0[j0] == x);
                        let j = if j0 < i { j0 } else { j0 - 1 };
                        assert(ks[j] == x);
                    }
                }
            }
            Some(v)
        } else {
            assert(before@.remove(key@) =~= before@);
            None
        }
    }

    pub fn clear(&mut self)
        ensures
            final(self).wf(),
            final(self)@ == Map::<K::V, T::V>::empty(),
    {
        self.keys.clear();
        self.values.clear();
        assert(self@ =~= Map::<K::V, T::V>::empty());
    }
}

/// A set has one ascending enumeration.
pub proof fn lemma_ascending_unique<K: SortKey>(a: Seq<K::V>, b: Seq<K::V>)
    requires
        ascending::<K>(a),
        ascending::<K>(b),
        a.to_set() == b.to_set(),
    ensures
        a == b,
    decreases a.len(),
{
    if a.len() == 0 {
        if b.len() > 0 {
            assert(b.to_set().contains(b[0]));
            assert(a.contains(b[0]));
        }
        assert(a =~= b);
    } else {
        assert(a.to_set().contains(a[0]));
        assert(b.contains(a[0]));
        let j = b.index_of(a[0]);
        assert(b.to_set().contains(b[0]));
        assert(a.contains(b[0]));
        let i = a.index_of(b[0]);
        if a[0] != b[0] {
            assert(K::key_before(a[0], a[i]));
            assert(K::key_before(b[0], b[j]));
            K::order_transitive(a[0], b[0], a[0]);
            K::order_irreflexive(a[0]);
        }
        let ra = a.drop_first();
        let rb = b.drop_first();
        assert forall|x: K::V| #[trigger] ra.to_set().contains(x) implies rb.to_set().contains(x) by {
            let p = ra.index_of(x);
            assert(a[p + 1] == x);
            assert(a.to_set().contains(x));
            assert(b.contains(x));
            let q = b.index_of(x);
            K::order_irreflexive(x);
            assert(K::key_before(a[0], a[p + 1]));
            assert(q != 0);
            assert(rb[q - 1] == x);
        }
        assert forall|x: K::V| #[trigger] rb.to_set().contains(x) implies ra.to_set().contains(x) by {
            let p = rb.index_of(x);
            assert(b[p + 1] == x);
            assert(b.to_set().contains(x));
            assert(a.contains(x));
            let q = a.index_of(x);
            K::order_irreflexive(x);
            assert(K::key_before(b[0], b[p + 1]));
            assert(q != 0);
            assert(ra[q - 1] == x);
        }
        assert(ra.to_set() =~= rb.to_set());
        assert forall|p: int, q: int|
            #![trigger ra[p], ra[q]]
            0 <= p < q < ra.len() implies K::key_before(ra[p], ra[q]) by {
            assert(K::key_before(a[p + 1], a[q + 1]));
        }
        assert forall|p: int, q: int|
            #![trigger rb[p], rb[q]]
            0 <= p < q < rb.len() implies K::key_before(rb[p], rb[q]) by {
            assert(K::key_before(b[p + 1], b[q + 1]));
        }
        lemma_ascending_unique::<K>(ra, rb);
        assert(b.len() > 0);
        assert(a =~= seq![a[0]] + ra);
        assert(b =~= seq![b[0]] + rb);
    }
}

impl<K: SortKey + Duplicate, T: Duplicate> SortedMap<K, T> {
    /// A copy with the same contents.
    pub fn copy(&self) -> (r: Self)
        requires
            self.wf(),
        ensures
            r.wf(),
            r@ == self@,
            r.key_seq() == self.key_seq(),
            r.value_seq() == self.value_seq(),
    {
        let mut keys: Vec<K> = Vec::new();
        let mut values: Vec<T> = Vec::new();
        let mut i: usize = 0;
        while i < self.keys.len()
            invariant
                self.wf(),
                i <= self.keys@.len(),
                keys@.len() == i,
                values@.len() == i,
                forall|j: int| 0 <= j < i ==> #[trigger] keys@[j]@ == self.keys@[j]@,
                forall|j: int| 0 <= j < i ==> #[trigger] values@[j]@ == self.values@[j]@,
            decreases self.keys@.len() - i,
        {
            keys.push(self.keys[i].duplicate());
            values.push(self.values[i].duplicate());
            i = i + 1;
        }
        let r = SortedMap { keys, values };
        proof {
            assert(r.key_seq() =~= self.key_seq());
            assert(r.value_seq() =~= self.value_seq());
            assert(r@ =~= self@);
        }
        r
    }
}

/// A set kept in ascending order.
pub struct SortedSet<K: SortKey> {
    rows: SortedMap<K, ()>,
}

impl<K: SortKey> View for SortedSet<K> {
    type V = Set<K::V>;

    closed spec fn view(&self) -> Set<K::V> {
        self.rows@.dom()
    }
}

impl<K: SortKey> SortedSet<K> {
    /// The members in order.
    pub closed spec fn key_seq(self) -> Seq<K::V> {
        self.rows.key_seq()
    }

    pub closed spec fn wf(self) -> bool {
        self.rows.wf()
    }

    pub proof fn lemma_rows(self)
        requires
            self.wf(),
        ensures
            self.key_seq().len() <= usize::MAX,
            ascending::<K>(self.key_seq()),
            self.key_seq().no_duplicates(),
            forall|k: K::V| #[trigger] self@.contains(k) <==> self.key_seq().contains(k),
            self@ == self.key_seq().to_set(),
            self@.finite(),
            self@.len() == self.key_seq().len(),
            self.key_seq() == in_order::<K>(self@),
    {
        self.rows.lemma_rows();
    }

    /// The members as the keys of a map.
    pub fn as_map(&self) -> (r: &SortedMap<K, ()>)
        requires
            self.wf(),
        ensures
            r.wf(),
            r.key_seq() == self.key_seq(),
            r@.dom() == self@,
    {
        &self.rows
    }

    pub fn new() -> (r: Self)
        ensures
            r.wf(),
            r@ == Set::<K::V>::empty(),
            r.key_seq().len() == 0,
    {
        let r = SortedSet { rows: SortedMap::new() };
        assert(r@ =~= Set::<K::V>::empty());
        r
    }

    pub fn len(&self) -> (r: usize)
        requires
            self.wf(),
        ensures
            r == self.key_seq().len(),
            r == self@.len(),
    {
        self.rows.len()
    }

    pub fn key_at(&self, i: usize) -> (r: &K)
        requires
            self.wf(),
            i < self.key_seq().len(),
        ensures
            r@ == self.key_seq()[i as int],
    {
        self.rows.key_at(i)
    }

    pub fn contains(&self, key: &K) -> (r: bool)
        requires
            self.wf(),
        ensures
            r == self@.contains(key@),
    {
        self.rows.contains_key(key)
    }

    pub fn insert(&mut self, key: K)
        requires
            old(self).wf(),
        ensures
            final(self).wf(),
            final(self)@ == old(self)@.insert(key@),
    {
        let ghost before = self@;
        let ghost k = key@;
        self.rows.insert(key, ());
        assert(self@ =~= before.insert(k));
    }

    /// Takes `key` out; `true` if it was there.
    pub fn remove(&mut self, key: &K) -> (r: bool)
        requires
            old(self).wf(),
        ensures
            final(self).wf(),
            final(self)@ == old(self)@.remove(key@),
            r == old(self)@.contains(key@),
    {
        let ghost before = self@;
        let out = self.rows.remove(key);
        assert(self@ =~= before.remove(key@));
        match out {
            Some(_) => true,
            None => false,
        }
    }
}

impl<K: SortKey + Duplicate> SortedSet<K> {
    pub fn copy(&self) -> (r: Self)
        requires
            self.wf(),
        ensures
            r.wf(),
            r@ == self@,
            r.key_seq() == self.key_seq(),
    {
        SortedSet { rows: self.rows.copy() }
    }
}

} // verus!
