//! Lexicographic order on sequences, and the key types that are sorted by it.

use vstd::prelude::*;

verus! {

/// `a` comes before `b` when they are compared item by item by `rank`, and a
/// proper prefix comes before the longer sequence.
pub open spec fn lex_before<T>(a: Seq<T>, b: Seq<T>, rank: spec_fn(T) -> int) -> bool
    decreases a.len(),
{
    if b.len() == 0 {
        false
    } else if a.len() == 0 {
        true
    } else if rank(a[0]) == rank(b[0]) {
        lex_before(a.drop_first(), b.drop_first(), rank)
    } else {
        rank(a[0]) < rank(b[0])
    }
}

pub proof fn lemma_lex_irreflexive<T>(a: Seq<T>, rank: spec_fn(T) -> int)
    ensures
        !lex_before(a, a, rank),
    decreases a.len(),
{
    if a.len() > 0 {
        lemma_lex_irreflexive(a.drop_first(), rank);
    }
}

pub proof fn lemma_lex_transitive<T>(a: Seq<T>, b: Seq<T>, c: Seq<T>, rank: spec_fn(T) -> int)
    requires
        lex_before(a, b, rank),
        lex_before(b, c, rank),
    ensures
        lex_before(a, c, rank),
    decreases a.len(),
{
    if a.len() > 0 && rank(a[0]) == rank(b[0]) && rank(b[0]) == rank(c[0]) {
        lemma_lex_transitive(a.drop_first(), b.drop_first(), c.drop_first(), rank);
    }
}

pub proof fn lemma_lex_total<T>(a: Seq<T>, b: Seq<T>, rank: spec_fn(T) -> int)
    requires
        forall|x: T, y: T| #![trigger rank(x), rank(y)] rank(x) == rank(y) ==> x == y,
        a != b,
    ensures
        lex_before(a, b, rank) || lex_before(b, a, rank),
    decreases a.len(),
{
    if a.len() > 0 && b.len() > 0 && rank(a[0]) == rank(b[0]) {
        if a.drop_first() == b.drop_first() {
            assert(a =~= seq![a[0]] + a.drop_first());
            assert(b =~= seq![b[0]] + b.drop_first());
        }
        lemma_lex_total(a.drop_first(), b.drop_first(), rank);
    } else if a.len() == 0 && b.len() == 0 {
        assert(a =~= b);
    }
}

/// Two sequences that agree on their first `n` items compare as their rests do.
pub proof fn lemma_lex_skip<T>(a: Seq<T>, b: Seq<T>, n: int, rank: spec_fn(T) -> int)
    requires
        0 <= n <= a.len(),
        n <= b.len(),
        forall|i: int| 0 <= i < n ==> a[i] == b[i],
    ensures
        lex_before(a, b, rank) == lex_before(a.skip(n), b.skip(n), rank),
    decreases n,
{
    if n > 0 {
        lemma_lex_skip(a.drop_first(), b.drop_first(), n - 1, rank);
        assert(a.drop_first().skip(n - 1) =~= a.skip(n));
        assert(b.drop_first().skip(n - 1) =~= b.skip(n));
    } else {
        assert(a.skip(0) =~= a);
        assert(b.skip(0) =~= b);
    }
}

/// Of two sequences of the same length the one that comes first still does with anything behind
/// them, and with the same items in front of them.
pub proof fn lemma_lex_field<T>(
    front: Seq<T>,
    a: Seq<T>,
    b: Seq<T>,
    more_a: Seq<T>,
    more_b: Seq<T>,
    rank: spec_fn(T) -> int,
)
    requires
        a.len() == b.len(),
        lex_before(a, b, rank),
    ensures
        lex_before(front + a + more_a, front + b + more_b, rank),
{
    let x = front + a + more_a;
    let y = front + b + more_b;
    let n = front.len() as int;
    lemma_lex_skip(x, y, n, rank);
    assert(x.skip(n) =~= a + more_a);
    assert(y.skip(n) =~= b + more_b);
    lemma_lex_longer(a, b, more_a, more_b, rank);
}

proof fn lemma_lex_longer<T>(
    a: Seq<T>,
    b: Seq<T>,
    more_a: Seq<T>,
    more_b: Seq<T>,
    rank: spec_fn(T) -> int,
)
    requires
        a.len() == b.len(),
        lex_before(a, b, rank),
    ensures
        lex_before(a + more_a, b + more_b, rank),
    decreases a.len(),
{
    let x = a + more_a;
    let y = b + more_b;
    assert(x[0] == a[0] && y[0] == b[0]);
    if rank(a[0]) == rank(b[0]) {
        lemma_lex_longer(a.drop_first(), b.drop_first(), more_a, more_b, rank);
        assert(x.drop_first() =~= a.drop_first() + more_a);
        assert(y.drop_first() =~= b.drop_first() + more_b);
    }
}

/// The place of a character in the order of texts: its code point.
pub open spec fn char_rank() -> spec_fn(char) -> int {
    |c: char| c as int
}

/// The place of a byte in the order of byte strings.
pub open spec fn byte_rank() -> spec_fn(u8) -> int {
    |b: u8| b as int
}

/// A type whose values are kept sorted by a strict total order on their views.
pub trait SortKey: View + Sized {
    spec fn key_before(a: Self::V, b: Self::V) -> bool;

    proof fn order_irreflexive(a: Self::V)
        ensures
            !Self::key_before(a, a),
    ;

    proof fn order_transitive(a: Self::V, b: Self::V, c: Self::V)
        requires
            Self::key_before(a, b),
            Self::key_before(b, c),
        ensures
            Self::key_before(a, c),
    ;

    proof fn order_total(a: Self::V, b: Self::V)
        requires
            a != b,
        ensures
            Self::key_before(a, b) || Self::key_before(b, a),
    ;

    fn is_before(&self, other: &Self) -> (r: bool)
        ensures
            r == Self::key_before(self@, other@),
    ;

    fn is_same(&self, other: &Self) -> (r: bool)
        ensures
            r == (self@ == other@),
    ;
}

impl SortKey for String {
    open spec fn key_before(a: Seq<char>, b: Seq<char>) -> bool {
        lex_before(a, b, char_rank())
    }

    proof fn order_irreflexive(a: Seq<char>) {
        lemma_lex_irreflexive(a, char_rank());
    }

    proof fn order_transitive(a: Seq<char>, b: Seq<char>, c: Seq<char>) {
        lemma_lex_transitive(a, b, c, char_rank());
    }

    proof fn order_total(a: Seq<char>, b: Seq<char>) {
        lemma_lex_total(a, b, char_rank());
    }

    fn is_before(&self, other: &Self) -> (r: bool) {
        let mut left = self.chars();
        let mut right = other.chars();
        let ghost mut n: int = 0;
        proof {
            assert(self@.skip(0) =~= self@);
            assert(other@.skip(0) =~= other@);
        }
        loop
            invariant
                0 <= n <= self@.len(),
                n <= other@.len(),
                forall|i: int| 0 <= i < n ==> self@[i] == other@[i],
                vstd::std_specs::iter::IteratorSpec::remaining(&left) == self@.skip(n),
                vstd::std_specs::iter::IteratorSpec::remaining(&right) == other@.skip(n),
            decreases self@.len() - n,
        {
            proof {
                lemma_lex_skip(self@, other@, n, char_rank());
            }
            let l = left.next();
            let r = right.next();
            match (l, r) {
                (_, None) => {
                    return false;
                },
                (None, Some(_)) => {
                    return true;
                },
                (Some(x), Some(y)) => {
                    if x != y {
                        return x < y;
                    }
                    proof {
                        assert(self@.skip(n).drop_first() =~= self@.skip(n + 1));
                        assert(other@.skip(n).drop_first() =~= other@.skip(n + 1));
                        n = n + 1;
                    }
                },
            }
        }
    }

    fn is_same(&self, other: &Self) -> (r: bool) {
        *self == *other
    }
}

impl SortKey for [u8; 32] {
    open spec fn key_before(a: Seq<u8>, b: Seq<u8>) -> bool {
        lex_before(a, b, byte_rank())
    }

    proof fn order_irreflexive(a: Seq<u8>) {
        lemma_lex_irreflexive(a, byte_rank());
    }

    proof fn order_transitive(a: Seq<u8>, b: Seq<u8>, c: Seq<u8>) {
        lemma_lex_transitive(a, b, c, byte_rank());
    }

    proof fn order_total(a: Seq<u8>, b: Seq<u8>) {
        lemma_lex_total(a, b, byte_rank());
    }

    fn is_before(&self, other: &Self) -> (r: bool) {
        let mut i: usize = 0;
        while i < 32
            invariant
                i <= 32,
                forall|j: int| 0 <= j < i ==> self@[j] == other@[j],
            decreases 32 - i,
        {
            if self[i] != other[i] {
                proof {
                    lemma_lex_skip(self@, other@, i as int, byte_rank());
                }
                return self[i] < other[i];
            }
            i = i + 1;
        }
        proof {
            lemma_lex_skip(self@, other@, 32, byte_rank());
        }
        false
    }

    fn is_same(&self, other: &Self) -> (r: bool) {
        let mut i: usize = 0;
        while i < 32
            invariant
                i <= 32,
                forall|j: int| 0 <= j < i ==> self@[j] == other@[j],
            decreases 32 - i,
        {
            if self[i] != other[i] {
                return false;
            }
            i = i + 1;
        }
        assert(self@ =~= other@);
        true
    }
}

impl SortKey for u64 {
    open spec fn key_before(a: u64, b: u64) -> bool {
        a < b
    }

    proof fn order_irreflexive(a: u64) {
    }

    proof fn order_transitive(a: u64, b: u64, c: u64) {
    }

    proof fn order_total(a: u64, b: u64) {
    }

    fn is_before(&self, other: &Self) -> (r: bool) {
        *self < *other
    }

    fn is_same(&self, other: &Self) -> (r: bool) {
        *self == *other
    }
}

/// Texts stand in the order of their characters: the first one in which they differ decides by
/// its code point, and a text stands in front of every longer one that begins with it.
pub proof fn texts_are_ordered_by_code_points(a: Seq<char>, b: Seq<char>, n: int)
    requires
        0 <= n <= a.len(),
        n < b.len(),
        forall|i: int| 0 <= i < n ==> a[i] == b[i],
        n < a.len() ==> (a[n] as int) < b[n] as int,
    ensures
        <String as SortKey>::key_before(a, b),
        !<String as SortKey>::key_before(b, a),
{
    lemma_lex_skip(a, b, n, char_rank());
    assert(lex_before(a.skip(n), b.skip(n), char_rank()));
    lemma_lex_skip(b, a, n, char_rank());
}

/// Byte strings stand in the order of their bytes, as texts do in that of their characters.
pub proof fn byte_strings_are_ordered_by_bytes(a: Seq<u8>, b: Seq<u8>, n: int)
    requires
        0 <= n <= a.len(),
        n < b.len(),
        forall|i: int| 0 <= i < n ==> a[i] == b[i],
        n < a.len() ==> a[n] < b[n],
    ensures
        <[u8; 32] as SortKey>::key_before(a, b),
        !<[u8; 32] as SortKey>::key_before(b, a),
{
    lemma_lex_skip(a, b, n, byte_rank());
    assert(lex_before(a.skip(n), b.skip(n), byte_rank()));
    lemma_lex_skip(b, a, n, byte_rank());
}

/// Numbers stand in their own order.
pub proof fn numbers_are_ordered_by_size(a: u64, b: u64)
    ensures
        <u64 as SortKey>::key_before(a, b) <==> a < b,
{
}

} // verus!
