//! Sums over enumerations, which do not depend on the order.

use vstd::prelude::*;

verus! {

/// The weights of the items together.
pub open spec fn sum_over<A>(items: Seq<A>, weight: spec_fn(A) -> nat) -> nat
    decreases items.len(),
{
    if items.len() == 0 {
        0
    } else {
        sum_over(items.drop_last(), weight) + weight(items.last())
    }
}

/// An item can be taken out of a sum.
pub proof fn lemma_sum_without<A>(items: Seq<A>, i: int, weight: spec_fn(A) -> nat)
    requires
        0 <= i < items.len(),
    ensures
        sum_over(items, weight) == sum_over(items.remove(i), weight) + weight(items[i]),
    decreases items.len(),
{
    let rest = items.remove(i);
    if i == items.len() - 1 {
        assert(rest =~= items.drop_last());
    } else {
        lemma_sum_without(items.drop_last(), i, weight);
        assert(rest.drop_last() =~= items.drop_last().remove(i));
        assert(rest.last() == items.last());
    }
}

/// Two enumerations of the same items have the same sum.
pub proof fn lemma_sum_of_set<A>(a: Seq<A>, b: Seq<A>, weight: spec_fn(A) -> nat)
    requires
        a.no_duplicates(),
        b.no_duplicates(),
        a.to_set() == b.to_set(),
    ensures
        sum_over(a, weight) == sum_over(b, weight),
    decreases a.len(),
{
    if a.len() == 0 {
        if b.len() > 0 {
            assert(b.to_set().contains(b[0]));
            assert(a.contains(b[0]));
        }
        assert(b.len() == 0);
    } else {
        let x = a.last();
        assert(a[a.len() - 1] == x);
        assert(a.contains(x));
        assert(a.to_set().contains(x));
        assert(b.to_set().contains(x));
        assert(b.contains(x));
        let i = b.index_of(x);
        let front = a.drop_last();
        let rest = b.remove(i);
        lemma_sum_without(b, i, weight);
        assert forall|y: A| front.to_set().contains(y) <==> rest.to_set().contains(y) by {
            if front.contains(y) {
                let j = front.index_of(y);
                assert(a[j] == y);
                assert(a.contains(y));
                assert(a.to_set().contains(y));
                assert(b.to_set().contains(y));
                assert(b.contains(y));
                let k = b.index_of(y);
                assert(a[j] != a[a.len() - 1]);
                assert(k != i);
                assert(rest[if k < i {
                    k
                } else {
                    k - 1
                }] == y);
                assert(rest.contains(y));
            }
            if rest.contains(y) {
                let k = rest.index_of(y);
                let m = if k < i {
                    k
                } else {
                    k + 1
                };
                assert(b[m] == y);
                assert(b.contains(y));
                assert(b.to_set().contains(y));
                assert(a.to_set().contains(y));
                assert(a.contains(y));
                let j = a.index_of(y);
                assert(b[m] != b[i]);
                assert(front[j] == y);
                assert(front.contains(y));
            }
        }
        assert(front.to_set() =~= rest.to_set());
        assert(rest.no_duplicates()) by {
            assert forall|p: int, q: int| 0 <= p < rest.len() && 0 <= q < rest.len() && p
                != q implies rest[p] != rest[q] by {
                let p2 = if p < i {
                    p
                } else {
                    p + 1
                };
                let q2 = if q < i {
                    q
                } else {
                    q + 1
                };
                assert(rest[p] == b[p2] && rest[q] == b[q2]);
            }
        }
        assert(front.no_duplicates());
        lemma_sum_of_set(front, rest, weight);
    }
}

/// A sum grows by the weight of an item that comes new to the enumeration.
pub proof fn lemma_sum_with_one<A>(a: Seq<A>, b: Seq<A>, x: A, weight: spec_fn(A) -> nat)
    requires
        a.no_duplicates(),
        b.no_duplicates(),
        !a.contains(x),
        b.to_set() == a.to_set().insert(x),
    ensures
        sum_over(b, weight) == sum_over(a, weight) + weight(x),
{
    let more = a.push(x);
    assert(more.no_duplicates()) by {
        assert forall|p: int, q: int| 0 <= p < more.len() && 0 <= q < more.len() && p
            != q implies more[p] != more[q] by {
            if p < a.len() && q == a.len() {
                assert(a.contains(a[p]));
            } else if q < a.len() && p == a.len() {
                assert(a.contains(a[q]));
            }
        }
    }
    assert forall|y: A| more.to_set().contains(y) <==> b.to_set().contains(y) by {
        if a.contains(y) {
            let j = a.index_of(y);
            assert(more[j] == y);
            assert(more.contains(y));
        }
        if y == x {
            assert(more[a.len() as int] == x);
            assert(more.contains(x));
        }
        if more.contains(y) {
            let j = more.index_of(y);
            if j < a.len() {
                assert(a[j] == y);
                assert(a.contains(y));
                assert(a.to_set().contains(y));
            }
        }
        assert(a.to_set().contains(y) == a.contains(y));
    }
    assert(more.to_set() =~= b.to_set());
    lemma_sum_of_set(b, more, weight);
    assert(more.drop_last() =~= a);
}

/// Weights that agree on the items give the same sum.
pub proof fn lemma_sum_same<A>(items: Seq<A>, v: spec_fn(A) -> nat, w: spec_fn(A) -> nat)
    requires
        forall|i: int| 0 <= i < items.len() ==> v(#[trigger] items[i]) == w(items[i]),
    ensures
        sum_over(items, v) == sum_over(items, w),
    decreases items.len(),
{
    if items.len() > 0 {
        let front = items.drop_last();
        assert forall|i: int| 0 <= i < front.len() implies v(#[trigger] front[i]) == w(
            front[i],
        ) by {
            assert(front[i] == items[i]);
        }
        lemma_sum_same(front, v, w);
        assert(v(items[items.len() - 1]) == w(items[items.len() - 1]));
    }
}

} // verus!
