//! Helpers of the `itertools` crate, with what is believed of them.

use vstd::prelude::*;

verus! {

/// `Itertools::all_unique` on the bytes of a slice: whether no byte occurs
/// twice.
#[verifier::external_body]
pub(crate) fn all_unique(s: &[u8]) -> (r: bool)
    ensures
        r == s@.no_duplicates(),
{
    itertools::Itertools::all_unique(&mut s.iter())
}

/// `Itertools::tuples` on the numbers of a slice, gathered in a vector:
/// the numbers two by two, in their order; a number that is left over at
/// the end is dropped.
#[verifier::external_body]
pub(crate) fn pairs(v: &[u64]) -> (r: Vec<(u64, u64)>)
    ensures
        r@.len() == v@.len() / 2,
        forall|i: int| 0 <= i < r@.len() ==> #[trigger] r@[i] == (v@[2 * i], v@[2 * i + 1]),
{
    itertools::Itertools::tuples(v.iter().copied()).collect()
}

/// `Itertools::tuple_windows` on the points of a slice, gathered in a
/// vector: each point with the one that follows it, in their order.
#[verifier::external_body]
pub(crate) fn windows(v: &[(usize, usize)]) -> (r: Vec<((usize, usize), (usize, usize))>)
    ensures
        r@.len() == if v@.len() == 0 {
            0
        } else {
            v@.len() - 1
        },
        forall|i: int| 0 <= i < r@.len() ==> #[trigger] r@[i] == (v@[i], v@[i + 1]),
{
    itertools::Itertools::tuple_windows(v.iter().copied()).collect()
}

/// `Itertools::chunks` on the values of a slice, each chunk gathered in a
/// vector: the values in their order, `size` to a chunk, the last chunk
/// holding what is left. The size must not be zero.
#[verifier::external_body]
pub(crate) fn chunks(v: &[bool], size: usize) -> (r: Vec<Vec<bool>>)
    requires
        size > 0,
    ensures
        r@.len() == (v@.len() + size - 1) / (size as int),
        forall|i: int|
            0 <= i < r@.len() ==> (#[trigger] r@[i])@ == v@.subrange(
                i * size,
                if (i + 1) * size < v@.len() {
                    (i + 1) * size
                } else {
                    v@.len() as int
                },
            ),
{
    let groups = itertools::Itertools::chunks(v.iter().copied(), size);
    (&groups).into_iter().map(|chunk| chunk.collect()).collect()
}

/// The place of `x` among the pairs `sorted`: behind the last whose first
/// number is not greater.
pub open spec fn slot(sorted: Seq<(i64, i64)>, x: (i64, i64)) -> int
    decreases sorted.len(),
{
    if sorted.len() == 0 || sorted.last().0 <= x.0 {
        sorted.len() as int
    } else {
        slot(sorted.drop_last(), x)
    }
}

/// The first `k` of the pairs in the order of their first numbers; of two
/// pairs with the same first number the one that came first stays first.
pub open spec fn stable_sorted(v: Seq<(i64, i64)>, k: nat) -> Seq<(i64, i64)>
    decreases k,
{
    if k == 0 {
        Seq::empty()
    } else {
        let before = stable_sorted(v, (k - 1) as nat);
        before.insert(slot(before, v[k - 1]), v[k - 1])
    }
}

/// A place among `sorted` is one of its indices or its length.
pub proof fn lemma_slot(sorted: Seq<(i64, i64)>, x: (i64, i64))
    ensures
        0 <= slot(sorted, x) <= sorted.len(),
    decreases sorted.len(),
{
    if !(sorted.len() == 0 || sorted.last().0 <= x.0) {
        lemma_slot(sorted.drop_last(), x);
    }
}

/// As many pairs are in order as were put in order.
pub proof fn lemma_stable_sorted_len(v: Seq<(i64, i64)>, k: nat)
    ensures
        stable_sorted(v, k).len() == k,
    decreases k,
{
    if k > 0 {
        lemma_stable_sorted_len(v, (k - 1) as nat);
        lemma_slot(stable_sorted(v, (k - 1) as nat), v[k - 1]);
    }
}

/// Whether the first numbers of the pairs rise, or stay, from each pair
/// to the next.
pub open spec fn rising(s: Seq<(i64, i64)>) -> bool {
    forall|i: int, j: int| 0 <= i < j < s.len() ==> (#[trigger] s[i]).0 <= (#[trigger] s[j]).0
}

/// Behind its place among rising pairs every first number is greater
/// than that of `x`, and before it none is.
pub proof fn lemma_slot_sides(sorted: Seq<(i64, i64)>, x: (i64, i64))
    requires
        rising(sorted),
    ensures
        0 <= slot(sorted, x) <= sorted.len(),
        forall|i: int| slot(sorted, x) <= i < sorted.len() ==> (#[trigger] sorted[i]).0 > x.0,
        forall|i: int| 0 <= i < slot(sorted, x) ==> (#[trigger] sorted[i]).0 <= x.0,
    decreases sorted.len(),
{
    if sorted.len() > 0 {
        if sorted.last().0 <= x.0 {
            assert forall|i: int| 0 <= i < sorted.len() implies (#[trigger] sorted[i]).0 <= x.0 by {
                if i < sorted.len() - 1 {
                    assert(sorted[i].0 <= sorted[sorted.len() - 1].0);
                }
            }
        } else {
            let front = sorted.drop_last();
            assert forall|i: int, j: int| 0 <= i < j < front.len() implies (#[trigger] front[i]).0 <= (
            #[trigger] front[j]).0 by {
                assert(front[i] == sorted[i]);
                assert(front[j] == sorted[j]);
            }
            lemma_slot_sides(front, x);
            assert forall|i: int| slot(sorted, x) <= i < sorted.len() implies (#[trigger] sorted[i]).0
                > x.0 by {
                if i < front.len() {
                    assert(front[i] == sorted[i]);
                }
            }
            assert forall|i: int| 0 <= i < slot(sorted, x) implies (#[trigger] sorted[i]).0 <= x.0 by {
                assert(front[i] == sorted[i]);
            }
        }
    }
}

/// Pairs put in order rise by their first numbers, and are the pairs that
/// were put in order: each of those is among them, and each of them is
/// one of those.
pub proof fn lemma_stable_sorted(v: Seq<(i64, i64)>, k: nat)
    requires
        k <= v.len(),
    ensures
        stable_sorted(v, k).len() == k,
        rising(stable_sorted(v, k)),
        forall|i: int| 0 <= i < k ==> stable_sorted(v, k).contains(#[trigger] v[i]),
        forall|j: int|
            0 <= j < k ==> exists|i: int| 0 <= i < k && v[i] == #[trigger] stable_sorted(v, k)[j],
    decreases k,
{
    if k > 0 {
        lemma_stable_sorted(v, (k - 1) as nat);
        let before = stable_sorted(v, (k - 1) as nat);
        let x = v[k - 1];
        let p = slot(before, x);
        lemma_slot_sides(before, x);
        let now = before.insert(p, x);
        assert(now == stable_sorted(v, k));
        assert forall|i: int, j: int| 0 <= i < j < now.len() implies (#[trigger] now[i]).0 <= (
        #[trigger] now[j]).0 by {
            let a = if i < p {
                i
            } else {
                i - 1
            };
            let b = if j < p {
                j
            } else {
                j - 1
            };
            if i != p {
                assert(now[i] == before[a]);
            }
            if j != p {
                assert(now[j] == before[b]);
            }
            if i != p && j != p {
                if a < b {
                    assert(before[a].0 <= before[b].0);
                }
            }
        }
        assert forall|i: int| 0 <= i < k implies now.contains(#[trigger] v[i]) by {
            if i == k - 1 {
                assert(now[p] == x);
            } else {
                assert(before.contains(v[i]));
                let q = choose|q: int| 0 <= q < before.len() && before[q] == v[i];
                let r = if q < p {
                    q
                } else {
                    q + 1
                };
                assert(now[r] == before[q]);
            }
        }
        assert forall|j: int| 0 <= j < k implies exists|i: int|
            0 <= i < k && v[i] == #[trigger] now[j] by {
            if j == p {
                assert(v[k - 1] == now[j]);
            } else {
                let q = if j < p {
                    j
                } else {
                    j - 1
                };
                assert(now[j] == before[q]);
                let i = choose|i: int| 0 <= i < k - 1 && v[i] == before[q];
                assert(v[i] == now[j]);
            }
        }
    }
}

/// `Itertools::sorted_by_key` on the pairs of a slice, with the first
/// number of a pair as its key, gathered in a vector: the pairs in
/// ascending order of their first numbers, by a stable sort.
#[verifier::external_body]
pub(crate) fn sorted_by_first(v: &[(i64, i64)]) -> (r: Vec<(i64, i64)>)
    ensures
        r@ == stable_sorted(v@, v@.len()),
{
    itertools::Itertools::sorted_by_key(v.iter().copied(), |p| p.0).collect()
}

} // verus!
