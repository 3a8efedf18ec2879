//! Pairs of ranges that overlap.

use crate::text::{parse_i32, parse_int, split, split_on, views};
use vstd::prelude::*;
use vstd::string::*;

verus! {

/// The numbers that the first `k` pieces spell, the pieces that spell
/// none left out.
pub open spec fn numbers_in(ps: Seq<Seq<u8>>, k: nat) -> Seq<int>
    decreases k,
{
    if k == 0 {
        Seq::empty()
    } else {
        match parse_int(ps[k - 1], i32::MIN as int, i32::MAX as int) {
            Some(v) => numbers_in(ps, (k - 1) as nat).push(v),
            None => numbers_in(ps, (k - 1) as nat),
        }
    }
}

/// The range that the text spells: the first two numbers among its pieces
/// between hyphens.
pub open spec fn range_of(s: Seq<u8>) -> Option<(int, int)> {
    let ps = split_on(s, seq![45u8]);
    let ns = numbers_in(ps, ps.len());
    if ns.len() >= 2 {
        Some((ns[0], ns[1]))
    } else {
        None
    }
}

/// The first pair of ranges among the first `k` pairs of pieces.
pub open spec fn pair_in(ps: Seq<Seq<u8>>, k: nat) -> Option<((int, int), (int, int))>
    decreases k,
{
    if k == 0 {
        None
    } else {
        match pair_in(ps, (k - 1) as nat) {
            Some(p) => Some(p),
            None => match (range_of(ps[2 * k - 2]), range_of(ps[2 * k - 1])) {
                (Some(a), Some(b)) => Some((a, b)),
                _ => None,
            },
        }
    }
}

/// The two ranges that the line spells: the first pair of neighbours
/// among its pieces between commas that both spell ranges.
pub open spec fn ranges_of(line: Seq<u8>) -> Option<((int, int), (int, int))> {
    let ps = split_on(line, seq![44u8]);
    pair_in(ps, ps.len() / 2)
}

/// Whether the two ranges share a number.
pub open spec fn spec_overlaps(x: (int, int), y: (int, int)) -> bool {
    x.0 <= y.1 && y.0 <= x.1
}

/// Whether one of the two ranges holds the other.
pub open spec fn spec_completely_overlaps(x: (int, int), y: (int, int)) -> bool {
    (y.0 <= x.0 && x.1 <= y.1) || (x.0 <= y.0 && y.1 <= x.1)
}

/// The range that the text spells.
pub fn range_str_to_tuple(range: &[u8]) -> (r: Option<(i32, i32)>)
    ensures
        match r {
            Some(t) => range_of(range@) == Some((t.0 as int, t.1 as int)),
            None => range_of(range@) is None,
        },
{
    let hyphen: [u8; 1] = [45];
    proof {
        assert(hyphen@ =~= seq![45u8]);
    }
    let ps = split(range, hyphen.as_slice());
    let ghost pv = split_on(range@, seq![45u8]);
    let mut first: Option<i32> = None;
    let mut i: usize = 0;
    while i < ps.len()
        invariant
            i <= ps.len(),
            pv == views(ps@),
            pv == split_on(range@, seq![45u8]),
            numbers_in(pv, i as nat).len() <= 1,
            match first {
                Some(v) => numbers_in(pv, i as nat) == seq![v as int],
                None => numbers_in(pv, i as nat).len() == 0,
            },
        decreases ps.len() - i,
    {
        assert(ps@[i as int]@ == pv[i as int]);
        match parse_i32(ps[i].as_slice()) {
            Some(v) => {
                match first {
                    Some(a) => {
                        proof {
                            lemma_numbers_grow(pv, (i + 1) as nat, pv.len());
                        }
                        return Some((a, v));
                    },
                    None => {
                        first = Some(v);
                    },
                }
            },
            None => {},
        }
        i += 1;
    }
    None
}

/// The numbers of more pieces begin with the numbers of fewer.
pub proof fn lemma_numbers_grow(ps: Seq<Seq<u8>>, j: nat, k: nat)
    requires
        j <= k,
    ensures
        numbers_in(ps, j).len() <= numbers_in(ps, k).len(),
        forall|i: int| 0 <= i < numbers_in(ps, j).len() ==> numbers_in(ps, j)[i] == numbers_in(ps, k)[i],
    decreases k,
{
    if j < k {
        lemma_numbers_grow(ps, j, (k - 1) as nat);
    }
}

/// The two ranges that the line spells.
pub fn line_to_range_tuple(line: &[u8]) -> (r: Option<((i32, i32), (i32, i32))>)
    ensures
        match r {
            Some((a, b)) => ranges_of(line@) == Some(
                ((a.0 as int, a.1 as int), (b.0 as int, b.1 as int)),
            ),
            None => ranges_of(line@) is None,
        },
{
    let comma: [u8; 1] = [44];
    proof {
        assert(comma@ =~= seq![44u8]);
    }
    let ps = split(line, comma.as_slice());
    let ghost pv = split_on(line@, seq![44u8]);
    let pairs: usize = ps.len() / 2;
    let mut k: usize = 0;
    while k < pairs
        invariant
            k <= pairs,
            pairs == ps.len() / 2,
            pv == views(ps@),
            pv == split_on(line@, seq![44u8]),
            pair_in(pv, k as nat) is None,
        decreases pairs - k,
    {
        assert(ps@[2 * k]@ == pv[2 * k]);
        assert(ps@[2 * k + 1]@ == pv[2 * k + 1]);
        let a = range_str_to_tuple(ps[2 * k].as_slice());
        let b = range_str_to_tuple(ps[2 * k + 1].as_slice());
        match (a, b) {
            (Some(x), Some(y)) => {
                proof {
                    lemma_pair_stays(pv, (k + 1) as nat, pairs as nat);
                }
                return Some((x, y));
            },
            _ => {},
        }
        k += 1;
    }
    None
}

/// The first pair found among fewer pairs is the first among more.
pub proof fn lemma_pair_stays(ps: Seq<Seq<u8>>, j: nat, k: nat)
    requires
        j <= k,
        pair_in(ps, j) is Some,
    ensures
        pair_in(ps, k) == pair_in(ps, j),
    decreases k,
{
    if j < k {
        lemma_pair_stays(ps, j, (k - 1) as nat);
    }
}

/// Whether the two ranges have a section in common.
pub fn overlaps(x: (i32, i32), y: (i32, i32)) -> (r: bool)
    ensures
        r == spec_overlaps((x.0 as int, x.1 as int), (y.0 as int, y.1 as int)),
{
    x.0 <= y.1 && y.0 <= x.1
}

/// Whether one of the two ranges holds the other.
pub fn completely_overlaps(x: (i32, i32), y: (i32, i32)) -> (r: bool)
    ensures
        r == spec_completely_overlaps((x.0 as int, x.1 as int), (y.0 as int, y.1 as int)),
{
    (y.0 <= x.0 && x.1 <= y.1) || (x.0 <= y.0 && y.1 <= x.1)
}

/// How many of the first `k` lines spell two ranges of which one holds the
/// other, or, where `any` holds, that share a number.
pub open spec fn count_pairs(ls: Seq<Seq<u8>>, any: bool, k: nat) -> nat
    decreases k,
{
    if k == 0 {
        0
    } else {
        count_pairs(ls, any, (k - 1) as nat) + match ranges_of(ls[k - 1]) {
            Some((a, b)) => if (any && spec_overlaps(a, b)) || (!any
                && spec_completely_overlaps(a, b)) {
                1nat
            } else {
                0nat
            },
            None => 0nat,
        }
    }
}

fn count_lines(input: &str, any: bool) -> (r: usize)
    ensures
        r == count_pairs(
            split_on(input.spec_bytes(), seq![10u8]),
            any,
            split_on(input.spec_bytes(), seq![10u8]).len(),
        ),
{
    let feed: [u8; 1] = [10];
    proof {
        assert(feed@ =~= seq![10u8]);
    }
    let ls = split(input.as_bytes(), feed.as_slice());
    let ghost lv = split_on(input.spec_bytes(), seq![10u8]);
    let mut count: usize = 0;
    let mut i: usize = 0;
    while i < ls.len()
        invariant
            i <= ls.len(),
            lv == views(ls@),
            count == count_pairs(lv, any, i as nat),
            count <= i,
        decreases ls.len() - i,
    {
        assert(ls@[i as int]@ == lv[i as int]);
        match line_to_range_tuple(ls[i].as_slice()) {
            Some((a, b)) => {
                let hit = if any {
                    overlaps(a, b)
                } else {
                    completely_overlaps(a, b)
                };
                if hit {
                    count += 1;
                }
            },
            None => {},
        }
        i += 1;
    }
    count
}

/// The number of lines with two ranges of which one holds the other.
pub fn day4_1(input: &str) -> (r: usize)
    ensures
        r == count_pairs(
            split_on(input.spec_bytes(), seq![10u8]),
            false,
            split_on(input.spec_bytes(), seq![10u8]).len(),
        ),
{
    count_lines(input, false)
}

/// The number of lines with two ranges that share a number.
pub fn day4_2(input: &str) -> (r: usize)
    ensures
        r == count_pairs(
            split_on(input.spec_bytes(), seq![10u8]),
            true,
            split_on(input.spec_bytes(), seq![10u8]).len(),
        ),
{
    count_lines(input, true)
}

} // verus!
