//! Sequences of numbers, continued at either end by their differences.

use crate::text::{digits_end, is_digit, lemma_digits_end, lines, lines_of, views};
use vstd::prelude::*;
use vstd::string::*;

verus! {

pub type SequenceValue = i64;

pub type Sequence = Vec<SequenceValue>;

/// Whether `b` is one of the blanks that may stand before a line's
/// numbers: space, carriage return, line feed, tab.
pub open spec fn is_blank(b: u8) -> bool {
    b == 32 || b == 13 || b == 10 || b == 9
}

/// The first index at or after `i` whose byte is no blank.
pub open spec fn skip_blanks(s: Seq<u8>, i: int) -> int
    decreases s.len() - i,
{
    if i < 0 || i >= s.len() || !is_blank(s[i]) {
        i
    } else {
        skip_blanks(s, i + 1)
    }
}

/// The number that stands in `s` at `i`, with the index behind it: an
/// optional sign and the digits that follow, as many as there are; `None`
/// where no digit follows or the number does not fit in 64 bits.
pub open spec fn number_at(s: Seq<u8>, i: int) -> Option<(int, int)> {
    let signed = 0 <= i < s.len() && (s[i] == 45 || s[i] == 43);
    let from = if signed {
        i + 1
    } else {
        i
    };
    let to = digits_end(s, from);
    let mag = crate::text::digits_value(s.subrange(from, to));
    let v = if signed && s[i] == 45 {
        -mag
    } else {
        mag
    };
    if from < to && i64::MIN <= v <= i64::MAX {
        Some((v, to))
    } else {
        None
    }
}

/// The numbers that stand in `s` from `i` on, one space between each two.
pub open spec fn numbers_from(s: Seq<u8>, i: int) -> Seq<i64>
    decreases s.len() - i,
{
    match number_at(s, i) {
        None => Seq::empty(),
        Some((v, to)) => if i <= to < s.len() && s[to] == 32 && i >= 0 {
            seq![v as i64] + numbers_from(s, to + 1)
        } else {
            seq![v as i64]
        },
    }
}

/// The numbers of a line: after blanks, numbers with one space between
/// each two, as far as they go.
pub open spec fn sequence_of(s: Seq<u8>) -> Seq<i64> {
    numbers_from(s, skip_blanks(s, 0))
}

fn read_number(s: &[u8], i: usize) -> (r: Option<(i64, usize)>)
    requires
        i <= s.len(),
    ensures
        match r {
            Some((v, to)) => number_at(s@, i as int) == Some((v as int, to as int)) && i < to
                <= s.len(),
            None => number_at(s@, i as int) is None,
        },
{
    let signed = i < s.len() && (s[i] == 45 || s[i] == 43);
    let negative = signed && s[i] == 45;
    let from: usize = if signed {
        i + 1
    } else {
        i
    };
    let mut to: usize = from;
    while to < s.len() && crate::text::byte_is_digit(s[to])
        invariant
            from <= to <= s.len(),
            digits_end(s@, from as int) == digits_end(s@, to as int),
        decreases s.len() - to,
    {
        to += 1;
    }
    proof {
        lemma_digits_end(s@, from as int);
    }
    if from >= to {
        return None;
    }
    let digits = crate::text::copy_range(s, from, to);
    let mut text: Vec<u8> = Vec::new();
    if negative {
        text.push(45);
    }
    let ghost sign_len = text@.len();
    let mut k: usize = 0;
    while k < digits.len()
        invariant
            k <= digits.len(),
            text@ == (if negative {
                seq![45u8]
            } else {
                Seq::<u8>::empty()
            }) + digits@.subrange(0, k as int),
        decreases digits.len() - k,
    {
        text.push(digits[k]);
        k += 1;
        proof {
            assert(text@ =~= (if negative {
                seq![45u8]
            } else {
                Seq::<u8>::empty()
            }) + digits@.subrange(0, k as int));
        }
    }
    proof {
        assert(digits@.subrange(0, k as int) =~= digits@);
        if negative {
            assert(text@.subrange(1, text@.len() as int) =~= digits@);
        } else {
            assert(text@ =~= digits@);
            assert(is_digit(digits@[0]));
        }
    }
    match crate::text::parse_i64(text.as_slice()) {
        Some(v) => Some((v, to)),
        None => None,
    }
}

/// The numbers of a line.
pub fn parse_sequence(input: &[u8]) -> (r: Sequence)
    ensures
        r@ == sequence_of(input@),
{
    let mut i: usize = 0;
    while i < input.len() && (input[i] == 32 || input[i] == 13 || input[i] == 10 || input[i] == 9)
        invariant
            i <= input.len(),
            skip_blanks(input@, 0) == skip_blanks(input@, i as int),
        decreases input.len() - i,
    {
        i += 1;
    }
    let mut out: Sequence = Vec::new();
    proof {
        assert(out@ + numbers_from(input@, i as int) =~= numbers_from(input@, i as int));
    }
    loop
        invariant
            i <= input.len(),
            sequence_of(input@) == out@ + numbers_from(input@, i as int),
        decreases input.len() - i,
    {
        match read_number(input, i) {
            None => {
                proof {
                    assert(out@ + Seq::<i64>::empty() =~= out@);
                }
                return out;
            },
            Some((v, to)) => {
                let ghost before = out@;
                out.push(v);
                if to < input.len() && input[to] == 32 {
                    proof {
                        assert(before + (seq![v] + numbers_from(input@, to + 1)) =~= out@
                            + numbers_from(input@, to + 1));
                    }
                    i = to + 1;
                } else {
                    proof {
                        assert(before + seq![v] =~= out@);
                    }
                    return out;
                }
            },
        }
    }
}

/// The differences between each two neighbours of `s`.
pub open spec fn differences(s: Seq<i64>) -> Seq<int> {
    Seq::new((s.len() - 1) as nat, |i: int| s[i + 1] - s[i])
}

/// Whether every number of `s` is 0.
pub open spec fn all_zero(s: Seq<int>) -> bool {
    forall|i: int| 0 <= i < s.len() ==> #[trigger] s[i] == 0
}

/// Whether every number of `s` fits in 64 bits.
pub open spec fn all_fit(s: Seq<int>) -> bool {
    forall|i: int| 0 <= i < s.len() ==> i64::MIN <= #[trigger] s[i] <= i64::MAX
}

/// The numbers of `s` as 64-bit values.
pub open spec fn as_values(s: Seq<int>) -> Seq<i64> {
    Seq::new(s.len(), |i: int| s[i] as i64)
}

/// The sequence and the sequences of its differences, of their differences
/// and so on, as long as they are not all 0.
pub open spec fn levels(s: Seq<i64>) -> Seq<Seq<i64>>
    decreases s.len(),
{
    if s.len() == 0 || all_zero(differences(s)) {
        seq![s]
    } else {
        seq![s] + levels(as_values(differences(s)))
    }
}

/// Whether all the differences that `levels` takes fit in 64 bits.
pub open spec fn can_diff(s: Seq<i64>) -> bool
    decreases s.len(),
{
    all_fit(differences(s)) && (s.len() == 0 || all_zero(differences(s)) || can_diff(
        as_values(differences(s)),
    ))
}

/// The views of the sequences of `v`.
pub open spec fn value_views(v: Seq<Vec<i64>>) -> Seq<Seq<i64>> {
    Seq::new(v.len(), |i: int| v[i]@)
}

/// The sequence and the sequences of its differences.
pub fn get_diffs(seq: Sequence) -> (r: Vec<Sequence>)
    requires
        can_diff(seq@),
    ensures
        value_views(r@) == levels(seq@),
        r@.len() > 0,
{
    let ghost whole = seq@;
    let mut diffs: Vec<Sequence> = Vec::new();
    let mut prev: Sequence = seq;
    proof {
        assert(value_views(diffs@) + levels(prev@) =~= levels(whole));
    }
    loop
        invariant
            whole == seq@,
            can_diff(prev@),
            levels(whole) == value_views(diffs@) + levels(prev@),
        decreases prev@.len(),
    {
        let mut next: Sequence = Vec::new();
        let mut any = false;
        let mut i: usize = 0;
        while i + 1 < prev.len()
            invariant
                i <= prev.len(),
                prev.len() > 0 ==> i < prev.len(),
                can_diff(prev@),
                next@.len() == i,
                forall|k: int| 0 <= k < i ==> #[trigger] next@[k] == differences(prev@)[k],
                any == exists|k: int| 0 <= k < i && #[trigger] differences(prev@)[k] != 0,
            decreases prev.len() - i,
        {
            assert(i64::MIN <= differences(prev@)[i as int] <= i64::MAX);
            let d: i64 = prev[i + 1] - prev[i];
            if d != 0 {
                any = true;
            }
            next.push(d);
            i += 1;
        }
        let ghost before = diffs@;
        let ghost level = prev@;
        proof {
            if prev@.len() > 0 {
                assert(next@ =~= as_values(differences(prev@)));
            }
        }
        diffs.push(prev);
        proof {
            assert(value_views(diffs@) =~= value_views(before).push(level));
        }
        if !any {
            proof {
                assert(level.len() == 0 || all_zero(differences(level)));
                assert(value_views(before) + seq![level] =~= value_views(diffs@));
            }
            return diffs;
        }
        proof {
            assert(value_views(before) + (seq![level] + levels(next@)) =~= value_views(diffs@)
                + levels(next@));
        }
        prev = next;
    }
}

/// The last number of `s`, 0 for the empty sequence.
pub open spec fn last_or_zero(s: Seq<i64>) -> int {
    if s.len() > 0 {
        s.last() as int
    } else {
        0
    }
}

/// The first number of `s`, 0 for the empty sequence.
pub open spec fn first_or_zero(s: Seq<i64>) -> int {
    if s.len() > 0 {
        s[0] as int
    } else {
        0
    }
}

/// The sum of the last numbers of the first `k` levels.
pub open spec fn sum_last(lv: Seq<Seq<i64>>, k: nat) -> int
    decreases k,
{
    if k == 0 {
        0
    } else {
        sum_last(lv, (k - 1) as nat) + last_or_zero(lv[k - 1])
    }
}

/// The first numbers of the first `k` levels, added and subtracted in
/// turn.
pub open spec fn sum_first(lv: Seq<Seq<i64>>, k: nat) -> int
    decreases k,
{
    if k == 0 {
        0
    } else if k % 2 == 1 {
        sum_first(lv, (k - 1) as nat) + first_or_zero(lv[k - 1])
    } else {
        sum_first(lv, (k - 1) as nat) - first_or_zero(lv[k - 1])
    }
}

/// The number that continues the sequence at its end (`first` false) or
/// before its beginning (`first` true).
pub open spec fn continued(s: Seq<i64>, first: bool) -> int {
    if first {
        sum_first(levels(s), levels(s).len())
    } else {
        sum_last(levels(s), levels(s).len())
    }
}

/// Whether the sums that `continued` takes fit in 64 bits.
pub open spec fn can_continue(s: Seq<i64>, first: bool) -> bool {
    &&& can_diff(s)
    &&& !first ==> forall|k: nat|
        k <= levels(s).len() ==> i64::MIN <= #[trigger] sum_last(levels(s), k) <= i64::MAX
    &&& first ==> forall|k: nat|
        k <= levels(s).len() ==> i64::MIN <= #[trigger] sum_first(levels(s), k) <= i64::MAX
    &&& first ==> forall|k: int|
        0 <= k < levels(s).len() ==> first_or_zero(#[trigger] levels(s)[k]) > i64::MIN
}

/// The number that continues `seq` at its end.
pub fn extrapolate_last(seq: Sequence) -> (r: SequenceValue)
    requires
        can_continue(seq@, false),
    ensures
        r == continued(seq@, false),
{
    let ghost lv = levels(seq@);
    let diffs = get_diffs(seq);
    let mut acc: i64 = 0;
    let mut k: usize = 0;
    while k < diffs.len()
        invariant
            k <= diffs.len(),
            value_views(diffs@) == lv,
            acc == sum_last(lv, k as nat),
            forall|j: nat| j <= lv.len() ==> i64::MIN <= #[trigger] sum_last(lv, j) <= i64::MAX,
        decreases diffs.len() - k,
    {
        assert(diffs@[k as int]@ == lv[k as int]);
        assert(i64::MIN <= sum_last(lv, (k + 1) as nat) <= i64::MAX);
        let level = &diffs[k];
        if level.len() > 0 {
            acc = acc + level[level.len() - 1];
        }
        k += 1;
    }
    acc
}

/// The number that continues `seq` before its beginning.
pub fn extrapolate_first(seq: Sequence) -> (r: SequenceValue)
    requires
        can_continue(seq@, true),
    ensures
        r == continued(seq@, true),
{
    let ghost lv = levels(seq@);
    let diffs = get_diffs(seq);
    let mut acc: i64 = 0;
    let mut add = true;
    let mut k: usize = 0;
    while k < diffs.len()
        invariant
            k <= diffs.len(),
            value_views(diffs@) == lv,
            acc == sum_first(lv, k as nat),
            add == (k % 2 == 0),
            forall|j: nat| j <= lv.len() ==> i64::MIN <= #[trigger] sum_first(lv, j) <= i64::MAX,
            forall|j: int| 0 <= j < lv.len() ==> first_or_zero(#[trigger] lv[j]) > i64::MIN,
        decreases diffs.len() - k,
    {
        assert(diffs@[k as int]@ == lv[k as int]);
        assert(i64::MIN <= sum_first(lv, (k + 1) as nat) <= i64::MAX);
        assert(first_or_zero(lv[k as int]) > i64::MIN);
        let level = &diffs[k];
        if level.len() > 0 {
            let n: i64 = level[0];
            acc = acc + if add {
                n
            } else {
                -n
            };
        }
        add = !add;
        k += 1;
    }
    acc
}

/// The sum of the continuations of the first `k` lines.
pub open spec fn total(ls: Seq<Seq<u8>>, first: bool, k: nat) -> int
    decreases k,
{
    if k == 0 {
        0
    } else {
        total(ls, first, (k - 1) as nat) + continued(sequence_of(ls[k - 1]), first)
    }
}

/// Whether the continuations of all lines and their sums fit in 64 bits.
pub open spec fn can_total(ls: Seq<Seq<u8>>, first: bool) -> bool {
    &&& forall|i: int| 0 <= i < ls.len() ==> can_continue(sequence_of(#[trigger] ls[i]), first)
    &&& forall|k: nat| k <= ls.len() ==> i64::MIN <= #[trigger] total(ls, first, k) <= i64::MAX
}

/// The sum of the continuations of the lines of the text.
pub fn process_day(input: &str, first: bool) -> (r: Result<SequenceValue, ()>)
    requires
        can_total(lines_of(input.spec_bytes()), first),
    ensures
        r == Ok::<i64, ()>(
            total(lines_of(input.spec_bytes()), first, lines_of(input.spec_bytes()).len()) as i64,
        ),
{
    let ls = lines(input.as_bytes());
    let ghost lv = lines_of(input.spec_bytes());
    let mut sum: i64 = 0;
    let mut i: usize = 0;
    while i < ls.len()
        invariant
            i <= ls.len(),
            lv == views(ls@),
            can_total(lv, first),
            sum == total(lv, first, i as nat),
        decreases ls.len() - i,
    {
        assert(ls@[i as int]@ == lv[i as int]);
        assert(can_continue(sequence_of(lv[i as int]), first));
        assert(i64::MIN <= total(lv, first, (i + 1) as nat) <= i64::MAX);
        let seq = parse_sequence(ls[i].as_slice());
        let v = if first {
            extrapolate_first(seq)
        } else {
            extrapolate_last(seq)
        };
        sum = sum + v;
        i += 1;
    }
    Ok(sum)
}

/// The sum of the numbers that continue the sequences at their ends.
pub fn day9_1(input: &str) -> (r: Result<SequenceValue, ()>)
    requires
        can_total(lines_of(input.spec_bytes()), false),
    ensures
        r == Ok::<i64, ()>(
            total(lines_of(input.spec_bytes()), false, lines_of(input.spec_bytes()).len()) as i64,
        ),
{
    process_day(input, false)
}

/// The sum of the numbers that continue the sequences before their
/// beginnings.
pub fn day9_2(input: &str) -> (r: Result<SequenceValue, ()>)
    requires
        can_total(lines_of(input.spec_bytes()), true),
    ensures
        r == Ok::<i64, ()>(
            total(lines_of(input.spec_bytes()), true, lines_of(input.spec_bytes()).len()) as i64,
        ),
{
    process_day(input, true)
}

} // verus!
