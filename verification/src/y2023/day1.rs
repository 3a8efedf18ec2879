//! Calibration values: the first and the last digit of each line.

use crate::text::{is_digit, lines, lines_of, matches_at, occurs_at, views};
use vstd::prelude::*;
use vstd::string::*;

verus! {

#[derive(Debug, PartialEq, Eq)]
pub enum Day1Error {
    CouldNotFindDigitOrSpelling,
}

/// The name of the digit `d`.
pub open spec fn digit_word(d: int) -> Seq<u8> {
    if d == 0 {
        seq![122u8, 101, 114, 111]
    } else if d == 1 {
        seq![111u8, 110, 101]
    } else if d == 2 {
        seq![116u8, 119, 111]
    } else if d == 3 {
        seq![116u8, 104, 114, 101, 101]
    } else if d == 4 {
        seq![102u8, 111, 117, 114]
    } else if d == 5 {
        seq![102u8, 105, 118, 101]
    } else if d == 6 {
        seq![115u8, 105, 120]
    } else if d == 7 {
        seq![115u8, 101, 118, 101, 110]
    } else if d == 8 {
        seq![101u8, 105, 103, 104, 116]
    } else {
        seq![110u8, 105, 110, 101]
    }
}

/// The least digit from `d` on whose name stands in `s` at `i`; 10 when
/// there is none.
pub open spec fn spelled_from(s: Seq<u8>, i: int, d: int) -> int
    decreases 10 - d,
{
    if d >= 10 {
        10
    } else if matches_at(s, digit_word(d), i) {
        d
    } else {
        spelled_from(s, i, d + 1)
    }
}

/// The digit that stands in `s` at `i`: as a figure, or, where `spelled`
/// holds, by its name.
pub open spec fn digit_at(s: Seq<u8>, i: int, spelled: bool) -> Option<int> {
    if is_digit(s[i]) {
        Some(s[i] - 48)
    } else if spelled && spelled_from(s, i, 0) < 10 {
        Some(spelled_from(s, i, 0))
    } else {
        None
    }
}

/// The first digit of `s` at or after `i`.
pub open spec fn first_from(s: Seq<u8>, i: int, spelled: bool) -> Option<int>
    decreases s.len() - i,
{
    if i < 0 || i >= s.len() {
        None
    } else if digit_at(s, i, spelled) is Some {
        digit_at(s, i, spelled)
    } else {
        first_from(s, i + 1, spelled)
    }
}

/// The last digit of `s` before `n`.
pub open spec fn last_before(s: Seq<u8>, n: int, spelled: bool) -> Option<int>
    decreases n,
{
    if n <= 0 || n > s.len() {
        None
    } else if digit_at(s, n - 1, spelled) is Some {
        digit_at(s, n - 1, spelled)
    } else {
        last_before(s, n - 1, spelled)
    }
}

/// The value of a line: ten times its first digit and its last; `None`
/// where it has no digit.
pub open spec fn line_value(s: Seq<u8>, spelled: bool) -> Option<int> {
    match (first_from(s, 0, spelled), last_before(s, s.len() as int, spelled)) {
        (Some(a), Some(b)) => Some(10 * a + b),
        _ => None,
    }
}

/// The sum of the values of the first `k` lines; `None` where one of them
/// has no value.
pub open spec fn total(ls: Seq<Seq<u8>>, spelled: bool, k: nat) -> Option<int>
    decreases k,
{
    if k == 0 {
        Some(0)
    } else {
        match (total(ls, spelled, (k - 1) as nat), line_value(ls[k - 1], spelled)) {
            (Some(t), Some(v)) => Some(t + v),
            _ => None,
        }
    }
}

/// Whether the sums, as far as there are any, can be computed in 32 bits.
pub open spec fn sums_fit(ls: Seq<Seq<u8>>, spelled: bool) -> bool {
    forall|k: nat|
        k <= ls.len() && #[trigger] total(ls, spelled, k) is Some ==> total(ls, spelled, k)->0
            <= u32::MAX
}

fn word_bytes(d: usize) -> (r: Vec<u8>)
    requires
        d < 10,
    ensures
        r@ == digit_word(d as int),
{
    if d == 0 {
        vec![122u8, 101, 114, 111]
    } else if d == 1 {
        vec![111u8, 110, 101]
    } else if d == 2 {
        vec![116u8, 119, 111]
    } else if d == 3 {
        vec![116u8, 104, 114, 101, 101]
    } else if d == 4 {
        vec![102u8, 111, 117, 114]
    } else if d == 5 {
        vec![102u8, 105, 118, 101]
    } else if d == 6 {
        vec![115u8, 105, 120]
    } else if d == 7 {
        vec![115u8, 101, 118, 101, 110]
    } else if d == 8 {
        vec![101u8, 105, 103, 104, 116]
    } else {
        vec![110u8, 105, 110, 101]
    }
}

/// The digit that stands in `s` at `i`.
fn read_digit_at(s: &[u8], i: usize, spelled: bool) -> (r: Option<u32>)
    requires
        i < s.len(),
    ensures
        match r {
            Some(v) => digit_at(s@, i as int, spelled) == Some(v as int) && v <= 9,
            None => digit_at(s@, i as int, spelled) is None,
        },
{
    if crate::text::byte_is_digit(s[i]) {
        return Some((s[i] - 48) as u32);
    }
    if !spelled {
        return None;
    }
    let mut d: usize = 0;
    while d < 10
        invariant
            d <= 10,
            i < s.len(),
            spelled,
            !is_digit(s@[i as int]),
            spelled_from(s@, i as int, 0) == spelled_from(s@, i as int, d as int),
        decreases 10 - d,
    {
        let w = word_bytes(d);
        if occurs_at(s, w.as_slice(), i) {
            return Some(d as u32);
        }
        d += 1;
    }
    None
}

/// The first digit of `s`, or, read `backwards`, the last.
pub fn first_digit(s: &[u8], backwards: bool) -> (r: Option<u8>)
    ensures
        match r {
            Some(v) => (if backwards {
                last_before(s@, s@.len() as int, false)
            } else {
                first_from(s@, 0, false)
            }) == Some(v as int),
            None => (if backwards {
                last_before(s@, s@.len() as int, false)
            } else {
                first_from(s@, 0, false)
            }) is None,
        },
{
    match find_first_digit_with_spelling(s, backwards, false) {
        Ok(v) => Some(v as u8),
        Err(_) => None,
    }
}

/// The first digit of `s`, or, read `backwards`, the last; digits count
/// also by their names where `spelled` holds.
pub fn find_first_digit_with_spelling(s: &[u8], backwards: bool, spelled: bool) -> (r: Result<
    u32,
    Day1Error,
>)
    ensures
        match r {
            Ok(v) => v <= 9 && (if backwards {
                last_before(s@, s@.len() as int, spelled)
            } else {
                first_from(s@, 0, spelled)
            }) == Some(v as int),
            Err(_) => (if backwards {
                last_before(s@, s@.len() as int, spelled)
            } else {
                first_from(s@, 0, spelled)
            }) is None,
        },
{
    if backwards {
        let mut n: usize = s.len();
        while n > 0
            invariant
                n <= s.len(),
                backwards,
                last_before(s@, s@.len() as int, spelled) == last_before(s@, n as int, spelled),
            decreases n,
        {
            match read_digit_at(s, n - 1, spelled) {
                Some(v) => {
                    return Ok(v);
                },
                None => {},
            }
            n -= 1;
        }
        Err(Day1Error::CouldNotFindDigitOrSpelling)
    } else {
        let mut i: usize = 0;
        while i < s.len()
            invariant
                i <= s.len(),
                !backwards,
                first_from(s@, 0, spelled) == first_from(s@, i as int, spelled),
            decreases s.len() - i,
        {
            match read_digit_at(s, i, spelled) {
                Some(v) => {
                    return Ok(v);
                },
                None => {},
            }
            i += 1;
        }
        Err(Day1Error::CouldNotFindDigitOrSpelling)
    }
}

fn sum_lines(input: &str, spelled: bool) -> (r: Result<u32, Day1Error>)
    requires
        sums_fit(lines_of(input.spec_bytes()), spelled),
    ensures
        match r {
            Ok(v) => total(
                lines_of(input.spec_bytes()),
                spelled,
                lines_of(input.spec_bytes()).len(),
            ) == Some(v as int),
            Err(_) => total(
                lines_of(input.spec_bytes()),
                spelled,
                lines_of(input.spec_bytes()).len(),
            ) is None,
        },
{
    let ls = lines(input.as_bytes());
    let ghost lv = lines_of(input.spec_bytes());
    let mut sum: u32 = 0;
    let mut i: usize = 0;
    while i < ls.len()
        invariant
            i <= ls.len(),
            lv == views(ls@),
            lv == lines_of(input.spec_bytes()),
            sums_fit(lv, spelled),
            total(lv, spelled, i as nat) == Some(sum as int),
        decreases ls.len() - i,
    {
        assert(ls@[i as int]@ == lv[i as int]);
        let line = ls[i].as_slice();
        let first = match find_first_digit_with_spelling(line, false, spelled) {
            Ok(v) => v,
            Err(e) => {
                proof {
                    assert(total(lv, spelled, (i + 1) as nat) is None);
                    lemma_total_stays_none(lv, spelled, (i + 1) as nat, lv.len());
                }
                return Err(e);
            },
        };
        let last = match find_first_digit_with_spelling(line, true, spelled) {
            Ok(v) => v,
            Err(e) => {
                proof {
                    assert(total(lv, spelled, (i + 1) as nat) is None);
                    lemma_total_stays_none(lv, spelled, (i + 1) as nat, lv.len());
                }
                return Err(e);
            },
        };
        proof {
            assert(total(lv, spelled, (i + 1) as nat) == Some(sum + 10 * first + last));
        }
        sum = sum + (first * 10 + last);
        i += 1;
    }
    Ok(sum)
}

/// Once a line has no value, no longer list has a sum.
pub proof fn lemma_total_stays_none(ls: Seq<Seq<u8>>, spelled: bool, j: nat, k: nat)
    requires
        j <= k,
        total(ls, spelled, j) is None,
    ensures
        total(ls, spelled, k) is None,
    decreases k,
{
    if j < k {
        lemma_total_stays_none(ls, spelled, j, (k - 1) as nat);
    }
}

/// The sum of the values of the lines, digits counted as figures.
pub fn day1_1(input: &str) -> (r: Result<u32, Day1Error>)
    requires
        sums_fit(lines_of(input.spec_bytes()), false),
    ensures
        match r {
            Ok(v) => total(lines_of(input.spec_bytes()), false, lines_of(input.spec_bytes()).len())
                == Some(v as int),
            Err(_) => total(lines_of(input.spec_bytes()), false, lines_of(input.spec_bytes()).len())
                 is None,
        },
{
    sum_lines(input, false)
}

/// The sum of the values of the lines, digits counted as figures and by
/// their names.
pub fn day1_2(input: &str) -> (r: Result<u32, Day1Error>)
    requires
        sums_fit(lines_of(input.spec_bytes()), true),
    ensures
        match r {
            Ok(v) => total(lines_of(input.spec_bytes()), true, lines_of(input.spec_bytes()).len())
                == Some(v as int),
            Err(_) => total(lines_of(input.spec_bytes()), true, lines_of(input.spec_bytes()).len())
                 is None,
        },
{
    sum_lines(input, true)
}

} // verus!
