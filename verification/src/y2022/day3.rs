//! Rucksacks: the item that occurs in both halves, or in all three of a
//! group.

use crate::text::{all_ascii, lines, lines_of, views};
use vstd::prelude::*;
use vstd::string::*;

verus! {

/// The priority of a letter: 1 to 26 for `a` to `z`, 27 to 52 for `A` to
/// `Z`; `None` for what is no letter.
pub open spec fn priority_of(c: char) -> Option<u8> {
    if 'a' <= c <= 'z' {
        Some((c as u8 - 97 + 1) as u8)
    } else if 'A' <= c <= 'Z' {
        Some((c as u8 - 65 + 27) as u8)
    } else {
        None
    }
}

/// The priority of an item: 1 to 26 for `a` to `z`, 27 to 52 for `A` to `Z`.
pub fn priority(c: char) -> (r: Option<u8>)
    ensures
        r == priority_of(c),
{
    if 'a' <= c && c <= 'z' {
        Some(c as u8 - 97 + 1)
    } else if 'A' <= c && c <= 'Z' {
        Some(c as u8 - 65 + 27)
    } else {
        None
    }
}

/// The first byte of `c` from `i` on that occurs in `a` and in `b`.
pub open spec fn first_shared(a: Seq<u8>, b: Seq<u8>, c: Seq<u8>, i: int) -> Option<u8>
    decreases c.len() - i,
{
    if i < 0 || i >= c.len() {
        None
    } else if a.contains(c[i]) && b.contains(c[i]) {
        Some(c[i])
    } else {
        first_shared(a, b, c, i + 1)
    }
}

/// What a shared item adds to the sum: its priority, if it is a letter.
pub open spec fn worth(item: Option<u8>) -> int {
    match item {
        Some(b) => match priority_of(b as char) {
            Some(p) => p as int,
            None => 0,
        },
        None => 0,
    }
}

/// What the line adds: the worth of the first byte of its second half that
/// occurs in its first.
pub open spec fn line_worth(line: Seq<u8>) -> int {
    let half = line.len() / 2;
    worth(
        first_shared(
            line.subrange(0, half as int),
            line.subrange(0, half as int),
            line.subrange(half as int, line.len() as int),
            0,
        ),
    )
}

/// The sum of what the first `k` lines add.
pub open spec fn sum_lines(ls: Seq<Seq<u8>>, k: nat) -> int
    decreases k,
{
    if k == 0 {
        0
    } else {
        sum_lines(ls, (k - 1) as nat) + line_worth(ls[k - 1])
    }
}

/// The sum of what the first `k` groups of three lines add: the worth of
/// the first byte of the third line that occurs in the other two.
pub open spec fn sum_groups(ls: Seq<Seq<u8>>, k: nat) -> int
    decreases k,
{
    if k == 0 {
        0
    } else {
        sum_groups(ls, (k - 1) as nat) + worth(
            first_shared(ls[3 * k - 3], ls[3 * k - 2], ls[3 * k - 1], 0),
        )
    }
}

fn holds(s: &[u8], b: u8) -> (r: bool)
    ensures
        r == s@.contains(b),
{
    let mut i: usize = 0;
    while i < s.len()
        invariant
            i <= s.len(),
            forall|k: int| 0 <= k < i ==> s@[k] != b,
        decreases s.len() - i,
    {
        if s[i] == b {
            return true;
        }
        i += 1;
    }
    false
}

fn shared_worth(a: &[u8], b: &[u8], c: &[u8]) -> (r: i32)
    ensures
        r == worth(first_shared(a@, b@, c@, 0)),
        0 <= r <= 52,
{
    let mut i: usize = 0;
    while i < c.len()
        invariant
            i <= c.len(),
            first_shared(a@, b@, c@, 0) == first_shared(a@, b@, c@, i as int),
        decreases c.len() - i,
    {
        if holds(a, c[i]) && holds(b, c[i]) {
            return match priority(c[i] as char) {
                Some(p) => p as i32,
                None => 0,
            };
        }
        i += 1;
    }
    0
}

/// The sums grow.
pub proof fn lemma_sums_grow(ls: Seq<Seq<u8>>, j: nat, k: nat)
    requires
        j <= k,
    ensures
        0 <= sum_lines(ls, j) <= sum_lines(ls, k),
        0 <= sum_groups(ls, j) <= sum_groups(ls, k),
    decreases k,
{
    if k > 0 {
        if j < k {
            lemma_sums_grow(ls, j, (k - 1) as nat);
        } else {
            lemma_sums_grow(ls, (k - 1) as nat, (k - 1) as nat);
        }
    }
}

/// The sum of the priorities of the items that occur in both halves of a
/// line.
pub fn day3_1(input: &str) -> (r: i32)
    requires
        all_ascii(input.spec_bytes()),
        sum_lines(lines_of(input.spec_bytes()), lines_of(input.spec_bytes()).len()) <= i32::MAX,
    ensures
        r == sum_lines(lines_of(input.spec_bytes()), lines_of(input.spec_bytes()).len()),
{
    let ls = lines(input.as_bytes());
    let ghost lv = lines_of(input.spec_bytes());
    let mut sum: i32 = 0;
    let mut i: usize = 0;
    while i < ls.len()
        invariant
            i <= ls.len(),
            lv == views(ls@),
            sum_lines(lv, lv.len()) <= i32::MAX,
            sum == sum_lines(lv, i as nat),
        decreases ls.len() - i,
    {
        assert(ls@[i as int]@ == lv[i as int]);
        let line = ls[i].as_slice();
        let half = line.len() / 2;
        let frst = vstd::slice::slice_subrange(line, 0, half);
        let scnd = vstd::slice::slice_subrange(line, half, line.len());
        proof {
            lemma_sums_grow(lv, (i + 1) as nat, lv.len());
            lemma_sums_grow(lv, i as nat, i as nat);
        }
        sum = sum + shared_worth(frst, frst, scnd);
        i += 1;
    }
    sum
}

/// The sum of the priorities of the items that occur in all three lines
/// of a group.
pub fn day3_2(input: &str) -> (r: i32)
    requires
        all_ascii(input.spec_bytes()),
        sum_groups(lines_of(input.spec_bytes()), lines_of(input.spec_bytes()).len() / 3)
            <= i32::MAX,
    ensures
        r == sum_groups(lines_of(input.spec_bytes()), lines_of(input.spec_bytes()).len() / 3),
{
    let ls = lines(input.as_bytes());
    let ghost lv = lines_of(input.spec_bytes());
    let groups: usize = ls.len() / 3;
    let mut sum: i32 = 0;
    let mut k: usize = 0;
    while k < groups
        invariant
            k <= groups,
            groups == ls.len() / 3,
            lv == views(ls@),
            sum_groups(lv, groups as nat) <= i32::MAX,
            sum == sum_groups(lv, k as nat),
        decreases groups - k,
    {
        assert(ls@[3 * k]@ == lv[3 * k]);
        assert(ls@[3 * k + 1]@ == lv[3 * k + 1]);
        assert(ls@[3 * k + 2]@ == lv[3 * k + 2]);
        proof {
            lemma_sums_grow(lv, (k + 1) as nat, groups as nat);
            lemma_sums_grow(lv, k as nat, k as nat);
        }
        sum = sum + shared_worth(
            ls[3 * k].as_slice(),
            ls[3 * k + 1].as_slice(),
            ls[3 * k + 2].as_slice(),
        );
        k += 1;
    }
    sum
}

} // verus!
