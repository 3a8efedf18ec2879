//! The first run of bytes that are all different.

use crate::iters::all_unique;
use vstd::prelude::*;
use vstd::string::*;

verus! {

/// Whether the `n` bytes of `s` from `i` on are all different.
pub open spec fn is_marker(s: Seq<u8>, n: int, i: int) -> bool {
    0 <= i && i + n <= s.len() && s.subrange(i, i + n).no_duplicates()
}

/// The first place at or behind `i` where `n` bytes that are all
/// different begin; the length of `s` when there is none.
pub open spec fn first_marker(s: Seq<u8>, n: int, i: int) -> int
    decreases s.len() - i,
{
    if i < 0 || n <= 0 || i + n > s.len() {
        s.len() as int
    } else if is_marker(s, n, i) {
        i
    } else {
        first_marker(s, n, i + 1)
    }
}

/// The number of bytes read when the first `n` bytes that are all
/// different have been read.
pub fn read_until_marker(s: &[u8], n: usize) -> (r: usize)
    requires
        first_marker(s@, n as int, 0) < s@.len(),
    ensures
        r == first_marker(s@, n as int, 0) + n,
{
    let len = s.len();
    let mut i: usize = 0;
    loop
        invariant
            len == s@.len(),
            first_marker(s@, n as int, 0) == first_marker(s@, n as int, i as int),
            first_marker(s@, n as int, 0) < s@.len(),
            i + n <= s@.len(),
        decreases s@.len() - i,
    {
        if all_unique(vstd::slice::slice_subrange(s, i, i + n)) {
            return i + n;
        }
        proof {
            assert(first_marker(s@, n as int, 0) == first_marker(s@, n as int, i + 1));
        }
        i += 1;
    }
}

/// The number of bytes read when the first four bytes that are all
/// different have been read.
pub fn day6_1(input: &str) -> (r: usize)
    requires
        first_marker(input.spec_bytes(), 4, 0) < input.spec_bytes().len(),
    ensures
        r == first_marker(input.spec_bytes(), 4, 0) + 4,
{
    read_until_marker(input.as_bytes(), 4)
}

/// The number of bytes read when the first fourteen bytes that are all
/// different have been read.
pub fn day6_2(input: &str) -> (r: usize)
    requires
        first_marker(input.spec_bytes(), 14, 0) < input.spec_bytes().len(),
    ensures
        r == first_marker(input.spec_bytes(), 14, 0) + 14,
{
    read_until_marker(input.as_bytes(), 14)
}

} // verus!
