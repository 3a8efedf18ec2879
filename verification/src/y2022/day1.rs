//! Calories carried: the greatest loads among the groups of a list.

use crate::text::{lines, lines_of, parse_i32, parse_int, split, split_on, views};
use vstd::prelude::*;
use vstd::string::*;

verus! {

/// What a line adds to the load of its group: the number it spells, or
/// nothing if it spells none.
pub open spec fn line_load(line: Seq<u8>) -> int {
    match parse_int(line, i32::MIN as int, i32::MAX as int) {
        Some(v) => v,
        None => 0,
    }
}

/// The load of the first `k` lines of a group.
pub open spec fn load_to(ls: Seq<Seq<u8>>, k: nat) -> int
    decreases k,
{
    if k == 0 {
        0
    } else {
        load_to(ls, (k - 1) as nat) + line_load(ls[k - 1])
    }
}

/// The load of the group `g`.
pub open spec fn load(g: Seq<u8>) -> int {
    load_to(lines_of(g), lines_of(g).len())
}

/// Whether the load of the group can be summed up in 32 bits.
pub open spec fn load_fits(g: Seq<u8>) -> bool {
    forall|k: nat|
        k <= lines_of(g).len() ==> i32::MIN <= #[trigger] load_to(lines_of(g), k) <= i32::MAX
}

/// The groups of the list: an empty line stands between each two.
pub open spec fn groups(s: Seq<u8>) -> Seq<Seq<u8>> {
    split_on(s, seq![10u8, 10u8])
}

/// The greatest load among the first `k` groups; `None` for no group.
pub open spec fn greatest(gs: Seq<Seq<u8>>, k: nat) -> Option<int>
    decreases k,
{
    if k == 0 {
        None
    } else {
        match greatest(gs, (k - 1) as nat) {
            Some(m) => if load(gs[k - 1]) > m {
                Some(load(gs[k - 1]))
            } else {
                Some(m)
            },
            None => Some(load(gs[k - 1])),
        }
    }
}

/// The three greatest loads among the first `k` groups, the least of them
/// first; places not yet taken hold the least number of 32 bits.
pub open spec fn top_three(gs: Seq<Seq<u8>>, k: nat) -> (int, int, int)
    decreases k,
{
    if k == 0 {
        (i32::MIN as int, i32::MIN as int, i32::MIN as int)
    } else {
        let t = top_three(gs, (k - 1) as nat);
        let n = load(gs[k - 1]);
        if n <= t.0 {
            t
        } else if n <= t.1 {
            (n, t.1, t.2)
        } else if n <= t.2 {
            (t.1, n, t.2)
        } else {
            (t.1, t.2, n)
        }
    }
}

fn group_load(g: &[u8]) -> (r: i32)
    requires
        load_fits(g@),
    ensures
        r == load(g@),
{
    let ls = lines(g);
    let ghost lv = lines_of(g@);
    let mut sum: i32 = 0;
    let mut i: usize = 0;
    while i < ls.len()
        invariant
            i <= ls.len(),
            lv == views(ls@),
            lv == lines_of(g@),
            load_fits(g@),
            sum == load_to(lv, i as nat),
        decreases ls.len() - i,
    {
        assert(ls@[i as int]@ == lv[i as int]);
        assert(i32::MIN <= load_to(lv, (i + 1) as nat) <= i32::MAX);
        match parse_i32(ls[i].as_slice()) {
            Some(v) => {
                sum = sum + v;
            },
            None => {},
        }
        i += 1;
    }
    sum
}

fn split_groups(input: &str) -> (r: Vec<Vec<u8>>)
    ensures
        views(r@) == groups(input.spec_bytes()),
{
    let sep: [u8; 2] = [10, 10];
    proof {
        assert(sep@ =~= seq![10u8, 10u8]);
    }
    split(input.as_bytes(), sep.as_slice())
}

/// The greatest load of a group; 0 if there is no group.
pub fn day1_1(input: &str) -> (r: i32)
    requires
        forall|i: int|
            0 <= i < groups(input.spec_bytes()).len() ==> load_fits(
                #[trigger] groups(input.spec_bytes())[i],
            ),
    ensures
        r == match greatest(groups(input.spec_bytes()), groups(input.spec_bytes()).len()) {
            Some(m) => m,
            None => 0,
        },
{
    let gs = split_groups(input);
    let ghost gv = groups(input.spec_bytes());
    let mut best: Option<i32> = None;
    let mut i: usize = 0;
    while i < gs.len()
        invariant
            i <= gs.len(),
            gv == views(gs@),
            forall|k: int| 0 <= k < gv.len() ==> load_fits(#[trigger] gv[k]),
            match best {
                Some(m) => greatest(gv, i as nat) == Some(m as int),
                None => greatest(gv, i as nat) is None,
            },
        decreases gs.len() - i,
    {
        assert(gs@[i as int]@ == gv[i as int]);
        let n = group_load(gs[i].as_slice());
        best = match best {
            Some(m) => if n > m {
                Some(n)
            } else {
                Some(m)
            },
            None => Some(n),
        };
        i += 1;
    }
    match best {
        Some(m) => m,
        None => 0,
    }
}

/// The sum of the three greatest loads.
pub fn day1_2(input: &str) -> (r: i32)
    requires
        forall|i: int|
            0 <= i < groups(input.spec_bytes()).len() ==> load_fits(
                #[trigger] groups(input.spec_bytes())[i],
            ),
        ({
            let t = top_three(groups(input.spec_bytes()), groups(input.spec_bytes()).len());
            i32::MIN <= t.0 + t.1 <= i32::MAX && i32::MIN <= t.0 + t.1 + t.2 <= i32::MAX
        }),
    ensures
        ({
            let t = top_three(groups(input.spec_bytes()), groups(input.spec_bytes()).len());
            r == t.0 + t.1 + t.2
        }),
{
    let gs = split_groups(input);
    let ghost gv = groups(input.spec_bytes());
    let mut a: i32 = i32::MIN;
    let mut b: i32 = i32::MIN;
    let mut c: i32 = i32::MIN;
    let mut i: usize = 0;
    while i < gs.len()
        invariant
            i <= gs.len(),
            gv == views(gs@),
            forall|k: int| 0 <= k < gv.len() ==> load_fits(#[trigger] gv[k]),
            top_three(gv, i as nat) == (a as int, b as int, c as int),
        decreases gs.len() - i,
    {
        assert(gs@[i as int]@ == gv[i as int]);
        let n = group_load(gs[i].as_slice());
        if n <= a {
        } else if n <= b {
            a = n;
        } else if n <= c {
            a = b;
            b = n;
        } else {
            a = b;
            b = c;
            c = n;
        }
        i += 1;
    }
    a + b + c
}

} // verus!
