//! Races of boats: the times and the record distances, as a sheet of
//! paper lists them.

use crate::text::{
    byte_is_digit,
    gap_end,
    is_digit,
    matches_at,
    occurs_at,
    parse_i64,
    parse_int,
    read_unsigned,
    skip_gap,
    unsigned_at,
};
use vstd::prelude::*;
use vstd::string::*;

verus! {

/// The text was no list of races.
#[derive(Debug, PartialEq, Eq)]
pub struct ParseError;

/// A race: the time that it lasts and the distance to beat.
#[derive(Debug, Clone, Copy, PartialEq, Eq, Structural)]
pub struct Race {
    pub time: i64,
    pub distance: i64,
}

/// The number that stands in `s` at `i`, with the index behind it: a
/// sign or none, and digits; `None` where no digit follows or the number
/// does not fit in 64 bits.
pub open spec fn signed_at(s: Seq<u8>, i: int) -> Option<(int, int)> {
    if 0 <= i < s.len() && s[i] == 45 {
        match unsigned_at(s, i + 1, 0x8000_0000_0000_0000) {
            Some(p) => Some((-p.0, p.1)),
            None => None,
        }
    } else if 0 <= i < s.len() && s[i] == 43 {
        unsigned_at(s, i + 1, i64::MAX as int)
    } else {
        unsigned_at(s, i, i64::MAX as int)
    }
}

fn read_signed(s: &[u8], i: usize) -> (r: Option<(i64, usize)>)
    requires
        i <= s@.len(),
    ensures
        match r {
            Some(p) => signed_at(s@, i as int) == Some((p.0 as int, p.1 as int)) && i < p.1
                <= s@.len(),
            None => signed_at(s@, i as int) is None,
        },
{
    if i < s.len() && s[i] == 45 {
        match read_unsigned(s, i + 1, 0x8000_0000_0000_0000) {
            Some(p) => {
                let v: i64 = if p.0 == 0x8000_0000_0000_0000 {
                    i64::MIN
                } else {
                    -(p.0 as i64)
                };
                Some((v, p.1))
            },
            None => None,
        }
    } else if i < s.len() && s[i] == 43 {
        match read_unsigned(s, i + 1, 0x7fff_ffff_ffff_ffff) {
            Some(p) => Some((p.0 as i64, p.1)),
            None => None,
        }
    } else {
        match read_unsigned(s, i, 0x7fff_ffff_ffff_ffff) {
            Some(p) => Some((p.0 as i64, p.1)),
            None => None,
        }
    }
}

/// The numbers that follow at `i`, each after a gap, with the index
/// behind the last.
pub open spec fn numbers_from(s: Seq<u8>, i: int) -> (Seq<i64>, int)
    decreases s.len() - i,
{
    match signed_at(s, gap_end(s, i)) {
        Some(p) => if i < p.1 <= s.len() {
            let rest = numbers_from(s, p.1);
            (seq![p.0 as i64] + rest.0, rest.1)
        } else {
            (Seq::empty(), i)
        },
        None => (Seq::empty(), i),
    }
}

fn read_numbers(s: &[u8], i: usize) -> (r: (Vec<i64>, usize))
    requires
        i <= s@.len(),
    ensures
        (r.0@, r.1 as int) == numbers_from(s@, i as int),
        i <= r.1 <= s@.len(),
{
    let mut out: Vec<i64> = Vec::new();
    let mut pos: usize = i;
    let mut more = true;
    let ghost want = numbers_from(s@, i as int);
    while more
        invariant
            i <= pos <= s@.len(),
            want.0 =~= out@ + numbers_from(s@, pos as int).0,
            want.1 == numbers_from(s@, pos as int).1,
            !more ==> numbers_from(s@, pos as int) == (Seq::<i64>::empty(), pos as int),
        decreases s@.len() - pos + if more { 1int } else { 0int },
    {
        let j = skip_gap(s, pos);
        match read_signed(s, j) {
            Some(p) => {
                out.push(p.0);
                pos = p.1;
            },
            None => {
                more = false;
            },
        }
    }
    (out, pos)
}

/// The races with the first `k` of the times and of the distances.
pub open spec fn paired(times: Seq<i64>, distances: Seq<i64>, k: nat) -> Seq<Race> {
    Seq::new(k, |i: int| Race { time: times[i], distance: distances[i] })
}

/// The races that the text lists: `Time:` and one number or more, a
/// line feed, `Distance:` and one number or more; a race for each time
/// that has a distance. With them the index behind the last number.
pub open spec fn races_of(s: Seq<u8>) -> Option<(Seq<Race>, int)> {
    if matches_at(s, "Time:".spec_bytes(), 0) {
        let times = numbers_from(s, "Time:".spec_bytes().len() as int);
        if times.0.len() > 0 && 0 <= times.1 < s.len() && s[times.1] == 10 && matches_at(
            s,
            "Distance:".spec_bytes(),
            times.1 + 1,
        ) {
            let distances = numbers_from(s, times.1 + 1 + "Distance:".spec_bytes().len());
            if distances.0.len() > 0 {
                Some(
                    (
                        paired(
                            times.0,
                            distances.0,
                            if times.0.len() <= distances.0.len() {
                                times.0.len()
                            } else {
                                distances.0.len()
                            },
                        ),
                        distances.1,
                    ),
                )
            } else {
                None
            }
        } else {
            None
        }
    } else {
        None
    }
}

/// The digits among the bytes of `s` from `i` up to `k`.
pub open spec fn digits_between(s: Seq<u8>, i: int, k: int) -> Seq<u8>
    decreases k - i,
{
    if k <= i {
        Seq::empty()
    } else if is_digit(s[k - 1]) {
        digits_between(s, i, k - 1).push(s[k - 1])
    } else {
        digits_between(s, i, k - 1)
    }
}

/// Where the blanks and digits end that begin at `i`.
pub open spec fn kerning_end(s: Seq<u8>, i: int) -> int
    decreases s.len() - i,
{
    if 0 <= i < s.len() && (s[i] == 32 || is_digit(s[i])) {
        kerning_end(s, i + 1)
    } else {
        i
    }
}

/// What a line with bad kerning holds.
pub enum Kerned {
    /// The number that its digits spell, and the index behind the line.
    Number(int, int),
    /// The line is not as it must be.
    Wrong,
    /// The line has no digits, or their number does not fit in 64 bits.
    Unreadable,
}

/// The number of the line with bad kerning that begins in `s` at `i`:
/// the word `tag`, blanks and digits, at least one of them, and a line
/// feed. The digits spell the number, blanks or none between them.
pub open spec fn kerned_at(tag: Seq<u8>, s: Seq<u8>, i: int) -> Kerned {
    let from = i + tag.len();
    let to = kerning_end(s, from);
    if matches_at(s, tag, i) && from < to && to < s.len() && s[to] == 10 {
        match parse_int(digits_between(s, from, to), i64::MIN as int, i64::MAX as int) {
            Some(v) => Kerned::Number(v, to + 1),
            None => Kerned::Unreadable,
        }
    } else {
        Kerned::Wrong
    }
}

impl Race {
    /// The races that the text lists, with the index behind them.
    pub fn parse_races(input: &[u8]) -> (r: Option<(Vec<Race>, usize)>)
        ensures
            match r {
                Some(p) => races_of(input@) == Some((p.0@, p.1 as int)),
                None => races_of(input@) is None,
            },
    {
        let total: usize = input.len();
        let tag = "Time:".as_bytes();
        if !occurs_at(input, tag, 0) {
            return None;
        }
        assert(tag@.len() <= total);
        let (times, at) = read_numbers(input, tag.len());
        if times.len() == 0 || at >= input.len() || input[at] != 10 {
            return None;
        }
        let tag2 = "Distance:".as_bytes();
        if !occurs_at(input, tag2, at + 1) {
            return None;
        }
        assert(at + 1 + tag2@.len() <= total);
        let (distances, end) = read_numbers(input, at + 1 + tag2.len());
        if distances.len() == 0 {
            return None;
        }
        let n: usize = if times.len() <= distances.len() {
            times.len()
        } else {
            distances.len()
        };
        let mut res: Vec<Race> = Vec::new();
        let mut k: usize = 0;
        while k < n
            invariant
                k <= n,
                n <= times@.len(),
                n <= distances@.len(),
                res@ == paired(times@, distances@, k as nat),
            decreases n - k,
        {
            res.push(Race { time: times[k], distance: distances[k] });
            k += 1;
            proof {
                assert(res@ =~= paired(times@, distances@, k as nat));
            }
        }
        Some((res, end))
    }

    /// The number of the line with bad kerning that begins in `input` at
    /// `i`, with the index behind the line. The line must have digits
    /// that spell a number of 64 bits.
    pub fn parse_bad_kerning_line(line_tag: &[u8], input: &[u8], i: usize) -> (r: Option<
        (i64, usize),
    >)
        requires
            i <= input@.len(),
            !(kerned_at(line_tag@, input@, i as int) is Unreadable),
        ensures
            match r {
                Some(p) => kerned_at(line_tag@, input@, i as int) == Kerned::Number(
                    p.0 as int,
                    p.1 as int,
                ) && p.1 <= input@.len(),
                None => kerned_at(line_tag@, input@, i as int) is Wrong,
            },
    {
        let total: usize = input.len();
        if !occurs_at(input, line_tag, i) {
            return None;
        }
        assert(i + line_tag@.len() <= total);
        let from: usize = i + line_tag.len();
        let mut to: usize = from;
        let mut digits: Vec<u8> = Vec::new();
        while to < input.len() && (input[to] == 32 || byte_is_digit(input[to]))
            invariant
                from <= to <= input@.len(),
                kerning_end(input@, from as int) == kerning_end(input@, to as int),
                digits@ == digits_between(input@, from as int, to as int),
            decreases input.len() - to,
        {
            if byte_is_digit(input[to]) {
                digits.push(input[to]);
            }
            to += 1;
        }
        if !(from < to && to < input.len() && input[to] == 10) {
            return None;
        }
        match parse_i64(digits.as_slice()) {
            Some(v) => Some((v, to + 1)),
            None => None,
        }
    }

    /// The one race that the text lists when the blanks between its
    /// digits are left aside, with the index behind it.
    pub fn parse_bad_kerning(input: &[u8]) -> (r: Option<(Race, usize)>)
        requires
            !(kerned_at("Time:".spec_bytes(), input@, 0) is Unreadable),
            kerned_at("Time:".spec_bytes(), input@, 0) is Number ==> !(kerned_at(
                "Distance:".spec_bytes(),
                input@,
                kerned_at("Time:".spec_bytes(), input@, 0)->Number_1,
            ) is Unreadable),
        ensures
            match r {
                Some(p) => {
                    let t = kerned_at("Time:".spec_bytes(), input@, 0);
                    let d = kerned_at("Distance:".spec_bytes(), input@, p_next(t));
                    t is Number && d is Number && p.0.time == t->Number_0 && p.0.distance
                        == d->Number_0 && p.1 == d->Number_1
                },
                None => kerned_at("Time:".spec_bytes(), input@, 0) is Wrong || kerned_at(
                    "Distance:".spec_bytes(),
                    input@,
                    p_next(kerned_at("Time:".spec_bytes(), input@, 0)),
                ) is Wrong,
            },
    {
        let (time, i) = match Race::parse_bad_kerning_line("Time:".as_bytes(), input, 0) {
            Some(p) => p,
            None => {
                return None;
            },
        };
        let (distance, end) = match Race::parse_bad_kerning_line("Distance:".as_bytes(), input, i) {
            Some(p) => p,
            None => {
                return None;
            },
        };
        Some((Race { time, distance }, end))
    }
}

/// The index behind a line whose number was read.
pub open spec fn p_next(k: Kerned) -> int {
    match k {
        Kerned::Number(_, next) => next,
        _ => 0,
    }
}

} // verus!
