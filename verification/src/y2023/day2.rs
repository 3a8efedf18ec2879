//! Games with coloured balls drawn from a bag.

use crate::text::{digits_end, is_digit, lemma_digits_end, lines, lines_of, matches_at, occurs_at, views};
use vstd::prelude::*;
use vstd::string::*;

verus! {

/// The text was no game.
#[derive(Debug, PartialEq, Eq)]
pub struct ParseError;

#[derive(Debug)]
pub struct BallSet {
    pub red_cnt: u32,
    pub green_cnt: u32,
    pub blue_cnt: u32,
}

#[derive(Debug, Clone, Copy, PartialEq, Eq, Structural)]
pub enum BallColor {
    Red,
    Green,
    Blue,
}

#[derive(Debug)]
pub struct Game {
    pub id: u32,
    pub sets: Vec<BallSet>,
}

/// What a set of balls is: how many of each colour.
pub struct Counts {
    pub red: int,
    pub green: int,
    pub blue: int,
}

/// The number without sign that stands in `s` at `i`, with the index
/// behind it; `None` where no digit stands there or the number does not
/// fit in 32 bits.
pub open spec fn number_at(s: Seq<u8>, i: int) -> Option<(int, int)> {
    let to = digits_end(s, i);
    let v = crate::text::digits_value(s.subrange(i, to));
    if 0 <= i < to && v <= u32::MAX {
        Some((v, to))
    } else {
        None
    }
}

/// The name of a colour.
pub open spec fn color_word(c: BallColor) -> Seq<u8> {
    match c {
        BallColor::Red => seq![114u8, 101, 100],
        BallColor::Green => seq![103u8, 114, 101, 101, 110],
        BallColor::Blue => seq![98u8, 108, 117, 101],
    }
}

/// The colour whose name stands in `s` at `i`, with the index behind it.
pub open spec fn color_at(s: Seq<u8>, i: int) -> Option<(BallColor, int)> {
    if matches_at(s, color_word(BallColor::Red), i) {
        Some((BallColor::Red, i + 3))
    } else if matches_at(s, color_word(BallColor::Green), i) {
        Some((BallColor::Green, i + 5))
    } else if matches_at(s, color_word(BallColor::Blue), i) {
        Some((BallColor::Blue, i + 4))
    } else {
        None
    }
}

/// The group that stands in `s` at `i`: a space, a number, a space and a
/// colour; with the index behind it.
pub open spec fn group_at(s: Seq<u8>, i: int) -> Option<(int, BallColor, int)> {
    if !(0 <= i < s.len() && s[i] == 32) {
        None
    } else {
        match number_at(s, i + 1) {
            None => None,
            Some((n, j)) => if !(j < s.len() && s[j] == 32) {
                None
            } else {
                match color_at(s, j + 1) {
                    None => None,
                    Some((c, k)) => Some((n, c, k)),
                }
            },
        }
    }
}

/// `counts` with `n` more balls of colour `c`.
pub open spec fn with_group(counts: Counts, n: int, c: BallColor) -> Counts {
    match c {
        BallColor::Red => Counts { red: counts.red + n, green: counts.green, blue: counts.blue },
        BallColor::Green => Counts { red: counts.red, green: counts.green + n, blue: counts.blue },
        BallColor::Blue => Counts { red: counts.red, green: counts.green, blue: counts.blue + n },
    }
}

/// The groups that follow in `s` at `i`, each behind a comma, added to
/// `counts`; with the index behind the last of them.
pub open spec fn more_groups(s: Seq<u8>, i: int, counts: Counts) -> (Counts, int)
    decreases s.len() - i,
{
    if !(0 <= i < s.len() && s[i] == 44) {
        (counts, i)
    } else {
        match group_at(s, i + 1) {
            None => (counts, i),
            Some((n, c, k)) => if i < k <= s.len() {
                more_groups(s, k, with_group(counts, n, c))
            } else {
                (counts, i)
            },
        }
    }
}

/// The set that stands in `s` at `i`: one group or more with commas
/// between them; with the index behind it.
pub open spec fn set_at(s: Seq<u8>, i: int) -> Option<(Counts, int)> {
    match group_at(s, i) {
        None => None,
        Some((n, c, k)) => Some(
            more_groups(s, k, with_group(Counts { red: 0, green: 0, blue: 0 }, n, c)),
        ),
    }
}

/// The sets that follow in `s` at `i`, each behind a semicolon.
pub open spec fn more_sets(s: Seq<u8>, i: int) -> Seq<Counts>
    decreases s.len() - i,
{
    if !(0 <= i < s.len() && s[i] == 59) {
        Seq::empty()
    } else {
        match set_at(s, i + 1) {
            None => Seq::empty(),
            Some((counts, k)) => if i < k <= s.len() {
                seq![counts] + more_sets(s, k)
            } else {
                Seq::empty()
            },
        }
    }
}

/// The game that a line spells: `Game `, its number, a colon, and one set
/// or more with semicolons between them. What follows the last set does
/// not count.
pub open spec fn game_of(s: Seq<u8>) -> Option<(int, Seq<Counts>)> {
    if !matches_at(s, seq![71u8, 97, 109, 101, 32], 0) {
        None
    } else {
        match number_at(s, 5) {
            None => None,
            Some((id, j)) => if !(j < s.len() && s[j] == 58) {
                None
            } else {
                match set_at(s, j + 1) {
                    None => None,
                    Some((first, k)) => Some((id, seq![first] + more_sets(s, k))),
                }
            },
        }
    }
}

impl BallSet {
    /// The set as a value of mathematics.
    pub open spec fn view(&self) -> Counts {
        Counts { red: self.red_cnt as int, green: self.green_cnt as int, blue: self.blue_cnt as int }
    }

    pub fn to_tuple(&self) -> (r: (u32, u32, u32))
        ensures
            r == (self.red_cnt, self.green_cnt, self.blue_cnt),
    {
        (self.red_cnt, self.green_cnt, self.blue_cnt)
    }
}

/// The sets of `v`, as values of mathematics.
pub open spec fn set_views(v: Seq<BallSet>) -> Seq<Counts> {
    Seq::new(v.len(), |i: int| v[i]@)
}

fn read_number(s: &[u8], i: usize) -> (r: Option<(u32, usize)>)
    requires
        i <= s.len(),
    ensures
        match r {
            Some((v, to)) => number_at(s@, i as int) == Some((v as int, to as int)) && i < to
                <= s.len(),
            None => number_at(s@, i as int) is None,
        },
{
    let mut to: usize = i;
    while to < s.len() && crate::text::byte_is_digit(s[to])
        invariant
            i <= to <= s.len(),
            digits_end(s@, i as int) == digits_end(s@, to as int),
        decreases s.len() - to,
    {
        to += 1;
    }
    proof {
        lemma_digits_end(s@, i as int);
    }
    if i >= to {
        return None;
    }
    let digits = crate::text::copy_range(s, i, to);
    proof {
        assert(digits_end(s@, i as int) == to);
        assert(is_digit(s@[i as int]));
        assert(digits@[0] == s@[i as int]);
        assert(crate::text::all_digits(digits@));
    }
    let parsed = crate::text::parse_u32(digits.as_slice());
    proof {
        let body = digits@;
        assert(body == s@.subrange(i as int, to as int));
        assert(crate::text::parse_int(body, 0, u32::MAX as int) == if crate::text::digits_value(
            body,
        ) <= u32::MAX {
            Some(crate::text::digits_value(body))
        } else {
            None
        }) by {
            crate::text::lemma_digits_monotone(body, 0);
        }
    }
    match parsed {
        Some(v) => Some((v, to)),
        None => None,
    }
}

fn read_color(s: &[u8], i: usize) -> (r: Option<(BallColor, usize)>)
    requires
        i <= s.len(),
    ensures
        match r {
            Some((c, k)) => color_at(s@, i as int) == Some((c, k as int)) && i < k <= s.len(),
            None => color_at(s@, i as int) is None,
        },
{
    let red: [u8; 3] = [114, 101, 100];
    let green: [u8; 5] = [103, 114, 101, 101, 110];
    let blue: [u8; 4] = [98, 108, 117, 101];
    proof {
        assert(red@ =~= color_word(BallColor::Red));
        assert(green@ =~= color_word(BallColor::Green));
        assert(blue@ =~= color_word(BallColor::Blue));
    }
    if occurs_at(s, red.as_slice(), i) {
        Some((BallColor::Red, i + 3))
    } else if occurs_at(s, green.as_slice(), i) {
        Some((BallColor::Green, i + 5))
    } else if occurs_at(s, blue.as_slice(), i) {
        Some((BallColor::Blue, i + 4))
    } else {
        None
    }
}

fn parse_ball_group(s: &[u8], i: usize) -> (r: Option<(u32, BallColor, usize)>)
    requires
        i <= s.len(),
    ensures
        match r {
            Some((n, c, k)) => group_at(s@, i as int) == Some((n as int, c, k as int)) && i < k
                <= s.len(),
            None => group_at(s@, i as int) is None,
        },
{
    if !(i < s.len() && s[i] == 32) {
        return None;
    }
    let (n, j) = match read_number(s, i + 1) {
        Some(p) => p,
        None => {
            return None;
        },
    };
    if !(j < s.len() && s[j] == 32) {
        return None;
    }
    match read_color(s, j + 1) {
        Some((c, k)) => Some((n, c, k)),
        None => None,
    }
}

/// Whether the counts that the sets of the line take fit in 32 bits at
/// every step.
pub open spec fn groups_fit(s: Seq<u8>, i: int, counts: Counts) -> bool
    decreases s.len() - i,
{
    if !(0 <= i < s.len() && s[i] == 44) {
        true
    } else {
        match group_at(s, i + 1) {
            None => true,
            Some((n, c, k)) => if i < k <= s.len() {
                let next = with_group(counts, n, c);
                next.red <= u32::MAX && next.green <= u32::MAX && next.blue <= u32::MAX
                    && groups_fit(s, k, next)
            } else {
                true
            },
        }
    }
}

/// Whether the counts of the set at `i` fit in 32 bits at every step.
pub open spec fn set_fits(s: Seq<u8>, i: int) -> bool {
    match group_at(s, i) {
        None => true,
        Some((n, c, k)) => groups_fit(
            s,
            k,
            with_group(Counts { red: 0, green: 0, blue: 0 }, n, c),
        ),
    }
}

/// Whether the counts of the sets behind semicolons from `i` on fit.
pub open spec fn sets_fit(s: Seq<u8>, i: int) -> bool
    decreases s.len() - i,
{
    if !(0 <= i < s.len() && s[i] == 59) {
        true
    } else {
        set_fits(s, i + 1) && match set_at(s, i + 1) {
            None => true,
            Some((counts, k)) => i < k <= s.len() ==> sets_fit(s, k),
        }
    }
}

/// Whether all counts of the line fit in 32 bits at every step.
pub open spec fn line_fits(s: Seq<u8>) -> bool {
    match number_at(s, 5) {
        None => true,
        Some((id, j)) => set_fits(s, j + 1) && match set_at(s, j + 1) {
            None => true,
            Some((first, k)) => sets_fit(s, k),
        },
    }
}

impl BallSet {
    /// The set that stands in `s` at `i`.
    pub fn parse(s: &[u8], i: usize) -> (r: Option<(BallSet, usize)>)
        requires
            i <= s.len(),
            set_fits(s@, i as int),
        ensures
            match r {
                Some((set, k)) => set_at(s@, i as int) == Some((set@, k as int)) && i < k
                    <= s.len(),
                None => set_at(s@, i as int) is None,
            },
    {
        let (n, c, k) = match parse_ball_group(s, i) {
            Some(g) => g,
            None => {
                return None;
            },
        };
        let mut set = BallSet { red_cnt: 0, green_cnt: 0, blue_cnt: 0 };
        match c {
            BallColor::Red => {
                set.red_cnt = n;
            },
            BallColor::Green => {
                set.green_cnt = n;
            },
            BallColor::Blue => {
                set.blue_cnt = n;
            },
        }
        let mut pos: usize = k;
        loop
            invariant
                i < pos <= s.len(),
                groups_fit(s@, pos as int, set@),
                set_at(s@, i as int) == Some(more_groups(s@, pos as int, set@)),
            decreases s.len() - pos,
        {
            if !(pos < s.len() && s[pos] == 44) {
                return Some((set, pos));
            }
            match parse_ball_group(s, pos + 1) {
                None => {
                    return Some((set, pos));
                },
                Some((n, c, k)) => {
                    match c {
                        BallColor::Red => {
                            set.red_cnt = set.red_cnt + n;
                        },
                        BallColor::Green => {
                            set.green_cnt = set.green_cnt + n;
                        },
                        BallColor::Blue => {
                            set.blue_cnt = set.blue_cnt + n;
                        },
                    }
                    pos = k;
                },
            }
        }
    }
}

impl Game {
    /// The game as a value of mathematics.
    pub open spec fn view(&self) -> (int, Seq<Counts>) {
        (self.id as int, set_views(self.sets@))
    }

    /// The game that the line `s` spells.
    pub fn parse(s: &[u8]) -> (r: Result<Game, ParseError>)
        requires
            line_fits(s@),
        ensures
            match r {
                Ok(g) => game_of(s@) == Some(g@),
                Err(_) => game_of(s@) is None,
            },
    {
        let tag: [u8; 5] = [71, 97, 109, 101, 32];
        proof {
            assert(tag@ =~= seq![71u8, 97, 109, 101, 32]);
        }
        if !occurs_at(s, tag.as_slice(), 0) {
            return Err(ParseError);
        }
        let (id, j) = match read_number(s, 5) {
            Some(p) => p,
            None => {
                return Err(ParseError);
            },
        };
        if !(j < s.len() && s[j] == 58) {
            return Err(ParseError);
        }
        let (first, k) = match BallSet::parse(s, j + 1) {
            Some(p) => p,
            None => {
                return Err(ParseError);
            },
        };
        let ghost first_counts = first@;
        let mut sets: Vec<BallSet> = Vec::new();
        sets.push(first);
        let mut pos: usize = k;
        proof {
            assert(set_views(sets@) =~= seq![first_counts]);
        }
        loop
            invariant
                pos <= s.len(),
                sets_fit(s@, pos as int),
                game_of(s@) == Some((id as int, seq![first_counts] + more_sets(s@, k as int))),
                seq![first_counts] + more_sets(s@, k as int) == set_views(sets@) + more_sets(
                    s@,
                    pos as int,
                ),
            decreases s.len() - pos,
        {
            if !(pos < s.len() && s[pos] == 59) {
                proof {
                    assert(set_views(sets@) + Seq::<Counts>::empty() =~= set_views(sets@));
                }
                return Ok(Game { id, sets });
            }
            match BallSet::parse(s, pos + 1) {
                None => {
                    proof {
                        assert(set_views(sets@) + Seq::<Counts>::empty() =~= set_views(sets@));
                    }
                    return Ok(Game { id, sets });
                },
                Some((set, next)) => {
                    let ghost before = sets@;
                    let ghost counts = set@;
                    sets.push(set);
                    proof {
                        assert(set_views(sets@) =~= set_views(before).push(counts));
                        assert(set_views(before) + (seq![counts] + more_sets(s@, next as int))
                            =~= set_views(sets@) + more_sets(s@, next as int));
                    }
                    pos = next;
                },
            }
        }
    }

    /// Whether no set of the game holds more balls of a colour than
    /// given.
    pub fn possible_to_have(&self, red: u32, green: u32, blue: u32) -> (r: bool)
        ensures
            r == possible(self@.1, red as int, green as int, blue as int),
    {
        let mut i: usize = 0;
        while i < self.sets.len()
            invariant
                i <= self.sets.len(),
                forall|k: int|
                    0 <= k < i ==> {
                        let set = #[trigger] set_views(self.sets@)[k];
                        set.red <= red && set.green <= green && set.blue <= blue
                    },
            decreases self.sets.len() - i,
        {
            let set = &self.sets[i];
            proof {
                assert(set_views(self.sets@)[i as int] == set@);
            }
            if set.red_cnt > red || set.green_cnt > green || set.blue_cnt > blue {
                return false;
            }
            i += 1;
        }
        true
    }

    /// The least set that holds all sets of the game.
    pub fn smallest_ball_set(&self) -> (r: BallSet)
        ensures
            r@ == smallest(self@.1, self@.1.len()),
    {
        let mut res = BallSet { red_cnt: 0, green_cnt: 0, blue_cnt: 0 };
        let mut i: usize = 0;
        while i < self.sets.len()
            invariant
                i <= self.sets.len(),
                res@ == smallest(set_views(self.sets@), i as nat),
            decreases self.sets.len() - i,
        {
            let set = &self.sets[i];
            proof {
                assert(set_views(self.sets@)[i as int] == set@);
            }
            if set.red_cnt > res.red_cnt {
                res.red_cnt = set.red_cnt;
            }
            if set.green_cnt > res.green_cnt {
                res.green_cnt = set.green_cnt;
            }
            if set.blue_cnt > res.blue_cnt {
                res.blue_cnt = set.blue_cnt;
            }
            i += 1;
        }
        res
    }
}

/// Whether no set holds more balls of a colour than given.
pub open spec fn possible(sets: Seq<Counts>, red: int, green: int, blue: int) -> bool {
    forall|k: int|
        0 <= k < sets.len() ==> {
            let set = #[trigger] sets[k];
            set.red <= red && set.green <= green && set.blue <= blue
        }
}

/// The greater of two numbers.
pub open spec fn greater(a: int, b: int) -> int {
    if a >= b {
        a
    } else {
        b
    }
}

/// The least set that holds the first `k` sets.
pub open spec fn smallest(sets: Seq<Counts>, k: nat) -> Counts
    decreases k,
{
    if k == 0 {
        Counts { red: 0, green: 0, blue: 0 }
    } else {
        let before = smallest(sets, (k - 1) as nat);
        Counts {
            red: greater(before.red, sets[k - 1].red),
            green: greater(before.green, sets[k - 1].green),
            blue: greater(before.blue, sets[k - 1].blue),
        }
    }
}

/// What a game adds to the sum: in the first part its number if 12 red, 13
/// green and 14 blue balls make it possible, in the second the product of
/// the counts of its least set.
pub open spec fn game_value(g: (int, Seq<Counts>), second: bool) -> int {
    if second {
        let m = smallest(g.1, g.1.len());
        m.red * m.green * m.blue
    } else if possible(g.1, 12, 13, 14) {
        g.0
    } else {
        0
    }
}

/// The sum of the values of the first `k` lines; `None` where one of them
/// is no game.
pub open spec fn total(ls: Seq<Seq<u8>>, second: bool, k: nat) -> Option<int>
    decreases k,
{
    if k == 0 {
        Some(0)
    } else {
        match (total(ls, second, (k - 1) as nat), game_of(ls[k - 1])) {
            (Some(t), Some(g)) => Some(t + game_value(g, second)),
            _ => None,
        }
    }
}

/// Whether the counts and the sums, as far as there are any, fit in 32
/// bits.
pub open spec fn can_total(ls: Seq<Seq<u8>>, second: bool) -> bool {
    &&& forall|i: int| 0 <= i < ls.len() ==> line_fits(#[trigger] ls[i])
    &&& forall|k: nat|
        k <= ls.len() && #[trigger] total(ls, second, k) is Some ==> total(ls, second, k)->0
            <= u32::MAX
    &&& second ==> forall|i: int|
        0 <= i < ls.len() && game_of(#[trigger] ls[i]) is Some ==> {
            let g = game_of(ls[i])->0;
            let m = smallest(g.1, g.1.len());
            m.red * m.green <= u32::MAX && m.red * m.green * m.blue <= u32::MAX
        }
}

/// Once a line is no game, no longer list has a sum.
pub proof fn lemma_total_stays_none(ls: Seq<Seq<u8>>, second: bool, j: nat, k: nat)
    requires
        j <= k,
        total(ls, second, j) is None,
    ensures
        total(ls, second, k) is None,
    decreases k,
{
    if j < k {
        lemma_total_stays_none(ls, second, j, (k - 1) as nat);
    }
}

fn sum_games(input: &str, second: bool) -> (r: Result<u32, ParseError>)
    requires
        can_total(lines_of(input.spec_bytes()), second),
    ensures
        match r {
            Ok(v) => total(
                lines_of(input.spec_bytes()),
                second,
                lines_of(input.spec_bytes()).len(),
            ) == Some(v as int),
            Err(_) => total(
                lines_of(input.spec_bytes()),
                second,
                lines_of(input.spec_bytes()).len(),
            ) is None,
        },
{
    let ls = lines(input.as_bytes());
    let ghost lv = lines_of(input.spec_bytes());
    let mut sum: u32 = 0;
    let mut i: usize = 0;
    while i < ls.len()
        invariant
            i <= ls.len(),
            lv == views(ls@),
            lv == lines_of(input.spec_bytes()),
            can_total(lv, second),
            total(lv, second, i as nat) == Some(sum as int),
        decreases ls.len() - i,
    {
        assert(ls@[i as int]@ == lv[i as int]);
        assert(line_fits(lv[i as int]));
        let game = match Game::parse(ls[i].as_slice()) {
            Ok(g) => g,
            Err(e) => {
                proof {
                    assert(total(lv, second, (i + 1) as nat) is None);
                    lemma_total_stays_none(lv, second, (i + 1) as nat, lv.len());
                }
                return Err(e);
            },
        };
        proof {
            assert(total(lv, second, (i + 1) as nat) == Some(sum + game_value(game@, second)));
        }
        if second {
            let (r, g, b) = game.smallest_ball_set().to_tuple();
            proof {
                assert(0 <= r * g) by (nonlinear_arith)
                    requires
                        0 <= r,
                        0 <= g,
                ;
            }
            sum = sum + r * g * b;
        } else if game.possible_to_have(12, 13, 14) {
            sum = sum + game.id;
        }
        i += 1;
    }
    Ok(sum)
}

/// The sum of the numbers of the games that 12 red, 13 green and 14 blue
/// balls make possible.
pub fn day2_1(input: &str) -> (r: Result<u32, ParseError>)
    requires
        can_total(lines_of(input.spec_bytes()), false),
    ensures
        match r {
            Ok(v) => total(lines_of(input.spec_bytes()), false, lines_of(input.spec_bytes()).len())
                == Some(v as int),
            Err(_) => total(lines_of(input.spec_bytes()), false, lines_of(input.spec_bytes()).len())
                 is None,
        },
{
    sum_games(input, false)
}

/// The sum of the products of the counts of the least sets of the games.
pub fn day2_2(input: &str) -> (r: Result<u32, ParseError>)
    requires
        can_total(lines_of(input.spec_bytes()), true),
    ensures
        match r {
            Ok(v) => total(lines_of(input.spec_bytes()), true, lines_of(input.spec_bytes()).len())
                == Some(v as int),
            Err(_) => total(lines_of(input.spec_bytes()), true, lines_of(input.spec_bytes()).len())
                 is None,
        },
{
    sum_games(input, true)
}

} // verus!
