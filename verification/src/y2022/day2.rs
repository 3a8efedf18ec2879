//! Rock, paper, scissors: the score of a list of rounds.

use crate::text::{lines, lines_of, tokens, tokens_of, views};
use vstd::prelude::*;
use vstd::string::*;

verus! {

#[derive(Debug, Clone, Copy, PartialEq, Eq, Structural)]
pub enum Move {
    Rock,
    Paper,
    Scissors,
}

#[derive(Debug, Clone, Copy, PartialEq, Eq, Structural)]
pub enum RPSResult {
    Win,
    Draw,
    Loss,
}

/// The move that a word names: `A` or `X` rock, `B` or `Y` paper, `C` or
/// `Z` scissors.
pub open spec fn move_of(w: Seq<u8>) -> Option<Move> {
    if w.len() != 1 {
        None
    } else if w[0] == 65 || w[0] == 88 {
        Some(Move::Rock)
    } else if w[0] == 66 || w[0] == 89 {
        Some(Move::Paper)
    } else if w[0] == 67 || w[0] == 90 {
        Some(Move::Scissors)
    } else {
        None
    }
}

/// The result that a word names: `X` loss, `Y` draw, `Z` win.
pub open spec fn result_of(w: Seq<u8>) -> Option<RPSResult> {
    if w.len() != 1 {
        None
    } else if w[0] == 88 {
        Some(RPSResult::Loss)
    } else if w[0] == 89 {
        Some(RPSResult::Draw)
    } else if w[0] == 90 {
        Some(RPSResult::Win)
    } else {
        None
    }
}

/// Whether `a` beats `b`.
pub open spec fn beats(a: Move, b: Move) -> bool {
    ||| (a == Move::Rock && b == Move::Scissors)
    ||| (a == Move::Paper && b == Move::Rock)
    ||| (a == Move::Scissors && b == Move::Paper)
}

impl Move {
    /// How a round ends for `self` against `other`.
    pub open spec fn spec_vs(self, other: Move) -> RPSResult {
        if self == other {
            RPSResult::Draw
        } else if beats(self, other) {
            RPSResult::Win
        } else {
            RPSResult::Loss
        }
    }

    /// The points that the move itself gives.
    pub open spec fn spec_move_score(self) -> int {
        match self {
            Move::Rock => 1,
            Move::Paper => 2,
            Move::Scissors => 3,
        }
    }

    fn from_bytes(w: &[u8]) -> (r: Option<Move>)
        ensures
            r == move_of(w@),
    {
        if w.len() != 1 {
            None
        } else if w[0] == 65 || w[0] == 88 {
            Some(Move::Rock)
        } else if w[0] == 66 || w[0] == 89 {
            Some(Move::Paper)
        } else if w[0] == 67 || w[0] == 90 {
            Some(Move::Scissors)
        } else {
            None
        }
    }

    pub fn from_str(c: &str) -> (r: Option<Move>)
        ensures
            r == move_of(c.spec_bytes()),
    {
        Move::from_bytes(c.as_bytes())
    }

    pub fn vs(&self, other: &Move) -> (r: RPSResult)
        ensures
            r == self.spec_vs(*other),
    {
        match self {
            Move::Rock => match other {
                Move::Rock => RPSResult::Draw,
                Move::Paper => RPSResult::Loss,
                Move::Scissors => RPSResult::Win,
            },
            Move::Paper => match other {
                Move::Rock => RPSResult::Win,
                Move::Paper => RPSResult::Draw,
                Move::Scissors => RPSResult::Loss,
            },
            Move::Scissors => match other {
                Move::Rock => RPSResult::Loss,
                Move::Paper => RPSResult::Win,
                Move::Scissors => RPSResult::Draw,
            },
        }
    }

    pub fn move_score(&self) -> (r: i32)
        ensures
            r == self.spec_move_score(),
    {
        match self {
            Move::Rock => 1,
            Move::Paper => 2,
            Move::Scissors => 3,
        }
    }

    /// The move that ends a round against `self` with `res`.
    pub fn move_for(&self, res: &RPSResult) -> (r: Move)
        ensures
            r.spec_vs(*self) == *res,
    {
        match self {
            Move::Rock => match res {
                RPSResult::Win => Move::Paper,
                RPSResult::Draw => Move::Rock,
                RPSResult::Loss => Move::Scissors,
            },
            Move::Paper => match res {
                RPSResult::Win => Move::Scissors,
                RPSResult::Draw => Move::Paper,
                RPSResult::Loss => Move::Rock,
            },
            Move::Scissors => match res {
                RPSResult::Win => Move::Rock,
                RPSResult::Draw => Move::Scissors,
                RPSResult::Loss => Move::Paper,
            },
        }
    }
}

/// Against every move exactly one move wins, one draws and one loses.
pub proof fn lemma_move_for_unique(a: Move, b: Move, c: Move)
    requires
        b.spec_vs(a) == c.spec_vs(a),
    ensures
        b == c,
{
}

impl RPSResult {
    /// The points that the result gives.
    pub open spec fn spec_score(self) -> int {
        match self {
            RPSResult::Win => 6,
            RPSResult::Draw => 3,
            RPSResult::Loss => 0,
        }
    }

    fn from_bytes(w: &[u8]) -> (r: Option<RPSResult>)
        ensures
            r == result_of(w@),
    {
        if w.len() != 1 {
            None
        } else if w[0] == 88 {
            Some(RPSResult::Loss)
        } else if w[0] == 89 {
            Some(RPSResult::Draw)
        } else if w[0] == 90 {
            Some(RPSResult::Win)
        } else {
            None
        }
    }

    pub fn from_str(c: &str) -> (r: Option<RPSResult>)
        ensures
            r == result_of(c.spec_bytes()),
    {
        RPSResult::from_bytes(c.as_bytes())
    }

    pub fn score(&self) -> (r: i32)
        ensures
            r == self.spec_score(),
    {
        match self {
            RPSResult::Win => 6,
            RPSResult::Draw => 3,
            RPSResult::Loss => 0,
        }
    }
}

/// The move that ends a round against `a` with `res`.
pub open spec fn answer_to(a: Move, res: RPSResult) -> Move {
    if Move::Rock.spec_vs(a) == res {
        Move::Rock
    } else if Move::Paper.spec_vs(a) == res {
        Move::Paper
    } else {
        Move::Scissors
    }
}

/// The points of the round that `line` spells: two words, read as the
/// other's move and one's own (first reading), or as the other's move and
/// the result wanted (second reading). A line that does not spell a round
/// gives 0.
pub open spec fn round_score(line: Seq<u8>, second: bool) -> int {
    let t = tokens_of(line);
    if t.len() < 2 || move_of(t[0]) is None {
        0
    } else if second {
        match result_of(t[1]) {
            Some(res) => res.spec_score() + answer_to(move_of(t[0])->0, res).spec_move_score(),
            None => 0,
        }
    } else {
        match move_of(t[1]) {
            Some(mine) => mine.spec_vs(move_of(t[0])->0).spec_score() + mine.spec_move_score(),
            None => 0,
        }
    }
}

/// The points of the first `k` rounds of `ls`.
pub open spec fn total_score(ls: Seq<Seq<u8>>, second: bool, k: nat) -> int
    decreases k,
{
    if k == 0 {
        0
    } else {
        total_score(ls, second, (k - 1) as nat) + round_score(ls[k - 1], second)
    }
}

fn score_line(line: &[u8], second: bool) -> (r: i32)
    ensures
        r == round_score(line@, second),
        0 <= r <= 9,
{
    let t = tokens(line);
    proof {
        assert(views(t@).len() == t@.len());
    }
    if t.len() < 2 {
        return 0;
    }
    assert(t@[0]@ == tokens_of(line@)[0]);
    assert(t@[1]@ == tokens_of(line@)[1]);
    let opponent = match Move::from_bytes(t[0].as_slice()) {
        Some(m) => m,
        None => {
            return 0;
        },
    };
    if second {
        match RPSResult::from_bytes(t[1].as_slice()) {
            Some(res) => {
                let mine = opponent.move_for(&res);
                proof {
                    lemma_move_for_unique(opponent, mine, answer_to(opponent, res));
                }
                res.score() + mine.move_score()
            },
            None => 0,
        }
    } else {
        match Move::from_bytes(t[1].as_slice()) {
            Some(mine) => mine.vs(&opponent).score() + mine.move_score(),
            None => 0,
        }
    }
}

fn score_all(input: &str, second: bool) -> (r: i32)
    requires
        total_score(lines_of(input.spec_bytes()), second, lines_of(input.spec_bytes()).len())
            <= i32::MAX,
    ensures
        r == total_score(lines_of(input.spec_bytes()), second, lines_of(input.spec_bytes()).len()),
{
    let ls = lines(input.as_bytes());
    let ghost lv = lines_of(input.spec_bytes());
    let mut sum: i32 = 0;
    let mut i: usize = 0;
    while i < ls.len()
        invariant
            i <= ls.len(),
            lv == views(ls@),
            total_score(lv, second, lv.len()) <= i32::MAX,
            sum == total_score(lv, second, i as nat),
            0 <= sum,
        decreases ls.len() - i,
    {
        assert(ls@[i as int]@ == lv[i as int]);
        let s = score_line(ls[i].as_slice(), second);
        proof {
            lemma_total_grows(lv, second, (i + 1) as nat, lv.len());
        }
        sum = sum + s;
        i += 1;
    }
    sum
}

/// No round takes points away.
pub proof fn lemma_total_grows(ls: Seq<Seq<u8>>, second: bool, j: nat, k: nat)
    requires
        j <= k,
    ensures
        0 <= total_score(ls, second, j) <= total_score(ls, second, k),
    decreases k,
{
    if k > 0 {
        if j < k {
            lemma_total_grows(ls, second, j, (k - 1) as nat);
        } else {
            lemma_total_grows(ls, second, (k - 1) as nat, (k - 1) as nat);
        }
    }
}

/// The points of all rounds, the second word read as one's own move.
pub fn day2_1(input: &str) -> (r: i32)
    requires
        total_score(lines_of(input.spec_bytes()), false, lines_of(input.spec_bytes()).len())
            <= i32::MAX,
    ensures
        r == total_score(lines_of(input.spec_bytes()), false, lines_of(input.spec_bytes()).len()),
{
    score_all(input, false)
}

/// The points of all rounds, the second word read as the result wanted.
pub fn day2_2(input: &str) -> (r: i32)
    requires
        total_score(lines_of(input.spec_bytes()), true, lines_of(input.spec_bytes()).len())
            <= i32::MAX,
    ensures
        r == total_score(lines_of(input.spec_bytes()), true, lines_of(input.spec_bytes()).len()),
{
    score_all(input, true)
}

} // verus!
