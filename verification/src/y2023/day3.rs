//! Numbers on a plan of an engine: those beside a symbol, and the pairs
//! beside a star.

use crate::text::{byte_is_digit, digits_value, is_digit, lemma_digits_monotone};
use crate::y2023::grid::{is_block, picture_in, picture_of, AsciiGrid, Grid, Picture};
use vstd::prelude::*;
use vstd::string::*;

verus! {

/// Whether a digit stands at `(x, y)`.
pub open spec fn digit(p: Picture, x: int, y: int) -> bool {
    match (p.cell)(x, y) {
        Some(b) => is_digit(b),
        None => false,
    }
}

/// Whether `b` is a symbol: neither a digit nor a dot.
pub open spec fn is_symbol_byte(b: u8) -> bool {
    !is_digit(b) && b != 46
}

/// Whether `byte` is a symbol.
pub fn is_symbol(byte: u8) -> (r: bool)
    ensures
        r == is_symbol_byte(byte),
{
    !byte_is_digit(byte) && byte != 46
}

/// Where the digits end that stand in row `y` from `x` on.
pub open spec fn run_end(p: Picture, x: int, y: int) -> int
    decreases p.width - x,
{
    if x < p.width && digit(p, x, y) {
        run_end(p, x + 1, y)
    } else {
        x
    }
}

/// Where the digits begin that stand in row `y` up to `x`.
pub open spec fn run_start(p: Picture, x: int, y: int) -> int
    decreases x,
{
    if x > 0 && digit(p, x - 1, y) {
        run_start(p, x - 1, y)
    } else {
        x
    }
}

/// The bytes of row `y` from `x0` up to `x1`.
pub open spec fn run_digits(p: Picture, x0: int, x1: int, y: int) -> Seq<u8> {
    Seq::new((x1 - x0) as nat, |i: int| (p.cell)(x0 + i, y)->0)
}

/// The number that the digits of row `y` from `x0` up to `x1` spell.
pub open spec fn run_value(p: Picture, x0: int, x1: int, y: int) -> int {
    digits_value(run_digits(p, x0, x1, y))
}

/// Whether a symbol stands beside the cells `x0..x1` of row `y`, also
/// across a corner.
pub open spec fn touches(p: Picture, x0: int, x1: int, y: int) -> bool {
    exists|xs: int, ys: int|
        x0 - 1 <= xs <= x1 && y - 1 <= ys <= y + 1 && #[trigger] symbol_at(p, xs, ys)
}

/// Whether a symbol stands at `(x, y)`.
pub open spec fn symbol_at(p: Picture, x: int, y: int) -> bool {
    match (p.cell)(x, y) {
        Some(b) => is_symbol_byte(b),
        None => false,
    }
}

/// Whether a digit stands in the cell that is read before `(x, y)`: the
/// one to its left, or the last of the row above.
pub open spec fn follows_digit(p: Picture, x: int, y: int) -> bool {
    if x > 0 {
        digit(p, x - 1, y)
    } else {
        y > 0 && digit(p, p.width - 1, y - 1)
    }
}

/// The number that begins at `(x, y)` if it stands beside a symbol, else
/// zero. A number begins where a digit does not follow a digit.
pub open spec fn part_number(p: Picture, x: int, y: int) -> int {
    if digit(p, x, y) && !follows_digit(p, x, y) && touches(p, x, run_end(p, x, y), y) {
        run_value(p, x, run_end(p, x, y), y)
    } else {
        0
    }
}

/// The sum of `f` over the first `x` cells of row `y`.
pub open spec fn row_sum(f: spec_fn(int, int) -> int, y: int, x: nat) -> int
    decreases x,
{
    if x == 0 {
        0
    } else {
        row_sum(f, y, (x - 1) as nat) + f(x - 1, y)
    }
}

/// The sum of `f` over the first `y` rows of `w` cells.
pub open spec fn rows_sum(f: spec_fn(int, int) -> int, w: nat, y: nat) -> int
    decreases y,
{
    if y == 0 {
        0
    } else {
        rows_sum(f, w, (y - 1) as nat) + row_sum(f, y - 1, w)
    }
}

/// The sum of `f` over the cells that are read before `(x, y)`.
pub open spec fn sum_before(f: spec_fn(int, int) -> int, w: nat, x: nat, y: nat) -> int {
    rows_sum(f, w, y) + row_sum(f, y as int, x)
}

/// Whether every sum on the way to the sum of `f` over the plan fits in
/// 32 bits, and every term too.
pub open spec fn sums_fit(f: spec_fn(int, int) -> int, p: Picture) -> bool {
    &&& forall|x: int, y: int|
        0 <= x < p.width && 0 <= y < p.height ==> 0 <= #[trigger] f(x, y) <= u32::MAX
    &&& forall|x: nat, y: nat|
        x <= p.width && y < p.height ==> #[trigger] sum_before(f, p.width, x, y) <= u32::MAX
}

/// Where the digits end that stand in row `line` from `x_start` on.
pub fn number_end<G: Grid<Item = u8>>(grid: &G, line: usize, x_start: usize) -> (r: usize)
    requires
        grid.wf(),
    ensures
        r == run_end(picture_in(grid), x_start as int, line as int),
        x_start <= r,
        r <= grid.spec_width() || r == x_start,
{
    let ghost p = picture_in(grid);
    let mut x_end: usize = x_start;
    loop
        invariant
            grid.wf(),
            p == picture_in(grid),
            x_start <= x_end,
            x_end <= grid.spec_width() || x_end == x_start,
            run_end(p, x_start as int, line as int) == run_end(p, x_end as int, line as int),
        decreases grid.spec_width() - x_end,
    {
        proof {
            grid.lemma_at_inside(x_end as int, line as int);
        }
        match grid.get(x_end, line) {
            Some(c) => {
                if !byte_is_digit(*c) {
                    return x_end;
                }
                x_end += 1;
            },
            None => {
                return x_end;
            },
        }
    }
}

/// The number that the digits `x0..x1` of row `line` spell.
fn read_number<G: Grid<Item = u8>>(grid: &G, line: usize, x0: usize, x1: usize) -> (r: u32)
    requires
        grid.wf(),
        x0 <= x1 <= grid.spec_width(),
        line < grid.spec_height(),
        forall|x: int| x0 <= x < x1 ==> digit(picture_in(grid), x, line as int),
        run_value(picture_in(grid), x0 as int, x1 as int, line as int) <= u32::MAX,
    ensures
        r == run_value(picture_in(grid), x0 as int, x1 as int, line as int),
{
    let ghost p = picture_in(grid);
    let ghost all = run_digits(p, x0 as int, x1 as int, line as int);
    let mut acc: u32 = 0;
    let mut x: usize = x0;
    proof {
        assert(all.subrange(0, 0) =~= Seq::<u8>::empty());
        assert forall|i: int| 0 <= i < all.len() implies is_digit(#[trigger] all[i]) by {
            assert(digit(p, x0 + i, line as int));
        }
    }
    while x < x1
        invariant
            grid.wf(),
            p == picture_in(grid),
            x0 <= x <= x1 <= grid.spec_width(),
            line < grid.spec_height(),
            all == run_digits(p, x0 as int, x1 as int, line as int),
            crate::text::all_digits(all),
            digits_value(all) <= u32::MAX,
            acc == digits_value(all.subrange(0, x - x0)),
        decreases x1 - x,
    {
        proof {
            grid.lemma_at_inside(x as int, line as int);
            lemma_digits_monotone(all, x - x0 + 1);
            let next = all.subrange(0, x - x0 + 1);
            assert(next.drop_last() =~= all.subrange(0, x - x0));
            assert(next.last() == all[x - x0]);
        }
        let b: u8 = match grid.get(x, line) {
            Some(c) => *c,
            None => 48,
        };
        acc = acc * 10 + (b - 48) as u32;
        x += 1;
    }
    proof {
        assert(all.subrange(0, x1 - x0) =~= all);
    }
    acc
}

/// Whether a symbol stands beside the cells `x0..x1` of row `y`.
fn beside_symbol<G: Grid<Item = u8>>(grid: &G, x0: usize, x1: usize, y: usize) -> (r: bool)
    requires
        grid.wf(),
        x0 <= x1 <= grid.spec_width(),
        y < grid.spec_height(),
        grid.spec_width() > 0,
    ensures
        r == touches(picture_in(grid), x0 as int, x1 as int, y as int),
{
    let ghost p = picture_in(grid);
    proof {
        grid.lemma_at_inside(0, 0);
    }
    let w = grid.width();
    let h = grid.height();
    let xs0: usize = if x0 == 0 {
        0
    } else {
        x0 - 1
    };
    let ys0: usize = if y == 0 {
        0
    } else {
        y - 1
    };
    let x_last: usize = if x1 < w {
        x1
    } else {
        w - 1
    };
    let y_last: usize = if y + 1 < h {
        y + 1
    } else {
        h - 1
    };
    let mut ys: usize = ys0;
    while ys <= y_last
        invariant
            grid.wf(),
            p == picture_in(grid),
            w == grid.spec_width(),
            h == grid.spec_height(),
            xs0 <= x_last + 1,
            x_last < w,
            y_last < h,
            x0 - 1 <= xs0,
            x_last <= x1,
            y - 1 <= ys0,
            y_last <= y + 1,
            ys0 <= ys <= y_last + 1,
            forall|a: int, b: int|
                xs0 <= a <= x_last && ys0 <= b < ys ==> !#[trigger] symbol_at(p, a, b),
        decreases y_last + 1 - ys,
    {
        let mut xs: usize = xs0;
        while xs <= x_last
            invariant
                grid.wf(),
                p == picture_in(grid),
                xs0 <= xs <= x_last + 1,
                x_last < w,
                x0 - 1 <= xs0,
                x_last <= x1,
                y - 1 <= ys0,
                y_last <= y + 1,
                w == grid.spec_width(),
                ys0 <= ys <= y_last,
                forall|a: int, b: int|
                    xs0 <= a <= x_last && ys0 <= b < ys ==> !#[trigger] symbol_at(p, a, b),
                forall|a: int| xs0 <= a < xs ==> !#[trigger] symbol_at(p, a, ys as int),
            decreases x_last + 1 - xs,
        {
            match grid.get(xs, ys) {
                Some(byte) => {
                    if is_symbol(*byte) {
                        assert(symbol_at(p, xs as int, ys as int));
                        return true;
                    }
                },
                None => {},
            }
            xs += 1;
        }
        ys += 1;
    }
    proof {
        assert forall|a: int, b: int|
            x0 - 1 <= a <= x1 && y - 1 <= b <= y + 1 implies !#[trigger] symbol_at(p, a, b) by {
            grid.lemma_at_inside(a, b);
        }
    }
    false
}

/// Whether the text is a plan: a block with cells.
pub open spec fn is_plan(s: Seq<u8>) -> bool {
    &&& is_block(s)
    &&& s.len() < usize::MAX
    &&& picture_of(s).width > 0
    &&& picture_of(s).height > 0
}

/// The sum of the numbers that stand beside a symbol.
pub fn day3_1(input: &str) -> (r: Result<u32, ()>)
    requires
        is_plan(input.spec_bytes()),
        sums_fit(
            |x: int, y: int| part_number(picture_of(input.spec_bytes()), x, y),
            picture_of(input.spec_bytes()),
        ),
    ensures
        r == Ok::<u32, ()>(
            rows_sum(
                |x: int, y: int| part_number(picture_of(input.spec_bytes()), x, y),
                picture_of(input.spec_bytes()).width,
                picture_of(input.spec_bytes()).height,
            ) as u32,
        ),
{
    let grid = AsciiGrid::from_ascii(input.as_bytes());
    let ghost p = picture_of(input.spec_bytes());
    let ghost f = |x: int, y: int| part_number(p, x, y);
    let w = grid.width();
    let h = grid.height();
    let mut sum: u32 = 0;
    let mut skip = false;
    let mut y: usize = 0;
    while y < h
        invariant
            grid.wf(),
            p == picture_in(&grid),
            f == |x: int, y: int| part_number(p, x, y),
            sums_fit(f, p),
            w == p.width,
            h == p.height,
            w > 0,
            y <= h,
            skip == follows_digit(p, 0, y as int),
            sum == rows_sum(f, w as nat, y as nat),
        decreases h - y,
    {
        let mut x: usize = 0;
        while x < w
            invariant
                grid.wf(),
                p == picture_in(&grid),
                f == |x: int, y: int| part_number(p, x, y),
                sums_fit(f, p),
                w == p.width,
                h == p.height,
                w > 0,
                y < h,
                x <= w,
                skip == if x < w {
                    follows_digit(p, x as int, y as int)
                } else {
                    follows_digit(p, 0, y + 1)
                },
                sum == rows_sum(f, w as nat, y as nat) + row_sum(f, y as int, x as nat),
            decreases w - x,
        {
            proof {
                grid.lemma_at_inside(x as int, y as int);
                assert(sum_before(f, p.width, (x + 1) as nat, y as nat) <= u32::MAX);
                assert(0 <= f(x as int, y as int) <= u32::MAX);
            }
            let c: u8 = match grid.get(x, y) {
                Some(c) => *c,
                None => 0,
            };
            if !byte_is_digit(c) {
                skip = false;
            } else if !skip {
                let x1 = number_end(&grid, y, x);
                proof {
                    lemma_run(p, x as int, y as int);
                }
                if beside_symbol(&grid, x, x1, y) {
                    let num = read_number(&grid, y, x, x1);
                    sum = sum + num;
                }
                skip = true;
            }
            x += 1;
        }
        y += 1;
    }
    Ok(sum)
}

/// The digits that begin at `(x, y)` are digits, and end in the row.
pub proof fn lemma_run(p: Picture, x: int, y: int)
    requires
        0 <= x <= p.width,
    ensures
        x <= run_end(p, x, y) <= p.width,
        forall|a: int| x <= a < run_end(p, x, y) ==> digit(p, a, y),
        !(run_end(p, x, y) < p.width && digit(p, run_end(p, x, y), y)),
    decreases p.width - x,
{
    if x < p.width && digit(p, x, y) {
        lemma_run(p, x + 1, y);
    }
}


/// A number on the plan: where it begins and what it is worth.
#[derive(Debug, Clone, Copy, PartialEq, Eq, Structural)]
pub struct GridNumber {
    pub x: usize,
    pub y: usize,
    pub n: u32,
}

/// A set of at most two numbers.
#[derive(Debug)]
pub struct PairSet {
    pub first: Option<GridNumber>,
    pub second: Option<GridNumber>,
}

impl PairSet {
    /// What the set holds, in the order in which it was added; the second
    /// place is taken only after the first.
    pub open spec fn view(&self) -> Seq<GridNumber> {
        match (self.first, self.second) {
            (Some(a), Some(b)) => seq![a, b],
            (Some(a), None) => seq![a],
            _ => Seq::empty(),
        }
    }

    /// The second place is taken only after the first.
    pub open spec fn wf(&self) -> bool {
        self.first is None ==> self.second is None
    }

    pub fn new() -> (r: Self)
        ensures
            r.wf(),
            r@ == Seq::<GridNumber>::empty(),
    {
        Self { first: None, second: None }
    }

    pub fn full(&self) -> (r: bool)
        requires
            self.wf(),
        ensures
            r == (self@.len() == 2),
    {
        self.first.is_some() && self.second.is_some()
    }

    /// Adds `elem` unless the set holds it or is full.
    pub fn add(&mut self, elem: GridNumber)
        requires
            old(self).wf(),
        ensures
            final(self).wf(),
            final(self)@ == if old(self)@.contains(elem) || old(self)@.len() == 2 {
                old(self)@
            } else {
                old(self)@.push(elem)
            },
    {
        if self.contains(&elem) {
            return ;
        }
        self.add_unchecked(elem)
    }

    /// Puts `elem` in the first free place, if there is one.
    pub fn add_unchecked(&mut self, elem: GridNumber)
        requires
            old(self).wf(),
        ensures
            final(self).wf(),
            final(self)@ == if old(self)@.len() == 2 {
                old(self)@
            } else {
                old(self)@.push(elem)
            },
    {
        if self.first.is_none() {
            self.first = Some(elem);
            proof {
                assert(self@ =~= old(self)@.push(elem));
            }
        } else if self.second.is_none() {
            self.second = Some(elem);
            proof {
                assert(self@ =~= old(self)@.push(elem));
            }
        }
    }

    pub fn contains(&self, t: &GridNumber) -> (r: bool)
        requires
            self.wf(),
        ensures
            r == self@.contains(*t),
    {
        let in_first = match self.first {
            Some(a) => a == *t,
            None => false,
        };
        let in_second = match self.second {
            Some(b) => b == *t,
            None => false,
        };
        proof {
            if in_first {
                assert(self@[0] == *t);
            }
            if in_second {
                assert(self@[1] == *t);
            }
        }
        in_first || in_second
    }

    pub fn clear(&mut self)
        ensures
            final(self).wf(),
            final(self)@ == Seq::<GridNumber>::empty(),
    {
        self.first = None;
        self.second = None;
    }

    /// The two numbers of a full set.
    pub fn into_pair(self) -> (r: Option<(GridNumber, GridNumber)>)
        requires
            self.wf(),
        ensures
            match r {
                Some(p) => self@ == seq![p.0, p.1],
                None => self@.len() < 2,
            },
    {
        match self.first {
            Some(t1) => match self.second {
                Some(t2) => Some((t1, t2)),
                None => None,
            },
            None => None,
        }
    }
}

/// The number of which the digit at `(x, y)` is a part.
pub open spec fn number_at(p: Picture, x: int, y: int) -> GridNumber {
    GridNumber {
        x: run_start(p, x, y) as usize,
        y: y as usize,
        n: run_value(p, run_start(p, x, y), run_end(p, x, y), y) as u32,
    }
}

/// The digits that end before `(x, y)` are digits, and begin in the row.
pub proof fn lemma_run_start(p: Picture, x: int, y: int)
    requires
        0 <= x,
    ensures
        0 <= run_start(p, x, y) <= x,
        forall|a: int| run_start(p, x, y) <= a < x ==> digit(p, a, y),
        !(run_start(p, x, y) > 0 && digit(p, run_start(p, x, y) - 1, y)),
    decreases x,
{
    if x > 0 && digit(p, x - 1, y) {
        lemma_run_start(p, x - 1, y);
    }
}

/// The digits that begin at `a` end where those end that begin at `b`, if
/// only digits lie between.
pub proof fn lemma_same_end(p: Picture, a: int, b: int, y: int)
    requires
        0 <= a <= b <= p.width,
        forall|c: int| a <= c < b ==> digit(p, c, y),
    ensures
        run_end(p, a, y) == run_end(p, b, y),
    decreases b - a,
{
    if a < b {
        lemma_same_end(p, a + 1, b, y);
    }
}

/// The number of which the digit at `(x, line)` is a part.
pub fn get_grid_num(grid: &AsciiGrid, line: usize, x: usize) -> (r: GridNumber)
    requires
        grid.wf(),
        digit(picture_in(grid), x as int, line as int),
        run_value(
            picture_in(grid),
            run_start(picture_in(grid), x as int, line as int),
            run_end(picture_in(grid), x as int, line as int),
            line as int,
        ) <= u32::MAX,
    ensures
        r == number_at(picture_in(grid), x as int, line as int),
{
    let ghost p = picture_in(grid);
    proof {
        grid.lemma_at_inside(x as int, line as int);
    }
    let mut x0: usize = x;
    let mut go = true;
    while x0 > 0 && go
        invariant
            grid.wf(),
            p == picture_in(grid),
            x0 <= x < grid.spec_width(),
            line < grid.spec_height(),
            run_start(p, x as int, line as int) == run_start(p, x0 as int, line as int),
            !go ==> !digit(p, x0 - 1, line as int),
        decreases x0 + if go { 1int } else { 0int },
    {
        proof {
            grid.lemma_at_inside(x0 - 1, line as int);
        }
        let is_digit = match grid.get(x0 - 1, line) {
            Some(c) => byte_is_digit(*c),
            None => false,
        };
        if is_digit {
            x0 -= 1;
        } else {
            go = false;
        }
    }
    let x1 = number_end(grid, line, x);
    proof {
        lemma_run_start(p, x as int, line as int);
        lemma_run(p, x as int, line as int);
        lemma_run(p, x0 as int, line as int);
        lemma_same_end(p, x0 as int, x as int, line as int);
    }
    let n = read_number(grid, line, x0, x1);
    GridNumber { x: x0, y: line, n }
}

/// What the set holds after the cells round `(x, y)` have been looked at
/// from the one with the number `k` on, row by row: each digit adds the
/// number of which it is a part; `None` once a third number is met.
pub open spec fn gathered(p: Picture, x: int, y: int, k: int, pair: Seq<GridNumber>) -> Option<
    Seq<GridNumber>,
>
    decreases 9 - k,
{
    if k >= 9 || k < 0 {
        Some(pair)
    } else if !digit(p, x + k % 3 - 1, y + k / 3 - 1) {
        gathered(p, x, y, k + 1, pair)
    } else {
        let g = number_at(p, x + k % 3 - 1, y + k / 3 - 1);
        if pair.contains(g) {
            gathered(p, x, y, k + 1, pair)
        } else if pair.len() >= 2 {
            None
        } else {
            gathered(p, x, y, k + 1, pair.push(g))
        }
    }
}

/// The product of the two numbers beside the star at `(x, y)`; zero where
/// no star stands there or the numbers beside it are not two.
pub open spec fn gear_ratio(p: Picture, x: int, y: int) -> int {
    if (p.cell)(x, y) == Some(42u8) {
        match gathered(p, x, y, 0, Seq::empty()) {
            Some(pair) => if pair.len() == 2 {
                pair[0].n * pair[1].n
            } else {
                0
            },
            None => 0,
        }
    } else {
        0
    }
}

/// Whether every number beside a star fits in 32 bits.
pub open spec fn numbers_fit(p: Picture) -> bool {
    forall|x: int, y: int, k: int|
        0 <= k < 9 && (p.cell)(x, y) == Some(42u8) && #[trigger] digit(
            p,
            x + k % 3 - 1,
            y + k / 3 - 1,
        ) ==> run_value(
            p,
            run_start(p, x + k % 3 - 1, y + k / 3 - 1),
            run_end(p, x + k % 3 - 1, y + k / 3 - 1),
            y + k / 3 - 1,
        ) <= u32::MAX
}

fn gear_at(grid: &AsciiGrid, x: usize, y: usize) -> (r: u32)
    requires
        grid.wf(),
        x < grid.spec_width(),
        y < grid.spec_height(),
        numbers_fit(picture_in(grid)),
        0 <= gear_ratio(picture_in(grid), x as int, y as int) <= u32::MAX,
    ensures
        r == gear_ratio(picture_in(grid), x as int, y as int),
{
    let ghost p = picture_in(grid);
    proof {
        grid.lemma_at_inside(x as int, y as int);
    }
    let c: u8 = match grid.get(x, y) {
        Some(c) => *c,
        None => 0,
    };
    if c != 42 {
        return 0;
    }
    let mut pair = PairSet::new();
    let mut k: usize = 0;
    let mut broken = false;
    while k < 9 && !broken
        invariant
            grid.wf(),
            p == picture_in(grid),
            x < grid.spec_width(),
            y < grid.spec_height(),
            (p.cell)(x as int, y as int) == Some(42u8),
            numbers_fit(p),
            k <= 9,
            pair.wf(),
            broken ==> gathered(p, x as int, y as int, 0, Seq::empty()) is None && pair@.len()
                == 0,
            !broken ==> gathered(p, x as int, y as int, 0, Seq::empty()) == gathered(
                p,
                x as int,
                y as int,
                k as int,
                pair@,
            ),
        decreases 9 - k + if broken { 0int } else { 1int },
    {
        let dx: usize = k % 3;
        let dy: usize = k / 3;
        proof {
            grid.lemma_at_inside(x + dx - 1, y + dy - 1);
            grid.lemma_at_inside(0, 0);
        }
        if (x == 0 && dx == 0) || (y == 0 && dy == 0) {
            k += 1;
        } else {
            let xs: usize = if dx == 0 {
                x - 1
            } else {
                x + (dx - 1)
            };
            let ys: usize = if dy == 0 {
                y - 1
            } else {
                y + (dy - 1)
            };
            let is_digit = match grid.get(xs, ys) {
                Some(b) => byte_is_digit(*b),
                None => false,
            };
            if !is_digit {
                k += 1;
            } else {
                assert(digit(p, x + k % 3 - 1, y + k / 3 - 1));
                let grid_num = get_grid_num(grid, ys, xs);
                if !pair.contains(&grid_num) && pair.full() {
                    pair.clear();
                    broken = true;
                } else {
                    pair.add(grid_num);
                    k += 1;
                }
            }
        }
    }
    match pair.into_pair() {
        Some(two) => two.0.n * two.1.n,
        None => 0,
    }
}

/// The sum of the products of the two numbers beside each star that has
/// two.
pub fn day3_2(input: &str) -> (r: Result<u32, ()>)
    requires
        is_plan(input.spec_bytes()),
        numbers_fit(picture_of(input.spec_bytes())),
        sums_fit(
            |x: int, y: int| gear_ratio(picture_of(input.spec_bytes()), x, y),
            picture_of(input.spec_bytes()),
        ),
    ensures
        r == Ok::<u32, ()>(
            rows_sum(
                |x: int, y: int| gear_ratio(picture_of(input.spec_bytes()), x, y),
                picture_of(input.spec_bytes()).width,
                picture_of(input.spec_bytes()).height,
            ) as u32,
        ),
{
    let grid = AsciiGrid::from_ascii(input.as_bytes());
    let ghost p = picture_of(input.spec_bytes());
    let ghost f = |x: int, y: int| gear_ratio(p, x, y);
    let w = grid.width();
    let h = grid.height();
    let mut sum: u32 = 0;
    let mut y: usize = 0;
    while y < h
        invariant
            grid.wf(),
            p == picture_in(&grid),
            f == |x: int, y: int| gear_ratio(p, x, y),
            sums_fit(f, p),
            numbers_fit(p),
            w == p.width,
            h == p.height,
            y <= h,
            sum == rows_sum(f, w as nat, y as nat),
        decreases h - y,
    {
        let mut x: usize = 0;
        while x < w
            invariant
                grid.wf(),
                p == picture_in(&grid),
                f == |x: int, y: int| gear_ratio(p, x, y),
                sums_fit(f, p),
                numbers_fit(p),
                w == p.width,
                h == p.height,
                y < h,
                x <= w,
                sum == rows_sum(f, w as nat, y as nat) + row_sum(f, y as int, x as nat),
            decreases w - x,
        {
            proof {
                assert(sum_before(f, p.width, (x + 1) as nat, y as nat) <= u32::MAX);
                assert(0 <= f(x as int, y as int) <= u32::MAX);
            }
            let ratio = gear_at(&grid, x, y);
            sum = sum + ratio;
            x += 1;
        }
        y += 1;
    }
    Ok(sum)
}

} // verus!
