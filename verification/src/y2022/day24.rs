//! A valley full of blizzards, and the quickest way through it.

use crate::arith::{lcm, lcm_u64, lemma_lcm_bound, lemma_lcm_multiple};
use crate::text::{flat, is_rect, lines, lines_of, rect_cells};
use crate::y2022::grid::{filled, lemma_cell_of_index, lemma_index_in_bounds, Grid};
use vstd::prelude::*;
use vstd::string::*;

verus! {

pub type Coord = (usize, usize);

/// The blizzards in one cell: at most one for each direction.
#[derive(Debug, PartialEq, Eq, Clone, Copy, Hash, Structural)]
pub struct Blizzard {
    pub up: bool,
    pub down: bool,
    pub left: bool,
    pub right: bool,
}

/// The blizzards that a character of the map stands for.
pub open spec fn blizzard_of(c: char) -> Blizzard {
    Blizzard { up: c == '^', down: c == 'v', left: c == '<', right: c == '>' }
}

impl Blizzard {
    /// The blizzards that one of the characters `^`, `v`, `<`, `>`, `.`
    /// stands for.
    pub fn from_char(c: char) -> (r: Self)
        requires
            c == '^' || c == 'v' || c == '<' || c == '>' || c == '.',
        ensures
            r == blizzard_of(c),
    {
        Self { up: c == '^', down: c == 'v', left: c == '<', right: c == '>' }
    }

    /// No blizzard.
    pub fn empty() -> (r: Self)
        ensures
            r == (Blizzard { up: false, down: false, left: false, right: false }),
            r == blizzard_of('.'),
    {
        Self { up: false, down: false, left: false, right: false }
    }
}

#[derive(Debug, PartialEq, Eq, Clone, Copy, Hash, Structural)]
pub enum Tile {
    Bliz(Blizzard),
    Wall,
}

/// A way through the valley as far as it has been walked.
#[derive(Debug, Clone, Copy)]
pub struct ValleyPath {
    pub coord: Coord,
    pub walked: usize,
    pub state_index: usize,
    pub cost: i64,
}

impl ValleyPath {
    /// Whether the cost can be computed in 64 bits.
    pub open spec fn fits(coord: Coord, walked: usize) -> bool {
        &&& coord.0 <= i64::MAX
        &&& coord.1 <= i64::MAX
        &&& walked <= i64::MAX
        &&& walked - coord.0 - coord.1 >= i64::MIN
    }

    /// A way of `walked` steps that ends at `coord`; its cost is the
    /// number of steps less the two coordinates.
    pub fn new(coord: Coord, walked: usize, state_index: usize) -> (r: Self)
        requires
            Self::fits(coord, walked),
        ensures
            r.coord == coord,
            r.walked == walked,
            r.state_index == state_index,
            r.cost == walked - coord.0 - coord.1,
    {
        Self { coord, walked, state_index, cost: walked as i64 - coord.0 as i64 - coord.1 as i64 }
    }

    /// What a search has to remember of the way: where it ends and in
    /// which state of the valley.
    pub fn state_hash(&self) -> (r: ((usize, usize), usize))
        ensures
            r == (self.coord, self.state_index),
    {
        (self.coord, self.state_index)
    }
}


/// A valley at one minute, as a value of mathematics: its sides, its
/// tiles row by row, and the two gaps in its walls.
pub struct Weather {
    pub width: int,
    pub height: int,
    pub cells: Seq<Tile>,
    pub start: (int, int),
    pub end: (int, int),
}

impl Weather {
    /// The tile at `(x, y)`.
    pub open spec fn tile(self, x: int, y: int) -> Tile {
        self.cells[y * self.width + x]
    }

    /// Whether `(x, y)` lies inside the walls.
    pub open spec fn inner(self, x: int, y: int) -> bool {
        1 <= x < self.width - 1 && 1 <= y < self.height - 1
    }

    /// The column from which a blizzard comes into column `x`: from the
    /// far side where `x` is a wall.
    pub open spec fn wrap_x(self, x: int) -> int {
        if x == 0 {
            self.width - 2
        } else if x == self.width - 1 {
            1
        } else {
            x
        }
    }

    /// The row from which a blizzard comes into row `y`.
    pub open spec fn wrap_y(self, y: int) -> int {
        if y == 0 {
            self.height - 2
        } else if y == self.height - 1 {
            1
        } else {
            y
        }
    }

    /// The blizzards that the tile at `(x, y)`, taken round the walls,
    /// holds.
    pub open spec fn coming_from(self, x: int, y: int) -> Blizzard {
        match self.tile(self.wrap_x(x), self.wrap_y(y)) {
            Tile::Bliz(b) => b,
            Tile::Wall => Blizzard { up: false, down: false, left: false, right: false },
        }
    }

    /// The tile at `(x, y)` a minute later: every blizzard has moved one
    /// step, round the walls where it met one; the two gaps are free.
    pub open spec fn next_tile(self, x: int, y: int) -> Tile {
        if (x, y) == self.end || (x, y) == self.start {
            Tile::Bliz(Blizzard { up: false, down: false, left: false, right: false })
        } else if self.inner(x, y) && self.tile(x, y) != Tile::Wall {
            Tile::Bliz(
                Blizzard {
                    up: self.coming_from(x, y + 1).up,
                    down: self.coming_from(x, y - 1).down,
                    left: self.coming_from(x + 1, y).left,
                    right: self.coming_from(x - 1, y).right,
                },
            )
        } else {
            Tile::Wall
        }
    }

    /// The valley a minute later.
    pub open spec fn next(self) -> Weather {
        Weather {
            width: self.width,
            height: self.height,
            cells: Seq::new(
                self.cells.len(),
                |i: int| self.next_tile(i % self.width, i / self.width),
            ),
            start: self.start,
            end: self.end,
        }
    }

    /// The valley `n` minutes later.
    pub open spec fn after(self, n: nat) -> Weather
        decreases n,
    {
        if n == 0 {
            self
        } else {
            self.after((n - 1) as nat).next()
        }
    }

    /// The sides and the gaps of the valley do not change.
    pub proof fn lemma_after(self, n: nat)
        ensures
            self.after(n).width == self.width,
            self.after(n).height == self.height,
            self.after(n).cells.len() == self.cells.len(),
            self.after(n).start == self.start,
            self.after(n).end == self.end,
        decreases n,
    {
        if n > 0 {
            self.lemma_after((n - 1) as nat);
        }
    }
}

/// A valley at one minute.
#[derive(Debug)]
pub struct State {
    pub start: Coord,
    pub end: Coord,
    pub grid: Grid<Tile>,
}

impl State {
    /// The grid has cells, and the gaps lie on it.
    pub open spec fn wf(&self) -> bool {
        &&& self.grid.wf()
        &&& self.grid.width >= 1
        &&& self.grid.height >= 1
        &&& self.grid.inside(self.start.0 as int, self.start.1 as int)
        &&& self.grid.inside(self.end.0 as int, self.end.1 as int)
    }

    /// The state as a value of mathematics.
    pub open spec fn view(&self) -> Weather {
        Weather {
            width: self.grid.width as int,
            height: self.grid.height as int,
            cells: self.grid.grid_raw@,
            start: (self.start.0 as int, self.start.1 as int),
            end: (self.end.0 as int, self.end.1 as int),
        }
    }

    fn wrapped(&self, x: usize, y: usize) -> (r: (usize, usize))
        requires
            self.wf(),
            self.grid.width >= 3,
            self.grid.height >= 3,
            x < self.grid.width,
            y < self.grid.height,
        ensures
            r.0 == self@.wrap_x(x as int),
            r.1 == self@.wrap_y(y as int),
            self.grid.inside(r.0 as int, r.1 as int),
    {
        let ox = if x == 0 {
            self.grid.width - 2
        } else if x == self.grid.width - 1 {
            1
        } else {
            x
        };
        let oy = if y == 0 {
            self.grid.height - 2
        } else if y == self.grid.height - 1 {
            1
        } else {
            y
        };
        (ox, oy)
    }

    fn blizzards_from(&self, x: usize, y: usize) -> (r: Blizzard)
        requires
            self.wf(),
            self.grid.width >= 3,
            self.grid.height >= 3,
            x < self.grid.width,
            y < self.grid.height,
        ensures
            r == self@.coming_from(x as int, y as int),
    {
        let (ox, oy) = self.wrapped(x, y);
        match self.grid.get_unchecked(ox, oy) {
            Tile::Bliz(ob) => *ob,
            Tile::Wall => Blizzard::empty(),
        }
    }

    /// The valley a minute later.
    pub fn next_state(&self) -> (r: Self)
        requires
            self.wf(),
        ensures
            r.wf(),
            r@ == self@.next(),
    {
        let w = self.grid.width;
        let h = self.grid.height;
        let mut new_grid = Grid::from_vec(w, h, filled(self.grid.grid_raw.len(), Tile::Wall));
        proof {
            assert forall|a: int, b: int| new_grid.inside(a, b) implies #[trigger] new_grid.cell(
                a,
                b,
            ) == Tile::Wall by {
                lemma_index_in_bounds(a, b, w as int, h as int);
            }
        }
        let mut y: usize = 1;
        let y_end: usize = h - 1;
        let x_end: usize = w - 1;
        while y < y_end
            invariant
                y_end == h - 1,
                x_end == w - 1,
                self.wf(),
                new_grid.wf(),
                new_grid.width == w,
                new_grid.height == h,
                w == self.grid.width,
                h == self.grid.height,
                1 <= y <= h,
                forall|a: int, b: int|
                    new_grid.inside(a, b) ==> #[trigger] new_grid.cell(a, b) == if b < y
                        && self@.inner(a, b) && self@.tile(a, b) != Tile::Wall {
                        self@.next_tile_inside(a, b)
                    } else {
                        Tile::Wall
                    },
            decreases h - y,
        {
            let mut x: usize = 1;
            while x < x_end
                invariant
                    y_end == h - 1,
                    x_end == w - 1,
                    self.wf(),
                    new_grid.wf(),
                    new_grid.width == w,
                    new_grid.height == h,
                    w == self.grid.width,
                    h == self.grid.height,
                    1 <= y,
                    y < y_end,
                    1 <= x <= w,
                    forall|a: int, b: int|
                        new_grid.inside(a, b) ==> #[trigger] new_grid.cell(a, b) == if (b < y || (b
                            == y && a < x)) && self@.inner(a, b) && self@.tile(a, b) != Tile::Wall {
                            self@.next_tile_inside(a, b)
                        } else {
                            Tile::Wall
                        },
                decreases w - x,
            {
                match self.grid.get_unchecked(x, y) {
                    Tile::Wall => (),
                    Tile::Bliz(_) => {
                        let b = Blizzard {
                            up: self.blizzards_from(x, y + 1).up,
                            down: self.blizzards_from(x, y - 1).down,
                            left: self.blizzards_from(x + 1, y).left,
                            right: self.blizzards_from(x - 1, y).right,
                        };
                        new_grid.set(x, y, Tile::Bliz(b));
                    },
                }
                x += 1;
            }
            y += 1;
        }
        new_grid.set(self.start.0, self.start.1, Tile::Bliz(Blizzard::empty()));
        new_grid.set(self.end.0, self.end.1, Tile::Bliz(Blizzard::empty()));
        let r = State { start: self.start, end: self.end, grid: new_grid };
        proof {
            let want = self@.next();
            assert forall|i: int| 0 <= i < r.grid.grid_raw@.len() implies r.grid.grid_raw@[i]
                == want.cells[i] by {
                lemma_cell_of_index(&r.grid, i);
            }
            assert(r.grid.grid_raw@ =~= want.cells);
        }
        r
    }
}

impl Weather {
    /// The tile at an inner place without wall a minute later, the gaps
    /// not counted.
    pub open spec fn next_tile_inside(self, x: int, y: int) -> Tile {
        Tile::Bliz(
            Blizzard {
                up: self.coming_from(x, y + 1).up,
                down: self.coming_from(x, y - 1).down,
                left: self.coming_from(x + 1, y).left,
                right: self.coming_from(x - 1, y).right,
            },
        )
    }
}


/// The valley with the states of its weather that have been worked out:
/// the state at minute `i` stands at place `i`.
#[derive(Debug)]
pub struct Valley {
    pub start: Coord,
    pub end: Coord,
    pub repetition_num: usize,
    pub states: Vec<State>,
}

/// The tile that a byte of the map stands for.
pub open spec fn tile_of(b: u8) -> Tile {
    if b == 35 {
        Tile::Wall
    } else {
        Tile::Bliz(blizzard_of(b as char))
    }
}

/// Whether `b` is a byte that a map may hold.
pub open spec fn is_map_byte(b: u8) -> bool {
    b == 35 || b == 94 || b == 118 || b == 60 || b == 62 || b == 46
}

/// Whether the text is the map of a valley: a rectangle of at least two
/// rows and two columns that ends with a line feed and holds walls,
/// blizzards and free ground only.
pub open spec fn is_valley_map(s: Seq<u8>) -> bool {
    let ls = lines_of(s);
    &&& s.len() > 0
    &&& s.last() == 10
    &&& forall|i: int| 0 <= i < s.len() ==> #[trigger] s[i] != 13
    &&& is_rect(ls)
    &&& ls.len() >= 2
    &&& ls[0].len() >= 2
    &&& forall|i: int| 0 <= i < flat(ls).len() ==> is_map_byte(#[trigger] flat(ls)[i])
}

/// The valley that the map shows at the time 0: the gaps are the second
/// tile of the first row and the last but one of the last row.
pub open spec fn weather_of(s: Seq<u8>) -> Weather {
    let ls = lines_of(s);
    Weather {
        width: ls[0].len() as int,
        height: ls.len() as int,
        cells: flat(ls).map_values(|b: u8| tile_of(b)),
        start: (1, 0),
        end: (ls[0].len() - 2, ls.len() - 1),
    }
}

impl Valley {
    /// The states worked out are those of the minutes from 0 on, and the
    /// gaps are theirs.
    pub open spec fn wf(&self) -> bool {
        &&& self.states@.len() >= 1
        &&& self.states@[0].wf()
        &&& self.states@[0].grid.width >= 2
        &&& self.states@[0].grid.height >= 2
        &&& self.start == self.states@[0].start
        &&& self.end == self.states@[0].end
        &&& self.end.1 >= 1
        &&& self.start.1 + 1 < self.states@[0].grid.height
        &&& forall|i: int|
            0 <= i < self.states@.len() ==> (#[trigger] self.states@[i]).wf() && self.states@[i]@
                == self.states@[0]@.after(i as nat)
    }

    /// The valley at the time 0, as a value of mathematics.
    pub open spec fn weather(&self) -> Weather {
        self.states@[0]@
    }

    /// The valley that the map shows, at the time 0, with the number of
    /// minutes after which its weather repeats: the least common multiple
    /// of the sides of the ground inside the walls. That the weather of a
    /// valley without walls on its ground repeats then is
    /// `lemma_weather_repeats`.
    pub fn from_input(input: &str) -> (r: Self)
        requires
            is_valley_map(input.spec_bytes()),
        ensures
            r.wf(),
            r.states@.len() == 1,
            r.weather() == weather_of(input.spec_bytes()),
            r.repetition_num == lcm(
                (r.weather().width - 2) as nat,
                (r.weather().height - 2) as nat,
            ),
    {
        let ls = lines(input.as_bytes());
        let ghost lv = lines_of(input.spec_bytes());
        let width = ls[0].len();
        let height = ls.len();
        assert(ls@[0]@ == lv[0]);
        let bytes = rect_cells(&ls);
        let mut grid_raw: Vec<Tile> = Vec::new();
        let mut i: usize = 0;
        while i < bytes.len()
            invariant
                i <= bytes.len(),
                bytes@ == flat(lv),
                forall|k: int| 0 <= k < bytes@.len() ==> is_map_byte(#[trigger] bytes@[k]),
                grid_raw@ == bytes@.subrange(0, i as int).map_values(|b: u8| tile_of(b)),
            decreases bytes.len() - i,
        {
            let b = bytes[i];
            let t = if b == 35 {
                Tile::Wall
            } else {
                Tile::Bliz(Blizzard::from_char(b as char))
            };
            grid_raw.push(t);
            i += 1;
            proof {
                assert(grid_raw@ =~= bytes@.subrange(0, i as int).map_values(|b: u8| tile_of(b)));
            }
        }
        proof {
            assert(bytes@.subrange(0, i as int) =~= bytes@);
            assert(width * height == height * width) by (nonlinear_arith);
            assert(0 <= (width - 2) * (height - 2) <= height * width) by (nonlinear_arith)
                requires
                    width >= 2,
                    height >= 2,
            ;
        }
        let grid = Grid::from_vec(width, height, grid_raw);
        let start = (1usize, 0usize);
        proof {
            lemma_lcm_bound((width - 2) as nat, (height - 2) as nat);
        }
        let repetition_num = lcm_u64((grid.width - 2) as u64, (grid.height - 2) as u64) as usize;
        let end = (width - 2, height - 1);
        let mut states: Vec<State> = Vec::new();
        states.push(State { start, end, grid });
        Self { start, end, repetition_num, states }
    }

    /// Works out the states up to the minute `state_index`.
    pub fn get_state(&mut self, state_index: usize)
        requires
            old(self).wf(),
        ensures
            final(self).wf(),
            final(self).weather() == old(self).weather(),
            final(self).start == old(self).start,
            final(self).end == old(self).end,
            final(self).repetition_num == old(self).repetition_num,
            final(self).states@.len() > state_index,
    {
        while state_index >= self.states.len()
            invariant
                self.wf(),
                self.weather() == old(self).weather(),
                self.start == old(self).start,
                self.end == old(self).end,
                self.repetition_num == old(self).repetition_num,
            decreases state_index + 1 - self.states.len(),
        {
            let ghost before = self.states@;
            let next = self.states[self.states.len() - 1].next_state();
            self.states.push(next);
            proof {
                assert forall|i: int| 0 <= i < self.states@.len() implies (
                #[trigger] self.states@[i]).wf() && self.states@[i]@ == self.states@[0]@.after(
                    i as nat,
                ) by {
                    if i < before.len() {
                        assert(self.states@[i] == before[i]);
                    }
                }
            }
        }
    }

    /// The five places where one can be a minute after being at `c`: the
    /// place itself, then the ones to the left, above, below and to the
    /// right.
    pub fn possible_next_coord(c: Coord) -> (r: [Coord; 5])
        requires
            1 <= c.0 < usize::MAX,
            1 <= c.1 < usize::MAX,
        ensures
            r@ == around(c),
    {
        let (x, y) = c;
        let r = [(x, y), (x - 1, y), (x, y - 1), (x, y + 1), (x + 1, y)];
        proof {
            assert(r@ =~= around(c));
        }
        r
    }
}

/// The five places where one can be a minute after being at `c`.
pub open spec fn around(c: Coord) -> Seq<Coord> {
    seq![
        c,
        ((c.0 - 1) as usize, c.1),
        (c.0, (c.1 - 1) as usize),
        (c.0, (c.1 + 1) as usize),
        ((c.0 + 1) as usize, c.1),
    ]
}

/// Whether no blizzard is at `c` in the valley `w`, and no wall.
pub open spec fn is_free(w: Weather, c: Coord) -> bool {
    w.tile(c.0 as int, c.1 as int) == Tile::Bliz(
        Blizzard { up: false, down: false, left: false, right: false },
    )
}

/// The first `k` of the places round `c` that are free in the valley `w`.
pub open spec fn free_around(w: Weather, c: Coord, k: nat) -> Seq<Coord>
    decreases k,
{
    if k == 0 {
        Seq::empty()
    } else if is_free(w, around(c)[k - 1]) {
        free_around(w, c, (k - 1) as nat).push(around(c)[k - 1])
    } else {
        free_around(w, c, (k - 1) as nat)
    }
}

/// Where one can be in the valley `next`, a minute after being at `c`. In
/// a gap one can wait, or step into the valley if the tile before the gap
/// is free; elsewhere one can wait or step to a free tile beside.
pub open spec fn next_places(next: Weather, c: Coord) -> Seq<Coord> {
    let start = (next.start.0 as usize, next.start.1 as usize);
    let end = (next.end.0 as usize, next.end.1 as usize);
    if c == start {
        let after_start = (start.0, (start.1 + 1) as usize);
        if is_free(next, after_start) {
            seq![start, after_start]
        } else {
            seq![start]
        }
    } else if c == end {
        let after_end = (end.0, (end.1 - 1) as usize);
        if is_free(next, after_end) {
            seq![end, after_end]
        } else {
            seq![end]
        }
    } else {
        free_around(next, c, 5)
    }
}

/// Whether `c` is a place where one can be: a gap, or a tile inside the
/// walls.
pub open spec fn is_place(w: Weather, c: Coord) -> bool {
    (c.0 as int, c.1 as int) == w.start || (c.0 as int, c.1 as int) == w.end || w.inner(
        c.0 as int,
        c.1 as int,
    )
}

impl Valley {
    /// Where the way `path` can go on.
    pub fn get_next_coords(&mut self, path: &ValleyPath) -> (r: Vec<Coord>)
        requires
            old(self).wf(),
            path.state_index < usize::MAX,
            is_place(old(self).weather(), path.coord),
        ensures
            final(self).wf(),
            final(self).weather() == old(self).weather(),
            final(self).start == old(self).start,
            final(self).end == old(self).end,
            final(self).repetition_num == old(self).repetition_num,
            r@ == next_places(
                old(self).weather().after((path.state_index + 1) as nat),
                path.coord,
            ),
    {
        self.get_state(path.state_index + 1);
        let next_state = &self.states[path.state_index + 1];
        let ghost next = self.weather().after((path.state_index + 1) as nat);
        proof {
            self.weather().lemma_after((path.state_index + 1) as nat);
            assert(next_state@ == next);
        }
        let free = Tile::Bliz(Blizzard::empty());
        let after_start = (self.start.0, self.start.1 + 1);
        if path.coord.0 == self.start.0 && path.coord.1 == self.start.1 {
            if *next_state.grid.get_unchecked(after_start.0, after_start.1) == free {
                return vec![self.start, after_start];
            } else {
                return vec![self.start];
            }
        }
        let after_end = (self.end.0, self.end.1 - 1);
        if path.coord.0 == self.end.0 && path.coord.1 == self.end.1 {
            if *next_state.grid.get_unchecked(after_end.0, after_end.1) == free {
                return vec![self.end, after_end];
            } else {
                return vec![self.end];
            }
        }
        let mut nexts: Vec<Coord> = Vec::new();
        let candidates = Self::possible_next_coord(path.coord);
        let mut k: usize = 0;
        while k < 5
            invariant
                k <= 5,
                next_state.wf(),
                next_state@ == next,
                candidates@ == around(path.coord),
                next.inner(path.coord.0 as int, path.coord.1 as int),
                nexts@ == free_around(next, path.coord, k as nat),
            decreases 5 - k,
        {
            let c = candidates[k];
            match next_state.grid.get_unchecked(c.0, c.1) {
                Tile::Wall => (),
                Tile::Bliz(b) => {
                    if *b == Blizzard::empty() {
                        nexts.push(c);
                    }
                },
            }
            k += 1;
        }
        nexts
    }
}


/// More ways than a search looks at: a way is gone on from at most once
/// for each place in each state, at most five ways wait in its stead,
/// and each way that waits is looked at once.
pub open spec fn search_bound(w0: Weather, period: usize) -> nat {
    (6 * (w0.width * w0.height * period) + 1) as nat
}

/// How many of the first `n` cells note nothing.
pub open spec fn blank_cells(cells: Seq<bool>, n: nat) -> nat
    decreases n,
{
    if n == 0 {
        0
    } else {
        blank_cells(cells, (n - 1) as nat) + if cells[n - 1] {
            0nat
        } else {
            1nat
        }
    }
}

/// How many cells of the first `k` grids note nothing.
pub open spec fn blank_in(visited: Seq<Grid<bool>>, k: nat) -> nat
    decreases k,
{
    if k == 0 {
        0
    } else {
        blank_in(visited, (k - 1) as nat) + blank_cells(
            visited[k - 1].grid_raw@,
            visited[k - 1].grid_raw@.len(),
        )
    }
}

/// Cells that all note nothing are all blank.
pub proof fn lemma_blank_all(cells: Seq<bool>, n: nat)
    requires
        n <= cells.len(),
        forall|i: int| 0 <= i < cells.len() ==> !#[trigger] cells[i],
    ensures
        blank_cells(cells, n) == n,
    decreases n,
{
    if n > 0 {
        lemma_blank_all(cells, (n - 1) as nat);
    }
}

/// A note in a blank cell leaves one blank cell less.
pub proof fn lemma_blank_noted(cells: Seq<bool>, i: int, n: nat)
    requires
        0 <= i < cells.len(),
        n <= cells.len(),
        !cells[i],
    ensures
        blank_cells(cells, n) == blank_cells(cells.update(i, true), n) + if i < n {
            1nat
        } else {
            0nat
        },
    decreases n,
{
    if n > 0 {
        lemma_blank_noted(cells, i, (n - 1) as nat);
    }
}

/// The blank cells of the first grids do not depend on the grids behind
/// them.
pub proof fn lemma_blank_front(a: Seq<Grid<bool>>, b: Seq<Grid<bool>>, k: nat)
    requires
        k <= a.len(),
        k <= b.len(),
        forall|j: int| 0 <= j < k ==> a[j] == b[j],
    ensures
        blank_in(a, k) == blank_in(b, k),
    decreases k,
{
    if k > 0 {
        lemma_blank_front(a, b, (k - 1) as nat);
    }
}

/// A note in a blank cell of one grid leaves one blank cell less among
/// the grids.
pub proof fn lemma_blank_one_less(a: Seq<Grid<bool>>, b: Seq<Grid<bool>>, s: int, i: int, k: nat)
    requires
        a.len() == b.len(),
        k <= a.len(),
        0 <= s < a.len(),
        forall|j: int| 0 <= j < a.len() && j != s ==> a[j] == b[j],
        0 <= i < a[s].grid_raw@.len(),
        !a[s].grid_raw@[i],
        b[s].grid_raw@ == a[s].grid_raw@.update(i, true),
    ensures
        blank_in(a, k) == blank_in(b, k) + if s < k {
            1nat
        } else {
            0nat
        },
    decreases k,
{
    if k > 0 {
        lemma_blank_one_less(a, b, s, i, (k - 1) as nat);
        if s == k - 1 {
            lemma_blank_noted(a[s].grid_raw@, i, a[s].grid_raw@.len());
        }
    }
}

/// At most five places round a place are free.
pub proof fn lemma_free_around_len(w: Weather, c: Coord, k: nat)
    ensures
        free_around(w, c, k).len() <= k,
    decreases k,
{
    if k > 0 {
        lemma_free_around_len(w, c, (k - 1) as nat);
    }
}

/// The way of `walked` steps that ends at `c` in the state `idx`.
pub open spec fn way(c: Coord, walked: usize, idx: usize) -> ValleyPath {
    ValleyPath { coord: c, walked, state_index: idx, cost: (walked - c.0 - c.1) as i64 }
}

/// What a search looks at first: the steps walked less the two
/// coordinates on the way to the end, which lies far from the origin, and
/// plus the two coordinates on the way to the start.
pub open spec fn rank(p: ValleyPath, toward_end: bool) -> int {
    if toward_end {
        p.cost as int
    } else {
        p.walked + p.coord.0 + p.coord.1
    }
}

/// The place in `q` of the first way of least rank among the first `k`.
pub open spec fn first_least(q: Seq<ValleyPath>, toward_end: bool, k: nat) -> int
    decreases k,
{
    if k <= 1 {
        0
    } else {
        let b = first_least(q, toward_end, (k - 1) as nat);
        if rank(q[k - 1], toward_end) < rank(q[b], toward_end) {
            k - 1
        } else {
            b
        }
    }
}

pub proof fn lemma_first_least(q: Seq<ValleyPath>, toward_end: bool, k: nat)
    requires
        1 <= k <= q.len(),
    ensures
        0 <= first_least(q, toward_end, k) < k,
    decreases k,
{
    if k > 1 {
        lemma_first_least(q, toward_end, (k - 1) as nat);
    }
}

/// The ways of `walked` steps that end at the places `places`.
pub open spec fn ways(places: Seq<Coord>, walked: usize, idx: usize) -> Seq<ValleyPath> {
    Seq::new(places.len(), |i: int| way(places[i], walked, idx))
}

/// The way that a search finds: it takes the first way of least rank from
/// those that wait, and, unless a way to the same place in the same state
/// has been gone on from before, goes on from it; if that leads to `end`,
/// the search is over, else the ways one step longer wait with the others.
/// `None` when no way waits any more, or after `fuel` ways; with
/// `search_bound` ways a search does not run out of them.
pub open spec fn search(
    w0: Weather,
    period: usize,
    q: Seq<ValleyPath>,
    seen: Set<(Coord, usize)>,
    end: Coord,
    toward_end: bool,
    fuel: nat,
) -> Option<ValleyPath>
    decreases fuel,
{
    if fuel == 0 || q.len() == 0 {
        None
    } else {
        let i = first_least(q, toward_end, q.len());
        let best = q[i];
        let rest = q.remove(i);
        if seen.contains((best.coord, best.state_index)) {
            search(w0, period, rest, seen, end, toward_end, (fuel - 1) as nat)
        } else {
            let places = next_places(w0.after((best.state_index + 1) as nat), best.coord);
            let idx = ((best.state_index + 1) % (period as int)) as usize;
            if places.contains(end) {
                Some(way(end, (best.walked + 1) as usize, idx))
            } else {
                search(
                    w0,
                    period,
                    rest + ways(places, (best.walked + 1) as usize, idx),
                    seen.insert((best.coord, best.state_index)),
                    end,
                    toward_end,
                    (fuel - 1) as nat,
                )
            }
        }
    }
}

/// Whether the valley is small enough for a search from a way of `walked`
/// steps to count its steps: the ways that it can look at, and the steps
/// of the longest of them, can be counted in the machine's numbers.
pub open spec fn can_search(w0: Weather, period: usize, walked: usize) -> bool {
    &&& period >= 1
    &&& w0.width >= 2
    &&& w0.height >= 2
    &&& w0.width <= usize::MAX
    &&& w0.height <= usize::MAX
    &&& w0.width + w0.height <= i64::MAX
    &&& walked + search_bound(w0, period) <= usize::MAX
    &&& walked + search_bound(w0, period) <= i64::MAX
    &&& w0.cells.len() == w0.width * w0.height
    &&& 0 <= w0.start.0 < w0.width
    &&& 0 <= w0.start.1 < w0.height
    &&& 0 <= w0.end.0 < w0.width
    &&& 0 <= w0.end.1 < w0.height
}

/// A free tile of a valley after the time 0 is a gap or lies inside the
/// walls.
pub proof fn lemma_free_is_place(w0: Weather, t: nat, c: Coord)
    requires
        t >= 1,
        0 <= c.0 < w0.width,
        0 <= c.1 < w0.height,
        w0.cells.len() == w0.width * w0.height,
        is_free(w0.after(t), c),
    ensures
        is_place(w0, c),
{
    let before = w0.after((t - 1) as nat);
    w0.lemma_after((t - 1) as nat);
    let i = c.1 * w0.width + c.0;
    assert(0 <= c.1 * w0.width && c.1 * w0.width + w0.width <= w0.width * w0.height)
        by (nonlinear_arith)
        requires
            0 <= c.1 < w0.height,
            0 <= w0.width,
    ;
    vstd::arithmetic::div_mod::lemma_fundamental_div_mod_converse(
        i,
        w0.width,
        c.1 as int,
        c.0 as int,
    );
    assert(w0.after(t).cells[i] == before.next_tile(c.0 as int, c.1 as int));
}

/// The places where a way can go on are places of the valley.
pub proof fn lemma_next_places(w0: Weather, t: nat, c: Coord, k: int)
    requires
        t >= 1,
        w0.width >= 2,
        w0.height >= 2,
        w0.cells.len() == w0.width * w0.height,
        0 <= w0.start.0 < w0.width,
        0 <= w0.start.1 < w0.height - 1,
        0 <= w0.end.0 < w0.width,
        1 <= w0.end.1 < w0.height,
        is_place(w0, c),
        0 <= k < next_places(w0.after(t), c).len(),
    ensures
        is_place(w0, next_places(w0.after(t), c)[k]),
        next_places(w0.after(t), c)[k].0 < w0.width,
        next_places(w0.after(t), c)[k].1 < w0.height,
{
    w0.lemma_after(t);
    let next = w0.after(t);
    let start = (next.start.0 as usize, next.start.1 as usize);
    let end = (next.end.0 as usize, next.end.1 as usize);
    let p = next_places(next, c)[k];
    if c == start {
        if k == 1 {
            lemma_free_is_place(w0, t, p);
        }
    } else if c == end {
        if k == 1 {
            lemma_free_is_place(w0, t, p);
        }
    } else {
        lemma_free_around(next, c, 5, k);
        lemma_free_is_place(w0, t, p);
    }
}

/// The free places round `c` are free and lie round `c`.
pub proof fn lemma_free_around(w: Weather, c: Coord, n: nat, k: int)
    requires
        n <= 5,
        0 <= k < free_around(w, c, n).len(),
    ensures
        is_free(w, free_around(w, c, n)[k]),
        exists|j: int| 0 <= j < n && free_around(w, c, n)[k] == #[trigger] around(c)[j],
    decreases n,
{
    if n > 0 {
        let before = free_around(w, c, (n - 1) as nat);
        if k < before.len() {
            lemma_free_around(w, c, (n - 1) as nat, k);
            let j = choose|j: int| 0 <= j < n - 1 && before[k] == #[trigger] around(c)[j];
            assert(free_around(w, c, n)[k] == around(c)[j]);
        } else {
            assert(free_around(w, c, n)[k] == around(c)[n - 1]);
        }
    }
}


/// Whether the way is one that a search may hold: it ends at a place of
/// the valley in a state below `period`, and is not too long.
pub open spec fn is_way(w0: Weather, period: usize, p: ValleyPath, most: int) -> bool {
    &&& is_place(w0, p.coord)
    &&& p.coord.0 < w0.width
    &&& p.coord.1 < w0.height
    &&& p.state_index < period
    &&& p.walked <= most
    &&& p.cost == p.walked - p.coord.0 - p.coord.1
}

/// Whether the grids note for each state and place whether a way has been
/// gone on from there.
pub open spec fn notes(visited: Seq<Grid<bool>>, seen: Set<(Coord, usize)>, w0: Weather) -> bool {
    forall|s: int|
        0 <= s < visited.len() ==> (#[trigger] visited[s]).wf() && visited[s].width == w0.width
            && visited[s].height == w0.height && forall|x: int, y: int|
            visited[s].inside(x, y) ==> #[trigger] visited[s].cell(x, y) == seen.contains(
                ((x as usize, y as usize), s as usize),
            )
}

/// The place in `paths` of the first way of least rank.
fn pick(paths: &Vec<ValleyPath>, toward_end: bool) -> (i: usize)
    requires
        paths@.len() >= 1,
    ensures
        i == first_least(paths@, toward_end, paths@.len()),
        i < paths@.len(),
{
    let mut best: usize = 0;
    let mut k: usize = 1;
    while k < paths.len()
        invariant
            1 <= k <= paths@.len(),
            best < k,
            best == first_least(paths@, toward_end, k as nat),
        decreases paths.len() - k,
    {
        let a = &paths[k];
        let b = &paths[best];
        let less = if toward_end {
            a.cost < b.cost
        } else {
            (a.walked as u128 + a.coord.0 as u128 + a.coord.1 as u128) < (b.walked as u128
                + b.coord.0 as u128 + b.coord.1 as u128)
        };
        if less {
            best = k;
        }
        k += 1;
    }
    best
}

/// A grid for each state, as wide and high as the valley, with nothing
/// noted.
fn blank_notes(period: usize, width: usize, height: usize, Ghost(w0): Ghost<Weather>) -> (r: Vec<
    Grid<bool>,
>)
    requires
        width == w0.width,
        height == w0.height,
        width * height <= usize::MAX,
    ensures
        r@.len() == period,
        notes(r@, Set::empty(), w0),
        blank_in(r@, period as nat) == period * (width * height),
{
    let mut out: Vec<Grid<bool>> = Vec::new();
    let mut i: usize = 0;
    proof {
        assert(0 * (width * height) == 0) by (nonlinear_arith);
    }
    while i < period
        invariant
            i <= period,
            out@.len() == i,
            width == w0.width,
            height == w0.height,
            width * height <= usize::MAX,
            notes(out@, Set::empty(), w0),
            blank_in(out@, i as nat) == i * (width * height),
        decreases period - i,
    {
        let g = Grid::from_vec(width, height, filled(width * height, false));
        proof {
            assert forall|x: int, y: int| g.inside(x, y) implies !#[trigger] g.cell(x, y) by {
                lemma_index_in_bounds(x, y, width as int, height as int);
            }
            lemma_blank_all(g.grid_raw@, g.grid_raw@.len());
        }
        let ghost before = out@;
        out.push(g);
        proof {
            lemma_blank_front(before, out@, i as nat);
            assert((i + 1) * (width * height) == i * (width * height) + width * height)
                by (nonlinear_arith);
            assert forall|s: int| 0 <= s < out@.len() implies (#[trigger] out@[s]).wf()
                && out@[s].width == w0.width && out@[s].height == w0.height && forall|
                x: int,
                y: int,
            |
                out@[s].inside(x, y) ==> #[trigger] out@[s].cell(x, y) == Set::<
                    (Coord, usize),
                >::empty().contains(((x as usize, y as usize), s as usize)) by {
                if s < before.len() {
                    assert(out@[s] == before[s]);
                }
            }
        }
        i += 1;
    }
    out
}

/// The quickest way from where `init` ends to `end`, found by looking at
/// the ways of least rank first, or `None` where no way leads there. That
/// a way is found wherever a route through the states of the weather
/// leads to `end` is `lemma_search_finds`; that no such route is quicker
/// than the way found is `lemma_search_quickest`, and that no walk
/// through the valley is, minute by minute, `lemma_no_quicker_walk`.
#[verifier::rlimit(60)]
pub fn find_way(valley: &mut Valley, init: ValleyPath, end: Coord, toward_end: bool) -> (r: Option<
    ValleyPath,
>)
    requires
        old(valley).wf(),
        can_search(old(valley).weather(), old(valley).repetition_num, init.walked),
        is_way(old(valley).weather(), old(valley).repetition_num, init, init.walked as int),
    ensures
        final(valley).wf(),
        final(valley).weather() == old(valley).weather(),
        final(valley).start == old(valley).start,
        final(valley).end == old(valley).end,
        final(valley).repetition_num == old(valley).repetition_num,
        r == search(
            old(valley).weather(),
            old(valley).repetition_num,
            seq![init],
            Set::empty(),
            end,
            toward_end,
            search_bound(old(valley).weather(), old(valley).repetition_num),
        ),
{
    let ghost w0 = valley.weather();
    let period = valley.repetition_num;
    let width = valley.states[0].grid.width;
    let height = valley.states[0].grid.height;
    let mut visited = blank_notes(period, width, height, Ghost(w0));
    let ghost mut seen: Set<(Coord, usize)> = Set::empty();
    let mut paths: Vec<ValleyPath> = Vec::new();
    paths.push(init);
    let ghost bound = search_bound(w0, period);
    let ghost mut fuel: nat = bound;
    let ghost found = search(w0, period, seq![init], Set::empty(), end, toward_end, bound);
    proof {
        assert(paths@ =~= seq![init]);
        assert(period * (width * height) == width * height * period) by (nonlinear_arith);
    }
    loop
        invariant
            valley.wf(),
            valley.weather() == w0,
            w0 == old(valley).weather(),
            valley.start == old(valley).start,
            valley.end == old(valley).end,
            valley.repetition_num == period,
            period == old(valley).repetition_num,
            can_search(w0, period, init.walked),
            bound == search_bound(w0, period),
            fuel <= bound,
            paths@.len() + 6 * blank_in(visited@, period as nat) <= fuel,
            found == search(
                old(valley).weather(),
                old(valley).repetition_num,
                seq![init],
                Set::empty(),
                end,
                toward_end,
                search_bound(old(valley).weather(), old(valley).repetition_num),
            ),
            found == search(w0, period, paths@, seen, end, toward_end, fuel),
            forall|k: int|
                0 <= k < paths@.len() ==> is_way(
                    w0,
                    period,
                    #[trigger] paths@[k],
                    init.walked + (bound - fuel),
                ),
            visited@.len() == period,
            notes(visited@, seen, w0),
        decreases fuel,
    {
        if paths.len() == 0 {
            return None;
        }
        proof {
            fuel = (fuel - 1) as nat;
        }
        let i = pick(&paths, toward_end);
        let ghost waiting = paths@;
        let best = paths.remove(i);
        proof {
            assert(is_way(w0, period, waiting[i as int], init.walked + (bound - fuel - 1)));
            assert forall|k: int| 0 <= k < paths@.len() implies is_way(
                w0,
                period,
                #[trigger] paths@[k],
                init.walked + (bound - fuel),
            ) by {
                if k < i {
                    assert(paths@[k] == waiting[k]);
                } else {
                    assert(paths@[k] == waiting[k + 1]);
                }
            }
        }
        if *visited[best.state_index].get_unchecked(best.coord.0, best.coord.1) {
            continue ;
        }
        let ghost key = (best.coord, best.state_index);
        proof {
            assert(visited@[best.state_index as int].cell(best.coord.0 as int, best.coord.1 as int)
                == seen.contains(key));
        }
        let nexts = valley.get_next_coords(&best);
        let new_state_index = (best.state_index + 1) % period;
        let ghost places = nexts@;
        let ghost rest = paths@;
        let ghost arrival = way(end, (best.walked + 1) as usize, new_state_index);
        let ghost longer = ways(places, (best.walked + 1) as usize, new_state_index);
        proof {
            assert(rest == waiting.remove(i as int));
            assert(found == if places.contains(end) {
                Some(arrival)
            } else {
                search(w0, period, rest + longer, seen.insert(key), end, toward_end, fuel)
            });
        }
        let mut k: usize = 0;
        while k < nexts.len()
            invariant
                k <= nexts.len(),
                places == nexts@,
                places == next_places(w0.after((best.state_index + 1) as nat), best.coord),
                can_search(w0, period, init.walked),
                valley.wf(),
                valley.weather() == w0,
                w0 == old(valley).weather(),
                valley.start == old(valley).start,
                valley.end == old(valley).end,
                valley.repetition_num == old(valley).repetition_num,
                found == search(
                    old(valley).weather(),
                    old(valley).repetition_num,
                    seq![init],
                    Set::empty(),
                    end,
                    toward_end,
                    search_bound(old(valley).weather(), old(valley).repetition_num),
                ),
                arrival == way(end, (best.walked + 1) as usize, new_state_index),
                longer == ways(places, (best.walked + 1) as usize, new_state_index),
                places.contains(end) ==> found == Some(arrival),
                is_way(w0, period, best, init.walked + (bound - fuel - 1)),
                fuel < bound,
                bound == search_bound(w0, period),
                new_state_index < period,
                forall|j: int| 0 <= j < k ==> places[j] != end,
                paths@ == rest + longer.subrange(0, k as int),
                forall|j: int|
                    0 <= j < paths@.len() ==> is_way(
                        w0,
                        period,
                        #[trigger] paths@[j],
                        init.walked + (bound - fuel),
                    ),
            decreases nexts.len() - k,
        {
            let coord = nexts[k];
            proof {
                lemma_next_places(w0, (best.state_index + 1) as nat, best.coord, k as int);
            }
            let next = ValleyPath::new(coord, best.walked + 1, new_state_index);
            if coord.0 == end.0 && coord.1 == end.1 {
                proof {
                    assert(places[k as int] == end);
                    assert(places.contains(end));
                }
                return Some(next);
            }
            let ghost before = paths@;
            paths.push(next);
            proof {
                let all = longer;
                assert(all[k as int] == next);
                assert(paths@ =~= rest + all.subrange(0, k + 1));
                assert forall|j: int| 0 <= j < paths@.len() implies is_way(
                    w0,
                    period,
                    #[trigger] paths@[j],
                    init.walked + (bound - fuel),
                ) by {
                    if j < before.len() {
                        assert(paths@[j] == before[j]);
                    }
                }
            }
            k += 1;
        }
        proof {
            assert(longer.subrange(0, k as int) =~= longer);
            assert(!places.contains(end));
            lemma_free_around_len(w0.after((best.state_index + 1) as nat), best.coord, 5);
            assert(places.len() <= 5);
        }
        let ghost old_visited = visited@;
        let ghost old_seen = seen;
        let grid = &mut visited[best.state_index];
        grid.set(best.coord.0, best.coord.1, true);
        proof {
            lemma_index_in_bounds(
                best.coord.0 as int,
                best.coord.1 as int,
                w0.width,
                w0.height,
            );
            lemma_blank_one_less(
                old_visited,
                visited@,
                best.state_index as int,
                best.coord.1 * w0.width + best.coord.0,
                period as nat,
            );
            seen = seen.insert((best.coord, best.state_index));
            assert forall|s: int| 0 <= s < visited@.len() implies (#[trigger] visited@[s]).wf()
                && visited@[s].width == w0.width && visited@[s].height == w0.height && forall|
                x: int,
                y: int,
            |
                visited@[s].inside(x, y) ==> #[trigger] visited@[s].cell(x, y) == seen.contains(
                    ((x as usize, y as usize), s as usize),
                ) by {
                assert(old_visited[s].wf());
                if s != best.state_index {
                    assert(visited@[s] == old_visited[s]);
                }
                assert forall|x: int, y: int| visited@[s].inside(x, y) implies #[trigger] visited@[s].cell(
                    x,
                    y,
                ) == seen.contains(((x as usize, y as usize), s as usize)) by {
                    assert(old_visited[s].cell(x, y) == old_seen.contains(
                        ((x as usize, y as usize), s as usize),
                    ));
                }
            }
        }
    }
}

/// The quickest way from where `init` ends to `end`, in a valley where a
/// way leads there.
pub fn astar(valley: &mut Valley, init: ValleyPath, end: Coord, toward_end: bool) -> (r: ValleyPath)
    requires
        old(valley).wf(),
        can_search(old(valley).weather(), old(valley).repetition_num, init.walked),
        is_way(old(valley).weather(), old(valley).repetition_num, init, init.walked as int),
        search(
            old(valley).weather(),
            old(valley).repetition_num,
            seq![init],
            Set::empty(),
            end,
            toward_end,
            search_bound(old(valley).weather(), old(valley).repetition_num),
        ) is Some,
    ensures
        final(valley).wf(),
        final(valley).weather() == old(valley).weather(),
        final(valley).start == old(valley).start,
        final(valley).end == old(valley).end,
        final(valley).repetition_num == old(valley).repetition_num,
        Some(r) == search(
            old(valley).weather(),
            old(valley).repetition_num,
            seq![init],
            Set::empty(),
            end,
            toward_end,
            search_bound(old(valley).weather(), old(valley).repetition_num),
        ),
{
    match find_way(valley, init, end, toward_end) {
        Some(found) => found,
        None => init,
    }
}

/// The number of minutes after which the weather of the valley is as it
/// was: the least common multiple of the sides of the ground inside the
/// walls.
pub open spec fn period_of(w0: Weather) -> usize {
    lcm((w0.width - 2) as nat, (w0.height - 2) as nat) as usize
}

/// Whether the searches of the first part can be made on the map.
pub open spec fn can_cross(s: Seq<u8>) -> bool {
    let w0 = weather_of(s);
    let period = period_of(w0);
    &&& is_valley_map(s)
    &&& can_search(w0, period, 0)
    &&& search(
        w0,
        period,
        seq![way((1, 0), 0, 0)],
        Set::empty(),
        (w0.end.0 as usize, w0.end.1 as usize),
        true,
        search_bound(w0, period),
    ) is Some
}

/// The way that the first search finds on the map.
pub open spec fn crossing(s: Seq<u8>) -> ValleyPath {
    let w0 = weather_of(s);
    let period = period_of(w0);
    search(
        w0,
        period,
        seq![way((1, 0), 0, 0)],
        Set::empty(),
        (w0.end.0 as usize, w0.end.1 as usize),
        true,
        search_bound(w0, period),
    )->0
}

/// The fewest minutes in which the valley can be crossed, as the search
/// finds them.
pub fn day24_1(input: &str) -> (r: usize)
    requires
        can_cross(input.spec_bytes()),
    ensures
        r == crossing(input.spec_bytes()).walked,
{
    let mut valley = Valley::from_input(input);
    let init = ValleyPath::new(valley.start, 0, 0);
    let end = valley.end;
    proof {
        valley.weather().lemma_after(0);
    }
    astar(&mut valley, init, end, true).walked
}


/// The way that a search from the end of the way `from` finds on the map.
pub open spec fn leg(s: Seq<u8>, from: ValleyPath, toward_end: bool) -> Option<ValleyPath> {
    let w0 = weather_of(s);
    let period = period_of(w0);
    search(
        w0,
        period,
        seq![from],
        Set::empty(),
        if toward_end {
            (w0.end.0 as usize, w0.end.1 as usize)
        } else {
            (1usize, 0usize)
        },
        toward_end,
        search_bound(w0, period),
    )
}

/// The way back that the second search finds on the map.
pub open spec fn way_back(s: Seq<u8>) -> ValleyPath {
    leg(s, crossing(s), false)->0
}

/// Whether the three searches of the second part can be made on the map:
/// across, back and across again.
pub open spec fn can_cross_thrice(s: Seq<u8>) -> bool {
    let w0 = weather_of(s);
    let period = period_of(w0);
    &&& can_cross(s)
    &&& can_search(w0, period, crossing(s).walked)
    &&& leg(s, crossing(s), false) is Some
    &&& can_search(w0, period, way_back(s).walked)
    &&& leg(s, way_back(s), true) is Some
}

/// The fewest minutes in which the valley can be crossed, crossed back and
/// crossed again, as the searches find them.
pub fn day24_2(input: &str) -> (r: usize)
    requires
        can_cross_thrice(input.spec_bytes()),
    ensures
        Some(r) == match leg(input.spec_bytes(), way_back(input.spec_bytes()), true) {
            Some(p) => Some(p.walked),
            None => None,
        },
{
    let mut valley = Valley::from_input(input);
    let init = ValleyPath::new(valley.start, 0, 0);
    let end = valley.end;
    let start = valley.start;
    let ghost w0 = valley.weather();
    proof {
        w0.lemma_after(0);
    }
    let walk1 = astar(&mut valley, init, end, true);
    proof {
        lemma_found_is_way(
            w0,
            valley.repetition_num,
            seq![init],
            Set::empty(),
            end,
            true,
            search_bound(w0, valley.repetition_num),
        );
    }
    let walk2 = astar(&mut valley, walk1, start, false);
    proof {
        lemma_found_is_way(
            w0,
            valley.repetition_num,
            seq![walk1],
            Set::empty(),
            start,
            false,
            search_bound(w0, valley.repetition_num),
        );
    }
    let walk3 = astar(&mut valley, walk2, end, true);
    walk3.walked
}

/// The way that a search finds ends at the place sought, in a state below
/// the period, and its cost is that of its steps and its place.
pub proof fn lemma_found_is_way(
    w0: Weather,
    period: usize,
    q: Seq<ValleyPath>,
    seen: Set<(Coord, usize)>,
    end: Coord,
    toward_end: bool,
    fuel: nat,
)
    requires
        period >= 1,
        search(w0, period, q, seen, end, toward_end, fuel) is Some,
    ensures
        ({
            let r = search(w0, period, q, seen, end, toward_end, fuel)->0;
            r.coord == end && r.state_index < period && r.cost == (r.walked - end.0 - end.1) as i64
        }),
    decreases fuel,
{
    let i = first_least(q, toward_end, q.len());
    let best = q[i];
    let rest = q.remove(i);
    if seen.contains((best.coord, best.state_index)) {
        lemma_found_is_way(w0, period, rest, seen, end, toward_end, (fuel - 1) as nat);
    } else {
        let places = next_places(w0.after((best.state_index + 1) as nat), best.coord);
        let idx = ((best.state_index + 1) % (period as int)) as usize;
        if !places.contains(end) {
            lemma_found_is_way(
                w0,
                period,
                rest + ways(places, (best.walked + 1) as usize, idx),
                seen.insert((best.coord, best.state_index)),
                end,
                toward_end,
                (fuel - 1) as nat,
            );
        }
    }
}


/// A place in a state of the weather.
pub type Node = (Coord, usize);

/// The place and the state in which a way ends.
pub open spec fn node_of(p: ValleyPath) -> Node {
    (p.coord, p.state_index)
}

/// Whether one can be at `c` a minute after being at the node `a`.
pub open spec fn leads_to(w0: Weather, a: Node, c: Coord) -> bool {
    next_places(w0.after((a.1 + 1) as nat), a.0).contains(c)
}

/// Whether a minute leads from the node `a` to the node `b`.
pub open spec fn can_go(w0: Weather, period: usize, a: Node, b: Node) -> bool {
    leads_to(w0, a, b.0) && b.1 == (a.1 + 1) % (period as int)
}

/// Whether each node of `r` leads to the next in a minute.
pub open spec fn is_route(w0: Weather, period: usize, r: Seq<Node>) -> bool {
    &&& r.len() >= 1
    &&& forall|i: int| 0 <= i < r.len() - 1 ==> can_go(w0, period, #[trigger] r[i], r[i + 1])
}

/// Whether `k` minutes lead from the node `from` to the node `to`.
pub open spec fn comes_to(w0: Weather, period: usize, from: Node, to: Node, k: int) -> bool {
    exists|r: Seq<Node>| #[trigger]
        is_route(w0, period, r) && r.len() == k + 1 && r[0] == from && r[k] == to
}

/// The sum of the two coordinates of a place.
pub open spec fn coord_sum(c: Coord) -> int {
    c.0 + c.1
}

/// Whether the valley has walls round its ground and its two gaps in the
/// first and the last row, and `target` is one of the gaps.
pub open spec fn is_crossing(w0: Weather, period: usize, target: Coord) -> bool {
    &&& period >= 1
    &&& 3 <= w0.width <= usize::MAX
    &&& 3 <= w0.height <= usize::MAX
    &&& w0.width + w0.height <= i64::MAX
    &&& w0.cells.len() == w0.width * w0.height
    &&& 1 <= w0.start.0 < w0.width - 1
    &&& w0.start.1 == 0
    &&& 1 <= w0.end.0 < w0.width - 1
    &&& w0.end.1 == w0.height - 1
    &&& ((target.0 as int, target.1 as int) == w0.start || (target.0 as int, target.1 as int)
        == w0.end)
}

/// Whether the node is a place of the valley in a state below the
/// period.
pub open spec fn is_node(w0: Weather, period: usize, n: Node) -> bool {
    is_place(w0, n.0) && n.0.0 < w0.width && n.0.1 < w0.height && n.1 < period
}

/// A minute leads from a place to a place, whose coordinates add up to
/// one more or one less at most.
pub proof fn lemma_step(w0: Weather, period: usize, target: Coord, a: Node, b: Node)
    requires
        is_crossing(w0, period, target),
        is_node(w0, period, a),
        can_go(w0, period, a, b),
    ensures
        is_node(w0, period, b),
        coord_sum(a.0) - 1 <= coord_sum(b.0) <= coord_sum(a.0) + 1,
        b.0 == target && a.0 != target ==> coord_sum(a.0) == if target.1 == 0 {
            coord_sum(target) + 1
        } else {
            coord_sum(target) - 1
        },
{
    let t = (a.1 + 1) as nat;
    let next = w0.after(t);
    w0.lemma_after(t);
    let places = next_places(next, a.0);
    let k = choose|k: int| 0 <= k < places.len() && places[k] == b.0;
    lemma_next_places(w0, t, a.0, k);
    vstd::arithmetic::div_mod::lemma_mod_bound(a.1 + 1, period as int);
    let start = (next.start.0 as usize, next.start.1 as usize);
    let end = (next.end.0 as usize, next.end.1 as usize);
    if a.0 != start && a.0 != end {
        lemma_free_around(next, a.0, 5, k);
        let j = choose|j: int| 0 <= j < 5 && free_around(next, a.0, 5)[k] == #[trigger] around(a.0)[j];
        assert(w0.inner(a.0.0 as int, a.0.1 as int));
    }
}

/// The nodes of a route from a node are nodes, and the coordinates of
/// two of them add up to sums no further apart than they lie on the
/// route.
pub proof fn lemma_route(w0: Weather, period: usize, target: Coord, r: Seq<Node>, j: int, k: int)
    requires
        is_crossing(w0, period, target),
        is_route(w0, period, r),
        is_node(w0, period, r[0]),
        0 <= j <= k < r.len(),
    ensures
        is_node(w0, period, r[j]),
        is_node(w0, period, r[k]),
        coord_sum(r[j].0) - (k - j) <= coord_sum(r[k].0) <= coord_sum(r[j].0) + (k - j),
    decreases k,
{
    if k > 0 {
        if j == k {
            lemma_route(w0, period, target, r, j - 1, k - 1);
            assert(can_go(w0, period, r[k - 1], r[k]));
            lemma_step(w0, period, target, r[k - 1], r[k]);
        } else {
            lemma_route(w0, period, target, r, j, k - 1);
            assert(can_go(w0, period, r[k - 1], r[k]));
            lemma_step(w0, period, target, r[k - 1], r[k]);
        }
    }
}

/// The first nodes of a route are a route.
pub proof fn lemma_route_front(w0: Weather, period: usize, r: Seq<Node>, t: int)
    requires
        is_route(w0, period, r),
        0 <= t < r.len(),
    ensures
        comes_to(w0, period, r[0], r[t], t),
{
    let f = r.subrange(0, t + 1);
    assert forall|i: int| 0 <= i < f.len() - 1 implies can_go(w0, period, #[trigger] f[i], f[i + 1]) by {
        assert(can_go(w0, period, r[i], r[i + 1]));
    }
    assert(is_route(w0, period, f) && f.len() == t + 1 && f[0] == r[0] && f[t] == r[t]);
}

/// A route can go on by a minute.
pub proof fn lemma_route_on(w0: Weather, period: usize, from: Node, a: Node, b: Node, k: int)
    requires
        k >= 0,
        comes_to(w0, period, from, a, k),
        can_go(w0, period, a, b),
    ensures
        comes_to(w0, period, from, b, k + 1),
{
    let r = choose|r: Seq<Node>| #[trigger]
        is_route(w0, period, r) && r.len() == k + 1 && r[0] == from && r[k] == a;
    let f = r.push(b);
    assert forall|i: int| 0 <= i < f.len() - 1 implies can_go(w0, period, #[trigger] f[i], f[i + 1]) by {
        if i < k {
            assert(can_go(w0, period, r[i], r[i + 1]));
        }
    }
    assert(is_route(w0, period, f) && f.len() == k + 2 && f[0] == from && f[k + 1] == b);
}

/// The first way of least rank is of no greater rank than any that
/// waits.
pub proof fn lemma_least_rank(q: Seq<ValleyPath>, toward_end: bool, k: nat, j: int)
    requires
        1 <= k <= q.len(),
        0 <= j < k,
    ensures
        0 <= first_least(q, toward_end, k) < k,
        rank(q[first_least(q, toward_end, k)], toward_end) <= rank(q[j], toward_end),
    decreases k,
{
    if k > 1 {
        lemma_first_least(q, toward_end, (k - 1) as nat);
        if j < k - 1 {
            lemma_least_rank(q, toward_end, (k - 1) as nat, j);
        }
    }
}


/// Whether the node has been gone on from, or a way to it of no more
/// than `g` steps waits.
pub open spec fn held(q: Seq<ValleyPath>, seen: Set<Node>, m: Node, g: int) -> bool {
    seen.contains(m) || exists|i: int|
        0 <= i < q.len() && node_of(#[trigger] q[i]) == m && q[i].walked <= g
}

/// Whether every way that waits is a way of the valley that a route of
/// as many minutes as it has steps beyond `base` follows from `n0`, and
/// no way waits at `target`.
pub open spec fn good_queue(
    w0: Weather,
    period: usize,
    n0: Node,
    base: int,
    q: Seq<ValleyPath>,
    target: Coord,
    most: int,
) -> bool {
    forall|i: int|
        0 <= i < q.len() ==> {
            &&& is_way(w0, period, #[trigger] q[i], most)
            &&& q[i].walked >= base
            &&& comes_to(w0, period, n0, node_of(q[i]), q[i].walked - base)
            &&& q[i].coord != target
        }
}

/// Whether every node gone on from is a node that does not lead to
/// `target` and was gone on from after no more steps than any route to
/// it has minutes.
pub open spec fn good_seen(
    w0: Weather,
    period: usize,
    n0: Node,
    base: int,
    seen: Set<Node>,
    gone: Map<Node, int>,
    target: Coord,
) -> bool {
    &&& forall|s: Node| #[trigger]
        seen.contains(s) ==> is_node(w0, period, s) && !leads_to(w0, s, target)
    &&& forall|s: Node, k: int|
        seen.contains(s) && #[trigger] comes_to(w0, period, n0, s, k) ==> gone[s] <= base + k
}

/// Whether every node to which a node gone on from leads has been gone
/// on from itself, or a way to it of one step more waits.
pub open spec fn fed(
    w0: Weather,
    period: usize,
    q: Seq<ValleyPath>,
    seen: Set<Node>,
    gone: Map<Node, int>,
) -> bool {
    forall|s: Node, c: Coord|
        seen.contains(s) && #[trigger] leads_to(w0, s, c) ==> held(
            q,
            seen,
            (c, ((s.1 + 1) % (period as int)) as usize),
            gone[s] + 1,
        )
}

/// What a search keeps true of the ways that wait and the nodes gone on
/// from.
#[verifier::opaque]
pub open spec fn kept(
    w0: Weather,
    period: usize,
    n0: Node,
    base: int,
    q: Seq<ValleyPath>,
    seen: Set<Node>,
    gone: Map<Node, int>,
    target: Coord,
    most: int,
) -> bool {
    &&& is_crossing(w0, period, target)
    &&& is_node(w0, period, n0)
    &&& n0.0 != target
    &&& 0 <= base <= most
    &&& good_queue(w0, period, n0, base, q, target, most)
    &&& good_seen(w0, period, n0, base, seen, gone, target)
    &&& fed(w0, period, q, seen, gone)
    &&& held(q, seen, n0, base)
}

/// On a route from `n0` to a node that has not been gone on from lies a
/// node to which a way waits that has no more steps than the route has
/// minutes up to there.
pub proof fn lemma_front(
    w0: Weather,
    period: usize,
    n0: Node,
    base: int,
    q: Seq<ValleyPath>,
    seen: Set<Node>,
    gone: Map<Node, int>,
    target: Coord,
    most: int,
    r: Seq<Node>,
    t: int,
)
    requires
        kept(w0, period, n0, base, q, seen, gone, target, most),
        is_route(w0, period, r),
        r[0] == n0,
        0 <= t < r.len(),
        !seen.contains(r[t]),
    ensures
        exists|i: int, j: int|
            0 <= i < q.len() && 0 <= j <= t && node_of(#[trigger] q[i]) == #[trigger] r[j]
                && q[i].walked <= base + j,
    decreases t,
{
    reveal(kept);
    if t == 0 {
        let i = choose|i: int| 0 <= i < q.len() && node_of(#[trigger] q[i]) == n0 && q[i].walked <= base;
        assert(node_of(q[i]) == r[0] && q[i].walked <= base + 0);
    } else if seen.contains(r[t - 1]) {
        let s = r[t - 1];
        lemma_route_front(w0, period, r, t - 1);
        assert(gone[s] <= base + (t - 1));
        assert(can_go(w0, period, r[t - 1], r[t]));
        assert(leads_to(w0, s, r[t].0));
        let m = (r[t].0, ((s.1 + 1) % (period as int)) as usize);
        assert(m == r[t]);
        assert(held(q, seen, m, gone[s] + 1));
        let i = choose|i: int| 0 <= i < q.len() && node_of(#[trigger] q[i]) == m && q[i].walked <= gone[s] + 1;
        assert(node_of(q[i]) == r[t] && q[i].walked <= base + t);
    } else {
        lemma_front(w0, period, n0, base, q, seen, gone, target, most, r, t - 1);
        let (i, j) = choose|i: int, j: int|
            0 <= i < q.len() && 0 <= j <= t - 1 && node_of(#[trigger] q[i]) == #[trigger] r[j]
                && q[i].walked <= base + j;
        assert(node_of(q[i]) == r[j] && q[i].walked <= base + j);
    }
}

/// What a way counts for in its rank besides its steps.
pub open spec fn lead(c: Coord, toward_end: bool) -> int {
    if toward_end {
        -coord_sum(c)
    } else {
        coord_sum(c)
    }
}

/// The first way of least rank has no more steps beyond `base` than a
/// route to a node at a place whose coordinates add up as those of its
/// own place do, if that node has not been gone on from.
pub proof fn lemma_best_first(
    w0: Weather,
    period: usize,
    n0: Node,
    base: int,
    q: Seq<ValleyPath>,
    seen: Set<Node>,
    gone: Map<Node, int>,
    target: Coord,
    most: int,
    toward_end: bool,
    r: Seq<Node>,
    t: int,
)
    requires
        kept(w0, period, n0, base, q, seen, gone, target, most),
        q.len() >= 1,
        is_route(w0, period, r),
        r[0] == n0,
        0 <= t < r.len(),
        !seen.contains(r[t]),
        coord_sum(r[t].0) == coord_sum(q[first_least(q, toward_end, q.len())].coord),
    ensures
        q[first_least(q, toward_end, q.len())].walked <= base + t,
{
    reveal(kept);
    lemma_front(w0, period, n0, base, q, seen, gone, target, most, r, t);
    let (i, j) = choose|i: int, j: int|
        0 <= i < q.len() && 0 <= j <= t && node_of(#[trigger] q[i]) == #[trigger] r[j]
            && q[i].walked <= base + j;
    lemma_route(w0, period, target, r, j, t);
    lemma_least_rank(q, toward_end, q.len(), i);
    let b = first_least(q, toward_end, q.len());
    assert(is_way(w0, period, q[i], most));
    assert(is_way(w0, period, q[b], most));
    assert(rank(q[i], toward_end) == q[i].walked + lead(q[i].coord, toward_end));
    assert(rank(q[b], toward_end) == q[b].walked + lead(q[b].coord, toward_end));
}

/// A route from a node that is not at `target` to a node at `target`
/// comes to `target` for the first time from a node that is not there.
pub proof fn lemma_first_visit(r: Seq<Node>, target: Coord, k: int)
    requires
        1 <= k < r.len(),
        r[0].0 != target,
        r[k].0 == target,
    ensures
        exists|t: int| 1 <= t <= k && (#[trigger] r[t]).0 == target && r[t - 1].0 != target,
    decreases k,
{
    if r[k - 1].0 != target {
        assert(r[k].0 == target && r[k - 1].0 != target);
    } else {
        lemma_first_visit(r, target, k - 1);
        let t = choose|t: int| 1 <= t <= k - 1 && (#[trigger] r[t]).0 == target && r[t - 1].0 != target;
        assert(r[t].0 == target && r[t - 1].0 != target);
    }
}


/// What holds of a node before a way is taken from those that wait and
/// others are put behind them holds after it, if the node of the way
/// taken has been gone on from by then.
pub proof fn lemma_held_on(
    q: Seq<ValleyPath>,
    seen: Set<Node>,
    i: int,
    more: Seq<ValleyPath>,
    seen_then: Set<Node>,
    m: Node,
    g: int,
)
    requires
        0 <= i < q.len(),
        held(q, seen, m, g),
        seen_then.contains(node_of(q[i])),
        forall|s: Node| seen.contains(s) ==> seen_then.contains(s),
    ensures
        held(q.remove(i) + more, seen_then, m, g),
{
    if !seen.contains(m) {
        let w = choose|w: int| 0 <= w < q.len() && node_of(#[trigger] q[w]) == m && q[w].walked <= g;
        let then = q.remove(i) + more;
        if w < i {
            assert(node_of(then[w]) == m && then[w].walked <= g);
        } else if w > i {
            assert(node_of(then[w - 1]) == m && then[w - 1].walked <= g);
        }
    }
}

/// A search that leaves out a way whose node has been gone on from
/// keeps what it keeps.
pub proof fn lemma_kept_less(
    w0: Weather,
    period: usize,
    n0: Node,
    base: int,
    q: Seq<ValleyPath>,
    seen: Set<Node>,
    gone: Map<Node, int>,
    target: Coord,
    most: int,
    i: int,
)
    requires
        kept(w0, period, n0, base, q, seen, gone, target, most),
        0 <= i < q.len(),
        seen.contains(node_of(q[i])),
    ensures
        kept(w0, period, n0, base, q.remove(i), seen, gone, target, most),
{
    reveal(kept);
    let rest = q.remove(i);
    let none = Seq::<ValleyPath>::empty();
    assert(rest + none =~= rest);
    assert forall|k: int| 0 <= k < rest.len() implies {
        &&& is_way(w0, period, #[trigger] rest[k], most)
        &&& rest[k].walked >= base
        &&& comes_to(w0, period, n0, node_of(rest[k]), rest[k].walked - base)
        &&& rest[k].coord != target
    } by {
        if k < i {
            assert(rest[k] == q[k]);
        } else {
            assert(rest[k] == q[k + 1]);
        }
    }
    assert forall|s: Node, c: Coord| seen.contains(s) && #[trigger] leads_to(w0, s, c) implies held(
        rest,
        seen,
        (c, ((s.1 + 1) % (period as int)) as usize),
        gone[s] + 1,
    ) by {
        lemma_held_on(q, seen, i, none, seen, (c, ((s.1 + 1) % (period as int)) as usize), gone[s] + 1);
    }
    lemma_held_on(q, seen, i, none, seen, n0, base);
}

/// A search that goes on from the first way of least rank, and finds
/// that it does not lead to `target`, keeps what it keeps.
pub proof fn lemma_kept_more(
    w0: Weather,
    period: usize,
    n0: Node,
    base: int,
    q: Seq<ValleyPath>,
    seen: Set<Node>,
    gone: Map<Node, int>,
    target: Coord,
    toward_end: bool,
    most: int,
)
    requires
        kept(w0, period, n0, base, q, seen, gone, target, most),
        q.len() >= 1,
        most + 1 <= usize::MAX,
        most + 1 <= i64::MAX,
        !seen.contains(node_of(q[first_least(q, toward_end, q.len())])),
        !leads_to(w0, node_of(q[first_least(q, toward_end, q.len())]), target),
    ensures
        ({
            let i = first_least(q, toward_end, q.len());
            let best = q[i];
            let places = next_places(w0.after((best.state_index + 1) as nat), best.coord);
            let idx = ((best.state_index + 1) % (period as int)) as usize;
            kept(
                w0,
                period,
                n0,
                base,
                q.remove(i) + ways(places, (best.walked + 1) as usize, idx),
                seen.insert(node_of(best)),
                gone.insert(node_of(best), best.walked as int),
                target,
                most + 1,
            )
        }),
{
    reveal(kept);
    lemma_first_least(q, toward_end, q.len());
    let i = first_least(q, toward_end, q.len());
    let best = q[i];
    let nb = node_of(best);
    let t = (best.state_index + 1) as nat;
    let places = next_places(w0.after(t), best.coord);
    let idx = ((best.state_index + 1) % (period as int)) as usize;
    let on = (best.walked + 1) as usize;
    let more = ways(places, on, idx);
    let rest = q.remove(i);
    let then = rest + more;
    let seen_then = seen.insert(nb);
    let gone_then = gone.insert(nb, best.walked as int);
    vstd::arithmetic::div_mod::lemma_mod_bound(best.state_index + 1, period as int);
    assert(is_way(w0, period, best, most));
    assert(comes_to(w0, period, n0, nb, best.walked - base));
    assert forall|k: int| 0 <= k < then.len() implies {
        &&& is_way(w0, period, #[trigger] then[k], most + 1)
        &&& then[k].walked >= base
        &&& comes_to(w0, period, n0, node_of(then[k]), then[k].walked - base)
        &&& then[k].coord != target
    } by {
        if k < i {
            assert(then[k] == q[k]);
        } else if k < rest.len() {
            assert(then[k] == q[k + 1]);
        } else {
            let j = k - rest.len();
            assert(then[k] == way(places[j], on, idx));
            lemma_next_places(w0, t, best.coord, j);
            assert(places.contains(places[j]));
            assert(can_go(w0, period, nb, (places[j], idx)));
            lemma_route_on(w0, period, n0, nb, (places[j], idx), best.walked - base);
        }
    }
    assert forall|s: Node, k: int| seen_then.contains(s) && #[trigger] comes_to(w0, period, n0, s, k)
        implies gone_then[s] <= base + k by {
        if s == nb {
            let r = choose|r: Seq<Node>| #[trigger]
                is_route(w0, period, r) && r.len() == k + 1 && r[0] == n0 && r[k] == s;
            lemma_best_first(w0, period, n0, base, q, seen, gone, target, most, toward_end, r, k);
        }
    }
    assert forall|s: Node, c: Coord| seen_then.contains(s) && #[trigger] leads_to(w0, s, c) implies held(
        then,
        seen_then,
        (c, ((s.1 + 1) % (period as int)) as usize),
        gone_then[s] + 1,
    ) by {
        let m = (c, ((s.1 + 1) % (period as int)) as usize);
        if s == nb {
            let j = choose|j: int| 0 <= j < places.len() && places[j] == c;
            let k = rest.len() + j;
            assert(then[k] == way(places[j], on, idx));
            assert(node_of(then[k]) == m && then[k].walked <= gone_then[s] + 1);
        } else {
            lemma_held_on(q, seen, i, more, seen_then, m, gone[s] + 1);
        }
    }
    lemma_held_on(q, seen, i, more, seen_then, n0, base);
}

/// The way that a search finds follows a route from `n0` to `target`,
/// and no route from `n0` to `target` in any state has fewer minutes
/// than the way has steps beyond `base`.
pub proof fn lemma_search_least(
    w0: Weather,
    period: usize,
    n0: Node,
    base: int,
    q: Seq<ValleyPath>,
    seen: Set<Node>,
    gone: Map<Node, int>,
    target: Coord,
    toward_end: bool,
    most: int,
    fuel: nat,
)
    requires
        kept(w0, period, n0, base, q, seen, gone, target, most),
        most + fuel <= usize::MAX,
        most + fuel <= i64::MAX,
        search(w0, period, q, seen, target, toward_end, fuel) is Some,
    ensures
        ({
            let r = search(w0, period, q, seen, target, toward_end, fuel)->0;
            &&& r.coord == target
            &&& r.walked >= base
            &&& comes_to(w0, period, n0, node_of(r), r.walked - base)
            &&& forall|idx: usize, k: int| #[trigger]
                comes_to(w0, period, n0, (target, idx), k) ==> r.walked - base <= k
        }),
    decreases fuel,
{
    reveal(kept);
    lemma_first_least(q, toward_end, q.len());
    let i = first_least(q, toward_end, q.len());
    let best = q[i];
    let nb = node_of(best);
    let rest = q.remove(i);
    if seen.contains(nb) {
        lemma_kept_less(w0, period, n0, base, q, seen, gone, target, most, i);
        lemma_search_least(
            w0,
            period,
            n0,
            base,
            rest,
            seen,
            gone,
            target,
            toward_end,
            most,
            (fuel - 1) as nat,
        );
    } else {
        let places = next_places(w0.after((best.state_index + 1) as nat), best.coord);
        let idx = ((best.state_index + 1) % (period as int)) as usize;
        let on = (best.walked + 1) as usize;
        assert(is_way(w0, period, best, most));
        assert(comes_to(w0, period, n0, nb, best.walked - base));
        vstd::arithmetic::div_mod::lemma_mod_bound(best.state_index + 1, period as int);
        if places.contains(target) {
            let found = way(target, on, idx);
            assert(can_go(w0, period, nb, (target, idx)));
            lemma_route_on(w0, period, n0, nb, (target, idx), best.walked - base);
            lemma_step(w0, period, target, nb, (target, idx));
            assert forall|idx2: usize, k: int| #[trigger]
                comes_to(w0, period, n0, (target, idx2), k) implies found.walked - base <= k by {
                let r = choose|r: Seq<Node>| #[trigger]
                    is_route(w0, period, r) && r.len() == k + 1 && r[0] == n0 && r[k] == (
                        target,
                        idx2,
                    );
                lemma_first_visit(r, target, k);
                let t = choose|t: int|
                    1 <= t <= k && (#[trigger] r[t]).0 == target && r[t - 1].0 != target;
                lemma_route(w0, period, target, r, t - 1, t);
                assert(can_go(w0, period, r[t - 1], r[t]));
                lemma_step(w0, period, target, r[t - 1], r[t]);
                assert(leads_to(w0, r[t - 1], target));
                lemma_best_first(
                    w0,
                    period,
                    n0,
                    base,
                    q,
                    seen,
                    gone,
                    target,
                    most,
                    toward_end,
                    r,
                    t - 1,
                );
            }
        } else {
            lemma_kept_more(w0, period, n0, base, q, seen, gone, target, toward_end, most);
            lemma_search_least(
                w0,
                period,
                n0,
                base,
                rest + ways(places, on, idx),
                seen.insert(nb),
                gone.insert(nb, best.walked as int),
                target,
                toward_end,
                most + 1,
                (fuel - 1) as nat,
            );
        }
    }
}

/// A search from the way `init` alone finds a quickest way to `target`:
/// the steps that it adds to those of `init` are the minutes of a route
/// from the node of `init` to `target`, and no route from there to
/// `target` has fewer minutes, whatever the state of the weather at its
/// end.
pub proof fn lemma_search_quickest(
    w0: Weather,
    period: usize,
    init: ValleyPath,
    target: Coord,
    toward_end: bool,
)
    requires
        is_crossing(w0, period, target),
        can_search(w0, period, init.walked),
        is_way(w0, period, init, init.walked as int),
        init.coord != target,
        search(w0, period, seq![init], Set::empty(), target, toward_end, search_bound(w0, period))
            is Some,
    ensures
        ({
            let r = search(
                w0,
                period,
                seq![init],
                Set::empty(),
                target,
                toward_end,
                search_bound(w0, period),
            )->0;
            &&& r.coord == target
            &&& r.walked >= init.walked
            &&& comes_to(w0, period, node_of(init), node_of(r), r.walked - init.walked)
            &&& forall|idx: usize, k: int| #[trigger]
                comes_to(w0, period, node_of(init), (target, idx), k) ==> r.walked - init.walked
                    <= k
        }),
{
    reveal(kept);
    let from = node_of(init);
    let base = init.walked as int;
    let q = seq![init];
    let seen = Set::<Node>::empty();
    let gone = Map::<Node, int>::empty();
    let only = seq![from];
    assert(is_route(w0, period, only) && only.len() == 1 && only[0] == from);
    assert(comes_to(w0, period, from, from, 0));
    assert(node_of(q[0]) == from && q[0].walked <= base);
    assert(kept(w0, period, from, base, q, seen, gone, target, base));
    lemma_search_least(
        w0,
        period,
        from,
        base,
        q,
        seen,
        gone,
        target,
        toward_end,
        base,
        search_bound(w0, period),
    );
}

/// The search across the valley finds a quickest way: the minutes that
/// it gives lead from the first gap at the time 0 to the last gap, and
/// no fewer minutes lead there, whatever the state of the weather at the
/// end.
pub proof fn lemma_crossing_quickest(s: Seq<u8>)
    requires
        can_cross(s),
        weather_of(s).width >= 3,
        weather_of(s).height >= 3,
    ensures
        ({
            let w0 = weather_of(s);
            let end = (w0.end.0 as usize, w0.end.1 as usize);
            let from = ((1usize, 0usize), 0usize);
            &&& crossing(s).coord == end
            &&& comes_to(w0, period_of(w0), from, node_of(crossing(s)), crossing(s).walked as int)
            &&& forall|idx: usize, k: int| #[trigger]
                comes_to(w0, period_of(w0), from, (end, idx), k) ==> crossing(s).walked <= k
        }),
{
    let w0 = weather_of(s);
    let end = (w0.end.0 as usize, w0.end.1 as usize);
    lemma_search_quickest(w0, period_of(w0), way((1, 0), 0, 0), end, true);
}


/// The place of a node among the notes of all nodes, state by state and
/// row by row.
#[verifier::opaque]
pub open spec fn place_of_node(w0: Weather, n: Node) -> int {
    (n.1 * w0.height + n.0.1) * w0.width + n.0.0
}

/// Each node has a place of its own among the notes of all nodes.
pub proof fn lemma_place_of_node(w0: Weather, period: usize, a: Node, b: Node)
    requires
        w0.width >= 1,
        w0.height >= 1,
        is_node(w0, period, a),
        is_node(w0, period, b),
    ensures
        0 <= place_of_node(w0, a) < w0.width * w0.height * period,
        place_of_node(w0, a) == place_of_node(w0, b) ==> a == b,
{
    reveal(place_of_node);
    let w = w0.width;
    let h = w0.height;
    let ra = a.1 * h + a.0.1;
    let rb = b.1 * h + b.0.1;
    assert(0 <= ra < period * h) by (nonlinear_arith)
        requires
            0 <= a.1 < period,
            0 <= a.0.1 < h,
            ra == a.1 * h + a.0.1,
    ;
    assert(0 <= rb) by (nonlinear_arith)
        requires
            0 <= b.1,
            0 <= b.0.1,
            0 <= h,
            rb == b.1 * h + b.0.1,
    ;
    assert(0 <= ra * w + a.0.0 < w * h * period) by (nonlinear_arith)
        requires
            0 <= ra < period * h,
            0 <= a.0.0 < w,
    ;
    vstd::arithmetic::div_mod::lemma_fundamental_div_mod_converse(
        place_of_node(w0, a),
        w,
        ra,
        a.0.0 as int,
    );
    vstd::arithmetic::div_mod::lemma_fundamental_div_mod_converse(
        place_of_node(w0, b),
        w,
        rb,
        b.0.0 as int,
    );
    vstd::arithmetic::div_mod::lemma_fundamental_div_mod_converse(ra, h, a.1 as int, a.0.1 as int);
    vstd::arithmetic::div_mod::lemma_fundamental_div_mod_converse(rb, h, b.1 as int, b.0.1 as int);
}

/// Whether the notes say of each node whether it has been gone on from.
#[verifier::opaque]
pub open spec fn noted(w0: Weather, period: usize, marks: Seq<bool>, seen: Set<Node>) -> bool {
    &&& marks.len() == w0.width * w0.height * period
    &&& forall|n: Node|
        #![trigger seen.contains(n)]
        is_node(w0, period, n) ==> marks[place_of_node(w0, n)] == seen.contains(n)
}

/// A note of a node not gone on from before leaves one blank note less.
pub proof fn lemma_noted_more(w0: Weather, period: usize, marks: Seq<bool>, seen: Set<Node>, nb: Node)
    requires
        w0.width >= 1,
        w0.height >= 1,
        noted(w0, period, marks, seen),
        is_node(w0, period, nb),
        !seen.contains(nb),
    ensures
        0 <= place_of_node(w0, nb) < marks.len(),
        noted(w0, period, marks.update(place_of_node(w0, nb), true), seen.insert(nb)),
        blank_cells(marks, marks.len()) == blank_cells(
            marks.update(place_of_node(w0, nb), true),
            marks.len(),
        ) + 1,
{
    reveal(noted);
    lemma_place_of_node(w0, period, nb, nb);
    let at = place_of_node(w0, nb);
    let marks_then = marks.update(at, true);
    let seen_then = seen.insert(nb);
    lemma_blank_noted(marks, at, marks.len());
    assert forall|n: Node|
        #![trigger seen_then.contains(n)]
        is_node(w0, period, n) implies marks_then[place_of_node(w0, n)] == seen_then.contains(
        n,
    ) by {
        lemma_place_of_node(w0, period, n, nb);
        assert(marks[place_of_node(w0, n)] == seen.contains(n));
    }
}

/// While a route leads from `n0` to `target`, a way waits.
pub proof fn lemma_one_waits(
    w0: Weather,
    period: usize,
    n0: Node,
    base: int,
    q: Seq<ValleyPath>,
    seen: Set<Node>,
    gone: Map<Node, int>,
    target: Coord,
    most: int,
    idx: usize,
    k: int,
)
    requires
        kept(w0, period, n0, base, q, seen, gone, target, most),
        comes_to(w0, period, n0, (target, idx), k),
    ensures
        q.len() >= 1,
{
    reveal(kept);
    let r = choose|r: Seq<Node>| #[trigger]
        is_route(w0, period, r) && r.len() == k + 1 && r[0] == n0 && r[k] == (target, idx);
    lemma_first_visit(r, target, k);
    let t = choose|t: int| 1 <= t <= k && (#[trigger] r[t]).0 == target && r[t - 1].0 != target;
    lemma_route(w0, period, target, r, t - 1, t);
    assert(can_go(w0, period, r[t - 1], r[t]));
    assert(leads_to(w0, r[t - 1], target));
    lemma_front(w0, period, n0, base, q, seen, gone, target, most, r, t - 1);
}

/// The ways that wait in a search end at nodes.
pub proof fn lemma_kept_node(
    w0: Weather,
    period: usize,
    n0: Node,
    base: int,
    q: Seq<ValleyPath>,
    seen: Set<Node>,
    gone: Map<Node, int>,
    target: Coord,
    most: int,
    i: int,
)
    requires
        kept(w0, period, n0, base, q, seen, gone, target, most),
        0 <= i < q.len(),
    ensures
        is_node(w0, period, node_of(q[i])),
        w0.width >= 1,
        w0.height >= 1,
{
    reveal(kept);
    assert(is_way(w0, period, q[i], most));
}

/// A way can go on to five places at most.
pub proof fn lemma_places_few(next: Weather, c: Coord)
    ensures
        next_places(next, c).len() <= 5,
{
    lemma_free_around_len(next, c, 5);
}

/// Whether a search keeps what it keeps, holds notes of the nodes gone
/// on from, and has ways enough to look at: six for each node not gone
/// on from and one for each way that waits.
#[verifier::opaque]
pub open spec fn provided(
    w0: Weather,
    period: usize,
    n0: Node,
    base: int,
    q: Seq<ValleyPath>,
    seen: Set<Node>,
    gone: Map<Node, int>,
    marks: Seq<bool>,
    target: Coord,
    most: int,
    fuel: nat,
) -> bool {
    &&& kept(w0, period, n0, base, q, seen, gone, target, most)
    &&& noted(w0, period, marks, seen)
    &&& q.len() + 6 * blank_cells(marks, marks.len()) <= fuel
    &&& most + fuel <= usize::MAX
    &&& most + fuel <= i64::MAX
}

/// While a route leads from `n0` to `target`, a way waits in a search
/// provided for.
pub proof fn lemma_provided_waits(
    w0: Weather,
    period: usize,
    n0: Node,
    base: int,
    q: Seq<ValleyPath>,
    seen: Set<Node>,
    gone: Map<Node, int>,
    marks: Seq<bool>,
    target: Coord,
    most: int,
    fuel: nat,
    idx: usize,
    k: int,
)
    requires
        provided(w0, period, n0, base, q, seen, gone, marks, target, most, fuel),
        comes_to(w0, period, n0, (target, idx), k),
    ensures
        q.len() >= 1,
        fuel >= 1,
{
    reveal(provided);
    lemma_one_waits(w0, period, n0, base, q, seen, gone, target, most, idx, k);
}

/// A search provided for is provided for after it has left out a way
/// whose node has been gone on from.
pub proof fn lemma_provided_less(
    w0: Weather,
    period: usize,
    n0: Node,
    base: int,
    q: Seq<ValleyPath>,
    seen: Set<Node>,
    gone: Map<Node, int>,
    marks: Seq<bool>,
    target: Coord,
    most: int,
    fuel: nat,
    i: int,
)
    requires
        provided(w0, period, n0, base, q, seen, gone, marks, target, most, fuel),
        0 <= i < q.len(),
        seen.contains(node_of(q[i])),
    ensures
        provided(
            w0,
            period,
            n0,
            base,
            q.remove(i),
            seen,
            gone,
            marks,
            target,
            most,
            (fuel - 1) as nat,
        ),
{
    reveal(provided);
    lemma_kept_less(w0, period, n0, base, q, seen, gone, target, most, i);
}

/// A search provided for is provided for after it has gone on from the
/// first way of least rank and found that it does not lead to `target`.
pub proof fn lemma_provided_more(
    w0: Weather,
    period: usize,
    n0: Node,
    base: int,
    q: Seq<ValleyPath>,
    seen: Set<Node>,
    gone: Map<Node, int>,
    marks: Seq<bool>,
    target: Coord,
    toward_end: bool,
    most: int,
    fuel: nat,
)
    requires
        provided(w0, period, n0, base, q, seen, gone, marks, target, most, fuel),
        q.len() >= 1,
        !seen.contains(node_of(q[first_least(q, toward_end, q.len())])),
        !leads_to(w0, node_of(q[first_least(q, toward_end, q.len())]), target),
    ensures
        ({
            let i = first_least(q, toward_end, q.len());
            let best = q[i];
            let places = next_places(w0.after((best.state_index + 1) as nat), best.coord);
            let idx = ((best.state_index + 1) % (period as int)) as usize;
            provided(
                w0,
                period,
                n0,
                base,
                q.remove(i) + ways(places, (best.walked + 1) as usize, idx),
                seen.insert(node_of(best)),
                gone.insert(node_of(best), best.walked as int),
                marks.update(place_of_node(w0, node_of(best)), true),
                target,
                most + 1,
                (fuel - 1) as nat,
            )
        }),
{
    reveal(provided);
    lemma_first_least(q, toward_end, q.len());
    let i = first_least(q, toward_end, q.len());
    let best = q[i];
    let nb = node_of(best);
    let next = w0.after((best.state_index + 1) as nat);
    let places = next_places(next, best.coord);
    let idx = ((best.state_index + 1) % (period as int)) as usize;
    let more = ways(places, (best.walked + 1) as usize, idx);
    lemma_kept_node(w0, period, n0, base, q, seen, gone, target, most, i);
    lemma_kept_more(w0, period, n0, base, q, seen, gone, target, toward_end, most);
    lemma_noted_more(w0, period, marks, seen, nb);
    lemma_places_few(next, best.coord);
    assert((q.remove(i) + more).len() == q.len() - 1 + places.len());
}

/// A search provided for finds a way wherever a route leads from `n0`
/// to `target`.
pub proof fn lemma_search_arrives(
    w0: Weather,
    period: usize,
    n0: Node,
    base: int,
    q: Seq<ValleyPath>,
    seen: Set<Node>,
    gone: Map<Node, int>,
    marks: Seq<bool>,
    target: Coord,
    toward_end: bool,
    most: int,
    fuel: nat,
    idx: usize,
    k: int,
)
    requires
        provided(w0, period, n0, base, q, seen, gone, marks, target, most, fuel),
        comes_to(w0, period, n0, (target, idx), k),
    ensures
        search(w0, period, q, seen, target, toward_end, fuel) is Some,
    decreases fuel,
{
    lemma_provided_waits(w0, period, n0, base, q, seen, gone, marks, target, most, fuel, idx, k);
    lemma_first_least(q, toward_end, q.len());
    let i = first_least(q, toward_end, q.len());
    let best = q[i];
    let nb = node_of(best);
    let rest = q.remove(i);
    if seen.contains(nb) {
        lemma_provided_less(w0, period, n0, base, q, seen, gone, marks, target, most, fuel, i);
        lemma_search_arrives(
            w0,
            period,
            n0,
            base,
            rest,
            seen,
            gone,
            marks,
            target,
            toward_end,
            most,
            (fuel - 1) as nat,
            idx,
            k,
        );
    } else {
        let places = next_places(w0.after((best.state_index + 1) as nat), best.coord);
        let to = ((best.state_index + 1) % (period as int)) as usize;
        let on = (best.walked + 1) as usize;
        if !places.contains(target) {
            lemma_provided_more(
                w0,
                period,
                n0,
                base,
                q,
                seen,
                gone,
                marks,
                target,
                toward_end,
                most,
                fuel,
            );
            lemma_search_arrives(
                w0,
                period,
                n0,
                base,
                rest + ways(places, on, to),
                seen.insert(nb),
                gone.insert(nb, best.walked as int),
                marks.update(place_of_node(w0, nb), true),
                target,
                toward_end,
                most + 1,
                (fuel - 1) as nat,
                idx,
                k,
            );
        }
    }
}

/// A search from the way `init` alone finds a way to `target` wherever a
/// route leads there from the node of `init`.
pub proof fn lemma_search_finds(
    w0: Weather,
    period: usize,
    init: ValleyPath,
    target: Coord,
    toward_end: bool,
    idx: usize,
    k: int,
)
    requires
        is_crossing(w0, period, target),
        can_search(w0, period, init.walked),
        is_way(w0, period, init, init.walked as int),
        init.coord != target,
        comes_to(w0, period, node_of(init), (target, idx), k),
    ensures
        search(w0, period, seq![init], Set::empty(), target, toward_end, search_bound(w0, period))
            is Some,
{
    reveal(kept);
    let from = node_of(init);
    let base = init.walked as int;
    let q = seq![init];
    let seen = Set::<Node>::empty();
    let gone = Map::<Node, int>::empty();
    let only = seq![from];
    assert(is_route(w0, period, only) && only.len() == 1 && only[0] == from);
    assert(comes_to(w0, period, from, from, 0));
    assert(node_of(q[0]) == from && q[0].walked <= base);
    assert(kept(w0, period, from, base, q, seen, gone, target, base));
    assert(0 <= w0.width * w0.height * period) by (nonlinear_arith)
        requires
            0 <= w0.width,
            0 <= w0.height,
            0 <= period,
    ;
    let all = (w0.width * w0.height * period) as nat;
    let marks = Seq::new(all, |i: int| false);
    lemma_blank_all(marks, all);
    assert forall|n: Node|
        #![trigger seen.contains(n)]
        is_node(w0, period, n) implies marks[place_of_node(w0, n)] == seen.contains(n) by {
        lemma_place_of_node(w0, period, n, n);
    }
    reveal(provided);
    reveal(noted);
    lemma_search_arrives(
        w0,
        period,
        from,
        base,
        q,
        seen,
        gone,
        marks,
        target,
        toward_end,
        base,
        search_bound(w0, period),
        idx,
        k,
    );
}


/// Whether the valley has walls round its ground and none on it, and its
/// two gaps in the first and the last row.
pub open spec fn is_open_valley(w0: Weather) -> bool {
    &&& w0.width >= 3
    &&& w0.height >= 3
    &&& w0.cells.len() == w0.width * w0.height
    &&& 1 <= w0.start.0 < w0.width - 1
    &&& w0.start.1 == 0
    &&& 1 <= w0.end.0 < w0.width - 1
    &&& w0.end.1 == w0.height - 1
    &&& forall|x: int, y: int| w0.inner(x, y) ==> #[trigger] w0.tile(x, y) != Tile::Wall
}

/// The blizzards of the tile at `(x, y)`; none where it is a wall.
pub open spec fn blizzards_at(w: Weather, x: int, y: int) -> Blizzard {
    match w.tile(x, y) {
        Tile::Bliz(b) => b,
        Tile::Wall => Blizzard { up: false, down: false, left: false, right: false },
    }
}

/// The place `n` places on from place `v` of the places 1 to `m`, round
/// from the last to the first; back where `n` is below 0.
pub open spec fn turned(v: int, n: int, m: int) -> int {
    (v - 1 + n) % m + 1
}

/// One place on and one place back, and that turning twice is turning
/// once by the sum.
pub proof fn lemma_turned(v: int, a: int, b: int, m: int)
    requires
        m >= 1,
        1 <= v <= m,
    ensures
        1 <= turned(v, a, m) <= m,
        turned(v, 0, m) == v,
        turned(v, 1, m) == if v == m {
            1
        } else {
            v + 1
        },
        turned(v, -1, m) == if v == 1 {
            m
        } else {
            v - 1
        },
        turned(turned(v, a, m), b, m) == turned(v, a + b, m),
{
    vstd::arithmetic::div_mod::lemma_mod_bound(v - 1 + a, m);
    vstd::arithmetic::div_mod::lemma_small_mod((v - 1) as nat, m as nat);
    if v == m {
        vstd::arithmetic::div_mod::lemma_mod_self_0(m);
    } else {
        vstd::arithmetic::div_mod::lemma_small_mod(v as nat, m as nat);
    }
    if v == 1 {
        vstd::arithmetic::div_mod::lemma_mod_multiples_vanish(-1, m - 1, m);
        vstd::arithmetic::div_mod::lemma_small_mod((m - 1) as nat, m as nat);
        assert(m * (-1) + (m - 1) == -1);
    } else {
        vstd::arithmetic::div_mod::lemma_small_mod((v - 2) as nat, m as nat);
    }
    let t = v - 1 + a;
    vstd::arithmetic::div_mod::lemma_fundamental_div_mod(t, m);
    vstd::arithmetic::div_mod::lemma_mod_multiples_vanish(-(t / m), t + b, m);
    assert(m * (-(t / m)) + (t + b) == t % m + b) by (nonlinear_arith)
        requires
            t == m * (t / m) + t % m,
    ;
}

/// Turning by a multiple of the places more changes nothing.
pub proof fn lemma_turned_round(v: int, n: int, whole: int, m: int)
    requires
        m >= 1,
        whole % m == 0,
    ensures
        turned(v, n + whole, m) == turned(v, n, m),
        turned(v, -(n + whole), m) == turned(v, -n, m),
{
    vstd::arithmetic::div_mod::lemma_fundamental_div_mod(whole, m);
    let k = whole / m;
    vstd::arithmetic::div_mod::lemma_mod_multiples_vanish(k, v - 1 + n, m);
    vstd::arithmetic::div_mod::lemma_mod_multiples_vanish(-k, v - 1 - n, m);
    assert(m * k + (v - 1 + n) == v - 1 + (n + whole));
    assert(m * (-k) + (v - 1 - n) == v - 1 + (-(n + whole))) by (nonlinear_arith)
        requires
            whole == m * k,
    ;
}

/// The tile at `(x, y)` of the valley a minute on is its next tile.
pub proof fn lemma_tile_next(w: Weather, x: int, y: int)
    requires
        w.cells.len() == w.width * w.height,
        0 <= x < w.width,
        0 <= y < w.height,
    ensures
        w.next().tile(x, y) == w.next_tile(x, y),
{
    lemma_index_in_bounds(x, y, w.width, w.height);
    vstd::arithmetic::div_mod::lemma_fundamental_div_mod_converse(y * w.width + x, w.width, y, x);
}

/// The tile on the ground at `(x, y)` after `n` minutes, in a valley
/// without walls on its ground: the blizzards that were as many places
/// away as they have gone since, each against its direction.
pub open spec fn ground_tile(w0: Weather, n: int, x: int, y: int) -> Tile {
    Tile::Bliz(
        Blizzard {
            up: blizzards_at(w0, x, turned(y, n, w0.height - 2)).up,
            down: blizzards_at(w0, x, turned(y, -n, w0.height - 2)).down,
            left: blizzards_at(w0, turned(x, n, w0.width - 2), y).left,
            right: blizzards_at(w0, turned(x, -n, w0.width - 2), y).right,
        },
    )
}

/// After `n` minutes the ground of a valley without walls on it holds
/// the blizzards that have come there round the walls.
pub proof fn lemma_ground_after(w0: Weather, n: nat, x: int, y: int)
    requires
        is_open_valley(w0),
        w0.inner(x, y),
    ensures
        w0.after(n).tile(x, y) == ground_tile(w0, n as int, x, y),
    decreases n,
{
    let mx = w0.width - 2;
    let my = w0.height - 2;
    if n == 0 {
        lemma_turned(x, 0, 0, mx);
        lemma_turned(y, 0, 0, my);
        assert(w0.tile(x, y) != Tile::Wall);
    } else {
        let before = (n - 1) as nat;
        let w = w0.after(before);
        w0.lemma_after(before);
        lemma_tile_next(w, x, y);
        lemma_turned(x, 1, before as int, mx);
        lemma_turned(x, -1, -(before as int), mx);
        lemma_turned(y, 1, before as int, my);
        lemma_turned(y, -1, -(before as int), my);
        let xl = turned(x, 1, mx);
        let xr = turned(x, -1, mx);
        let yu = turned(y, 1, my);
        let yd = turned(y, -1, my);
        lemma_ground_after(w0, before, x, y);
        lemma_ground_after(w0, before, x, yu);
        lemma_ground_after(w0, before, x, yd);
        lemma_ground_after(w0, before, xl, y);
        lemma_ground_after(w0, before, xr, y);
        assert(w.wrap_x(x) == x && w.wrap_y(y) == y);
        assert(w.wrap_y(y + 1) == yu);
        assert(w.wrap_y(y - 1) == yd);
        assert(w.wrap_x(x + 1) == xl);
        assert(w.wrap_x(x - 1) == xr);
        assert(w.coming_from(x, y + 1) == blizzards_at(w, x, yu));
        assert(w.coming_from(x, y - 1) == blizzards_at(w, x, yd));
        assert(w.coming_from(x + 1, y) == blizzards_at(w, xl, y));
        assert(w.coming_from(x - 1, y) == blizzards_at(w, xr, y));
    }
}

/// The weather of a valley without walls on its ground repeats itself:
/// from the first minute on, the valley is after the least common
/// multiple of the sides of its ground more minutes as it was.
pub proof fn lemma_weather_repeats(w0: Weather, n: nat)
    requires
        is_open_valley(w0),
        n >= 1,
    ensures
        w0.after(n + lcm((w0.width - 2) as nat, (w0.height - 2) as nat)) == w0.after(n),
{
    let mx = w0.width - 2;
    let my = w0.height - 2;
    let whole = lcm(mx as nat, my as nat);
    lemma_lcm_multiple(mx as nat, my as nat);
    let a = w0.after(n);
    let b = w0.after(n + whole);
    w0.lemma_after(n);
    w0.lemma_after(n + whole);
    w0.lemma_after((n - 1) as nat);
    w0.lemma_after((n + whole - 1) as nat);
    assert forall|i: int| 0 <= i < a.cells.len() implies a.cells[i] == b.cells[i] by {
        let x = i % w0.width;
        let y = i / w0.width;
        vstd::arithmetic::div_mod::lemma_fundamental_div_mod(i, w0.width);
        vstd::arithmetic::div_mod::lemma_mod_bound(i, w0.width);
        vstd::arithmetic::div_mod::lemma_div_pos_is_pos(i, w0.width);
        assert(y * w0.width == w0.width * y) by (nonlinear_arith);
        assert(y < w0.height) by (nonlinear_arith)
            requires
                i == w0.width * y + x,
                i < w0.width * w0.height,
                0 <= x,
                0 < w0.width,
        ;
        assert(a.cells[i] == a.tile(x, y));
        assert(b.cells[i] == b.tile(x, y));
        if w0.inner(x, y) {
            lemma_ground_after(w0, n, x, y);
            lemma_ground_after(w0, n + whole, x, y);
            lemma_turned_round(x, n as int, whole as int, mx);
            lemma_turned_round(y, n as int, whole as int, my);
        } else {
            lemma_tile_next(w0.after((n - 1) as nat), x, y);
            lemma_tile_next(w0.after((n + whole - 1) as nat), x, y);
        }
    }
    assert(a.cells =~= b.cells);
}


/// In a valley without walls on its ground the weather of a minute is
/// the weather of the state that the minute falls on.
pub proof fn lemma_weather_of_state(w0: Weather, period: nat, t: nat)
    requires
        is_open_valley(w0),
        period == lcm((w0.width - 2) as nat, (w0.height - 2) as nat),
    ensures
        period >= 1,
        w0.after(t + 1) == w0.after(t % period + 1),
    decreases t,
{
    lemma_lcm_multiple((w0.width - 2) as nat, (w0.height - 2) as nat);
    if t < period {
        vstd::arithmetic::div_mod::lemma_small_mod(t, period);
    } else {
        let before = (t - period) as nat;
        lemma_weather_of_state(w0, period, before);
        lemma_weather_repeats(w0, before + 1);
        vstd::arithmetic::div_mod::lemma_mod_multiples_vanish(1, before as int, period as int);
        assert(period * 1 + before == t);
    }
}

/// Whether one can walk through the places `c`, a minute from each to
/// the next, and be at the first of them at the minute `from`.
pub open spec fn is_walk(w0: Weather, c: Seq<Coord>, from: nat) -> bool {
    &&& c.len() >= 1
    &&& forall|i: int|
        0 <= i < c.len() - 1 ==> next_places(w0.after((from + i + 1) as nat), #[trigger] c[i]).contains(
            c[i + 1],
        )
}

/// In a valley without walls on its ground no walk is quicker than the
/// way that a search finds: a walk from where `init` ends, begun at the
/// minute that `init` has come to, takes as many minutes to `target` as
/// the way found has steps more than `init`, or more.
pub proof fn lemma_no_quicker_walk(
    w0: Weather,
    period: usize,
    init: ValleyPath,
    target: Coord,
    toward_end: bool,
    c: Seq<Coord>,
)
    requires
        is_open_valley(w0),
        period == lcm((w0.width - 2) as nat, (w0.height - 2) as nat),
        ((target.0 as int, target.1 as int) == w0.start || (target.0 as int, target.1 as int)
            == w0.end),
        can_search(w0, period, init.walked),
        is_way(w0, period, init, init.walked as int),
        init.coord != target,
        init.state_index == (init.walked as int) % (period as int),
        search(w0, period, seq![init], Set::empty(), target, toward_end, search_bound(w0, period))
            is Some,
        is_walk(w0, c, init.walked as nat),
        c[0] == init.coord,
        c[c.len() - 1] == target,
    ensures
        search(
            w0,
            period,
            seq![init],
            Set::empty(),
            target,
            toward_end,
            search_bound(w0, period),
        )->0.walked - init.walked <= c.len() - 1,
{
    let m = period as int;
    let r = Seq::new(c.len(), |i: int| (c[i], ((init.walked + i) % m) as usize));
    assert forall|i: int| 0 <= i < r.len() - 1 implies can_go(w0, period, #[trigger] r[i], r[i + 1]) by {
        let t: int = init.walked + i;
        lemma_weather_of_state(w0, period as nat, t as nat);
        vstd::arithmetic::div_mod::lemma_mod_bound(t, m);
        vstd::arithmetic::div_mod::lemma_mod_bound(t + 1, m);
        vstd::arithmetic::div_mod::lemma_fundamental_div_mod(t, m);
        vstd::arithmetic::div_mod::lemma_mod_multiples_vanish(-(t / m), t + 1, m);
        assert(m * (-(t / m)) + (t + 1) == t % m + 1) by (nonlinear_arith)
            requires
                t == m * (t / m) + t % m,
        ;
        assert(next_places(w0.after((init.walked + i + 1) as nat), c[i]).contains(c[i + 1]));
        assert(w0.after((t + 1) as nat) == w0.after((r[i].1 + 1) as nat));
    }
    let last = c.len() - 1;
    assert(is_route(w0, period, r) && r.len() == last + 1 && r[0] == node_of(init) && r[last] == (
        target,
        r[last].1,
    ));
    assert(comes_to(w0, period, node_of(init), (target, r[last].1), last));
    lemma_search_quickest(w0, period, init, target, toward_end);
}

/// No walk through a valley without walls on its ground is quicker than
/// the crossing that the first search finds: a walk from the first gap,
/// begun at the minute 0, takes as many minutes to the last gap, or more.
pub proof fn lemma_crossing_least(s: Seq<u8>, c: Seq<Coord>)
    requires
        can_cross(s),
        is_open_valley(weather_of(s)),
        lcm((weather_of(s).width - 2) as nat, (weather_of(s).height - 2) as nat) <= usize::MAX,
        is_walk(weather_of(s), c, 0),
        c[0] == (1usize, 0usize),
        c[c.len() - 1] == (weather_of(s).end.0 as usize, weather_of(s).end.1 as usize),
    ensures
        crossing(s).walked <= c.len() - 1,
{
    let w0 = weather_of(s);
    let end = (w0.end.0 as usize, w0.end.1 as usize);
    vstd::arithmetic::div_mod::lemma_small_mod(0, period_of(w0) as nat);
    lemma_no_quicker_walk(w0, period_of(w0), way((1, 0), 0, 0), end, true, c);
}

} // verus!
