//! A walk over a board with walls, whose edges lead round to other edges.

use crate::text::{cut_once, lines, lines_of, parse_i32, parse_int, split_once, trim, trimmed, views};
use crate::y2022::grid::{filled, Grid};
use vstd::prelude::*;
use vstd::string::*;

verus! {

#[derive(Debug, PartialEq, Eq, Clone, Copy, Structural)]
pub enum Tile {
    Open,
    Wall,
    Empty,
}

/// The tile that a character of the map stands for.
pub open spec fn tile_of(c: char) -> Tile {
    if c == ' ' {
        Tile::Empty
    } else if c == '.' {
        Tile::Open
    } else {
        Tile::Wall
    }
}

impl Tile {
    /// The tile that one of the characters ` `, `.`, `#` stands for.
    pub fn from_char(c: char) -> (r: Self)
        requires
            c == ' ' || c == '.' || c == '#',
        ensures
            r == tile_of(c),
    {
        if c == ' ' {
            Self::Empty
        } else if c == '.' {
            Self::Open
        } else {
            Self::Wall
        }
    }

    pub fn is_empty(&self) -> (r: bool)
        ensures
            r == (*self == Tile::Empty),
    {
        *self == Tile::Empty
    }

    pub fn is_wall(&self) -> (r: bool)
        ensures
            r == (*self == Tile::Wall),
    {
        *self == Tile::Wall
    }

    pub fn is_open(&self) -> (r: bool)
        ensures
            r == (*self == Tile::Open),
    {
        *self == Tile::Open
    }
}

#[derive(Debug, PartialEq, Eq, Clone, Copy, Structural)]
pub enum Turn {
    Clockwise,
    Counterclockwise,
}

impl Turn {
    /// The turn that one of the letters `R`, `L` names.
    pub fn from_char(c: char) -> (r: Self)
        requires
            c == 'R' || c == 'L',
        ensures
            r == if c == 'R' {
                Turn::Clockwise
            } else {
                Turn::Counterclockwise
            },
    {
        if c == 'R' {
            Self::Clockwise
        } else {
            Self::Counterclockwise
        }
    }
}

/// A direction on the board; up is towards row 0.
#[derive(Debug, PartialEq, Eq, Clone, Copy, Structural)]
pub enum Dir {
    Left,
    Right,
    Up,
    Down,
}

impl Dir {
    /// The direction after a quarter turn.
    pub open spec fn spec_turn(self, t: Turn) -> Dir {
        match (t, self) {
            (Turn::Clockwise, Dir::Left) => Dir::Up,
            (Turn::Clockwise, Dir::Right) => Dir::Down,
            (Turn::Clockwise, Dir::Up) => Dir::Right,
            (Turn::Clockwise, Dir::Down) => Dir::Left,
            (Turn::Counterclockwise, Dir::Left) => Dir::Down,
            (Turn::Counterclockwise, Dir::Right) => Dir::Up,
            (Turn::Counterclockwise, Dir::Up) => Dir::Left,
            (Turn::Counterclockwise, Dir::Down) => Dir::Right,
        }
    }

    pub fn turn(&self, t: Turn) -> (r: Self)
        ensures
            r == self.spec_turn(t),
    {
        match t {
            Turn::Clockwise => match self {
                Self::Left => Self::Up,
                Self::Right => Self::Down,
                Self::Up => Self::Right,
                Self::Down => Self::Left,
            },
            Turn::Counterclockwise => match self {
                Self::Left => Self::Down,
                Self::Right => Self::Up,
                Self::Up => Self::Left,
                Self::Down => Self::Right,
            },
        }
    }
}

/// The quarter turns form a cycle of four: a turn one way undoes a turn
/// the other way, two turns one way are two turns the other way, and four
/// turns lead back.
pub proof fn lemma_turns(d: Dir, t: Turn)
    ensures
        d.spec_turn(Turn::Clockwise).spec_turn(Turn::Counterclockwise) == d,
        d.spec_turn(Turn::Counterclockwise).spec_turn(Turn::Clockwise) == d,
        d.spec_turn(t) != d,
        d.spec_turn(t).spec_turn(t) != d,
        d.spec_turn(t).spec_turn(t).spec_turn(t) != d,
        d.spec_turn(t).spec_turn(t).spec_turn(t).spec_turn(t) == d,
        d.spec_turn(Turn::Clockwise).spec_turn(Turn::Clockwise) == d.spec_turn(
            Turn::Counterclockwise,
        ).spec_turn(Turn::Counterclockwise),
{
}

/// Whether the next command is a turn or a walk.
#[derive(Debug, PartialEq, Eq, Clone, Copy, Structural)]
pub enum Alternate {
    Turn,
    Forward,
}

impl Alternate {
    /// The other of the two.
    pub fn switch(&self) -> (r: Self)
        ensures
            r != *self,
    {
        match self {
            Self::Turn => Self::Forward,
            Self::Forward => Self::Turn,
        }
    }
}


pub type Coord = (usize, usize);

/// Where a step over an edge leads, and the direction one faces there.
pub type Warp = (Coord, Dir);

/// A board: its tiles, for each row and each column where a step off its
/// two ends leads, and the place and direction of the walker.
pub struct Board {
    pub grid: Grid<Tile>,
    pub line_warp: Vec<(Option<Warp>, Option<Warp>)>,
    pub column_warp: Vec<(Option<Warp>, Option<Warp>)>,
    pub coord: (usize, usize),
    pub dir: Dir,
}

/// The column to which a warp leads.
pub open spec fn warp_x(w: Warp) -> int {
    let c = w.0;
    c.0 as int
}

/// The row to which a warp leads.
pub open spec fn warp_y(w: Warp) -> int {
    let c = w.0;
    c.1 as int
}

/// What decides a step: the tile ahead, if there is one on the grid, and
/// the warp for stepping off that end of the row or column.
pub open spec fn step_rule(ahead: Option<(Coord, Tile)>, warp: Option<Warp>, dir: Dir) -> Option<
    Warp,
> {
    match warp {
        Some(w) => match ahead {
            None => Some(w),
            Some((c, t)) => if t == Tile::Empty {
                Some(w)
            } else if t == Tile::Wall {
                None
            } else {
                Some((c, dir))
            },
        },
        None => match ahead {
            None => None,
            Some((c, t)) => if t == Tile::Open {
                Some((c, dir))
            } else {
                None
            },
        },
    }
}

impl Board {
    /// There is a warp entry for every row and column, the walker stands
    /// on the grid, and every warp leads to an open tile.
    pub open spec fn wf(&self) -> bool {
        &&& self.grid.wf()
        &&& self.grid.width >= 1
        &&& self.grid.height >= 1
        &&& self.line_warp@.len() >= self.grid.height
        &&& self.column_warp@.len() >= self.grid.width
        &&& self.grid.inside(self.coord.0 as int, self.coord.1 as int)
        &&& forall|i: int|
            0 <= i < self.line_warp@.len() ==> self.lands_open((#[trigger] self.line_warp@[i]).0)
                && self.lands_open(self.line_warp@[i].1)
        &&& forall|i: int|
            0 <= i < self.column_warp@.len() ==> self.lands_open(
                (#[trigger] self.column_warp@[i]).0,
            ) && self.lands_open(self.column_warp@[i].1)
    }

    /// Whether the warp, if there is one, leads to an open tile.
    pub open spec fn lands_open(&self, w: Option<Warp>) -> bool {
        match w {
            Some((c, d)) => self.grid.inside(c.0 as int, c.1 as int) && self.grid.cell(
                c.0 as int,
                c.1 as int,
            ) == Tile::Open,
            None => true,
        }
    }

    /// The tile one step from `(x, y)` towards `dir`, if the grid has one
    /// there.
    pub open spec fn ahead(&self, x: int, y: int, dir: Dir) -> Option<(Coord, Tile)> {
        let nx = match dir {
            Dir::Left => x - 1,
            Dir::Right => x + 1,
            _ => x,
        };
        let ny = match dir {
            Dir::Up => y - 1,
            Dir::Down => y + 1,
            _ => y,
        };
        if self.grid.inside(nx, ny) {
            Some(((nx as usize, ny as usize), self.grid.cell(nx, ny)))
        } else {
            None
        }
    }

    /// The warp for stepping off the row of `y` or the column of `x`
    /// towards `dir`.
    pub open spec fn warp_for(&self, x: int, y: int, dir: Dir) -> Option<Warp> {
        match dir {
            Dir::Left => self.line_warp@[y].1,
            Dir::Right => self.line_warp@[y].0,
            Dir::Up => self.column_warp@[x].1,
            Dir::Down => self.column_warp@[x].0,
        }
    }

    /// Where a step from `(x, y)` towards `dir` leads, and the direction
    /// faced there; `None` where a wall is in the way. Where a warp is
    /// set, a step off the grid or onto an empty tile takes it; where none
    /// is set, only a step onto an open tile can be made.
    pub open spec fn spec_coord_forward(&self, x: int, y: int, dir: Dir) -> Option<Warp> {
        step_rule(self.ahead(x, y, dir), self.warp_for(x, y, dir), dir)
    }

    /// The place and direction after `n` steps forward from `from`, as far
    /// as no wall is in the way.
    pub open spec fn walk_from(&self, from: Warp, n: nat) -> Warp
        decreases n,
    {
        if n == 0 {
            from
        } else {
            let before = self.walk_from(from, (n - 1) as nat);
            match self.spec_coord_forward(warp_x(before), warp_y(before), before.1) {
                Some(w) => w,
                None => before,
            }
        }
    }

    /// The place and direction of the walker after `n` steps forward.
    pub open spec fn walked(&self, n: nat) -> Warp {
        self.walk_from((self.coord, self.dir), n)
    }

    /// Turns the walker.
    pub fn turn(&mut self, t: Turn)
        ensures
            final(self).dir == old(self).dir.spec_turn(t),
            final(self).coord == old(self).coord,
            final(self).grid == old(self).grid,
            final(self).line_warp == old(self).line_warp,
            final(self).column_warp == old(self).column_warp,
    {
        self.dir = self.dir.turn(t)
    }

    /// Where a step from `(x, y)` towards `dir` leads.
    pub fn coord_forward(&self, x: usize, y: usize, dir: Dir) -> (r: Option<(Coord, Dir)>)
        requires
            self.wf(),
            self.grid.inside(x as int, y as int),
        ensures
            r == self.spec_coord_forward(x as int, y as int, dir),
            r is Some ==> self.grid.inside(warp_x(r->0), warp_y(r->0)) && self.grid.cell(
                warp_x(r->0),
                warp_y(r->0),
            ) == Tile::Open,
    {
        match dir {
            Dir::Left => match self.line_warp[y] {
                (_, Some(wr)) => {
                    if x == 0 || self.grid.get_unchecked(x - 1, y).is_empty() {
                        Some(wr)
                    } else if self.grid.get_unchecked(x - 1, y).is_wall() {
                        None
                    } else {
                        Some(((x - 1, y), dir))
                    }
                },
                (_, None) => {
                    if x == 0 || !self.grid.get_unchecked(x - 1, y).is_open() {
                        None
                    } else {
                        Some(((x - 1, y), dir))
                    }
                },
            },
            Dir::Right => match self.line_warp[y] {
                (Some(wl), _) => {
                    if x == self.grid.width - 1 || self.grid.get_unchecked(x + 1, y).is_empty() {
                        Some(wl)
                    } else if self.grid.get_unchecked(x + 1, y).is_wall() {
                        None
                    } else {
                        Some(((x + 1, y), dir))
                    }
                },
                (None, _) => {
                    if x == self.grid.width - 1 || !self.grid.get_unchecked(x + 1, y).is_open() {
                        None
                    } else {
                        Some(((x + 1, y), dir))
                    }
                },
            },
            Dir::Up => match self.column_warp[x] {
                (_, Some(wd)) => {
                    if y == 0 || self.grid.get_unchecked(x, y - 1).is_empty() {
                        Some(wd)
                    } else if self.grid.get_unchecked(x, y - 1).is_wall() {
                        None
                    } else {
                        Some(((x, y - 1), dir))
                    }
                },
                (_, None) => {
                    if y == 0 || !self.grid.get_unchecked(x, y - 1).is_open() {
                        None
                    } else {
                        Some(((x, y - 1), dir))
                    }
                },
            },
            Dir::Down => match self.column_warp[x] {
                (Some(wu), _) => {
                    if y == self.grid.height - 1 || self.grid.get_unchecked(x, y + 1).is_empty() {
                        Some(wu)
                    } else if self.grid.get_unchecked(x, y + 1).is_wall() {
                        None
                    } else {
                        Some(((x, y + 1), dir))
                    }
                },
                (None, _) => {
                    if y == self.grid.height - 1 || !self.grid.get_unchecked(x, y + 1).is_open() {
                        None
                    } else {
                        Some(((x, y + 1), dir))
                    }
                },
            },
        }
    }

    /// Walks `n` steps forward, or as many as can be made before a wall.
    pub fn forward(&mut self, n: i32)
        requires
            old(self).wf(),
        ensures
            final(self).wf(),
            final(self).grid == old(self).grid,
            final(self).line_warp == old(self).line_warp,
            final(self).column_warp == old(self).column_warp,
            (final(self).coord, final(self).dir) == old(self).walked(
                if n > 0 {
                    n as nat
                } else {
                    0
                },
            ),
    {
        let ghost b0 = *self;
        let mut i: i32 = 0;
        while i < n
            invariant
                0 <= i,
                i <= n || (n < 0 && i == 0),
                self.wf(),
                self.grid == b0.grid,
                self.line_warp == b0.line_warp,
                self.column_warp == b0.column_warp,
                b0 == *old(self),
                (self.coord, self.dir) == b0.walked(i as nat),
            ensures
                self.wf(),
                self.grid == b0.grid,
                self.line_warp == b0.line_warp,
                self.column_warp == b0.column_warp,
                (self.coord, self.dir) == b0.walked(
                    if n > 0 {
                        n as nat
                    } else {
                        0
                    },
                ),
            decreases n - i,
        {
            match self.coord_forward(self.coord.0, self.coord.1, self.dir) {
                Some(c) => {
                    proof {
                        assert(b0.spec_coord_forward(
                            self.coord.0 as int,
                            self.coord.1 as int,
                            self.dir,
                        ) == self.spec_coord_forward(
                            self.coord.0 as int,
                            self.coord.1 as int,
                            self.dir,
                        ));
                    }
                    self.coord = c.0;
                    self.dir = c.1;
                },
                None => {
                    proof {
                        b0.lemma_stopped(i as nat, n as nat);
                    }
                    break ;
                },
            }
            i += 1;
        }
    }

    /// A walker that a wall has stopped stays where it is.
    pub proof fn lemma_stopped(&self, i: nat, n: nat)
        requires
            i <= n,
            self.spec_coord_forward(
                warp_x(self.walked(i)),
                warp_y(self.walked(i)),
                self.walked(i).1,
            ) is None,
        ensures
            self.walked(n) == self.walked(i),
        decreases n,
    {
        if i < n {
            self.lemma_stopped(i, (n - 1) as nat);
        }
    }

    /// Where a walk leads depends on the tiles and the warps alone.
    pub proof fn lemma_same_walk(&self, other: &Board, from: Warp, n: nat)
        requires
            self.grid == other.grid,
            self.line_warp == other.line_warp,
            self.column_warp == other.column_warp,
        ensures
            self.walk_from(from, n) == other.walk_from(from, n),
        decreases n,
    {
        if n > 0 {
            self.lemma_same_walk(other, from, (n - 1) as nat);
            let before = self.walk_from(from, (n - 1) as nat);
            assert(self.spec_coord_forward(warp_x(before), warp_y(before), before.1)
                == other.spec_coord_forward(warp_x(before), warp_y(before), before.1));
        }
    }
}


/// The tile of line `line` at place `k`: lines are columns if `vertical`
/// holds, else rows.
pub open spec fn line_tile(g: &Grid<Tile>, vertical: bool, line: int, k: int) -> Tile {
    if vertical {
        g.cell(line, k)
    } else {
        g.cell(k, line)
    }
}

/// The number of tiles of a row, or of a column.
pub open spec fn line_len(g: &Grid<Tile>, vertical: bool) -> int {
    if vertical {
        g.height as int
    } else {
        g.width as int
    }
}

/// The first place at or behind `i` on the line that is not empty; the
/// length of the line when there is none.
pub open spec fn first_tile(g: &Grid<Tile>, vertical: bool, line: int, i: int) -> int
    decreases line_len(g, vertical) - i,
{
    if i < 0 || i >= line_len(g, vertical) || line_tile(g, vertical, line, i) != Tile::Empty {
        i
    } else {
        first_tile(g, vertical, line, i + 1)
    }
}

/// The last place before `n` on the line that is not empty; -1 when there
/// is none.
pub open spec fn last_tile(g: &Grid<Tile>, vertical: bool, line: int, n: int) -> int
    decreases n,
{
    if n <= 0 || n > line_len(g, vertical) {
        -1
    } else if line_tile(g, vertical, line, n - 1) != Tile::Empty {
        n - 1
    } else {
        last_tile(g, vertical, line, n - 1)
    }
}

pub proof fn lemma_first_tile(g: &Grid<Tile>, vertical: bool, line: int, i: int)
    requires
        0 <= i <= line_len(g, vertical),
    ensures
        i <= first_tile(g, vertical, line, i) <= line_len(g, vertical),
        first_tile(g, vertical, line, i) < line_len(g, vertical) ==> line_tile(
            g,
            vertical,
            line,
            first_tile(g, vertical, line, i),
        ) != Tile::Empty,
    decreases line_len(g, vertical) - i,
{
    if i < line_len(g, vertical) && line_tile(g, vertical, line, i) == Tile::Empty {
        lemma_first_tile(g, vertical, line, i + 1);
    }
}

pub proof fn lemma_last_tile(g: &Grid<Tile>, vertical: bool, line: int, n: int)
    requires
        0 <= n <= line_len(g, vertical),
    ensures
        -1 <= last_tile(g, vertical, line, n) < n,
        last_tile(g, vertical, line, n) >= 0 ==> line_tile(
            g,
            vertical,
            line,
            last_tile(g, vertical, line, n),
        ) != Tile::Empty,
    decreases n,
{
    if n > 0 && line_tile(g, vertical, line, n - 1) == Tile::Empty {
        lemma_last_tile(g, vertical, line, n - 1);
    }
}

/// The last tile of a line does not lie before any tile of it.
pub proof fn lemma_last_not_before(g: &Grid<Tile>, vertical: bool, line: int, j: int, n: int)
    requires
        0 <= j < n <= line_len(g, vertical),
        line_tile(g, vertical, line, j) != Tile::Empty,
    ensures
        last_tile(g, vertical, line, n) >= j,
    decreases n,
{
    if line_tile(g, vertical, line, n - 1) == Tile::Empty {
        lemma_last_not_before(g, vertical, line, j, n - 1);
    }
}

/// The warps of a line that leads round onto itself: a step off its last
/// tile leads to its first and the other way round, unless one of the two
/// is a wall.
pub open spec fn round_warp(g: &Grid<Tile>, vertical: bool, line: int) -> (
    Option<Warp>,
    Option<Warp>,
) {
    let a = first_tile(g, vertical, line, 0);
    let b = last_tile(g, vertical, line, line_len(g, vertical));
    if line_tile(g, vertical, line, a) != Tile::Wall && line_tile(g, vertical, line, b)
        != Tile::Wall {
        if vertical {
            (
                Some(((line as usize, a as usize), Dir::Down)),
                Some(((line as usize, b as usize), Dir::Up)),
            )
        } else {
            (
                Some(((a as usize, line as usize), Dir::Right)),
                Some(((b as usize, line as usize), Dir::Left)),
            )
        }
    } else {
        (None, None)
    }
}

/// Whether the line has a tile that is not empty, and, if it is a column,
/// another one below it.
pub open spec fn has_tiles(g: &Grid<Tile>, vertical: bool, line: int) -> bool {
    let a = first_tile(g, vertical, line, 0);
    let b = last_tile(g, vertical, line, line_len(g, vertical));
    a < line_len(g, vertical) && (vertical ==> a < b)
}

/// The first place on the line that is not empty.
fn find_first(g: &Grid<Tile>, vertical: bool, line: usize) -> (r: usize)
    requires
        g.wf(),
        line < (if vertical {
            g.width
        } else {
            g.height
        }),
    ensures
        r == first_tile(g, vertical, line as int, 0),
        r <= line_len(g, vertical),
{
    let n = if vertical {
        g.height
    } else {
        g.width
    };
    let mut i: usize = 0;
    while i < n
        invariant
            g.wf(),
            i <= n,
            n == line_len(g, vertical),
            line < (if vertical {
                g.width
            } else {
                g.height
            }),
            first_tile(g, vertical, line as int, 0) == first_tile(g, vertical, line as int, i as int),
        decreases n - i,
    {
        let t = if vertical {
            *g.get_unchecked(line, i)
        } else {
            *g.get_unchecked(i, line)
        };
        if t != Tile::Empty {
            return i;
        }
        i += 1;
    }
    i
}

/// One more than the last place on the line that is not empty; 0 when
/// there is none.
fn find_last(g: &Grid<Tile>, vertical: bool, line: usize) -> (r: usize)
    requires
        g.wf(),
        line < (if vertical {
            g.width
        } else {
            g.height
        }),
    ensures
        r == last_tile(g, vertical, line as int, line_len(g, vertical)) + 1,
{
    let n = if vertical {
        g.height
    } else {
        g.width
    };
    let mut i: usize = n;
    while i > 0
        invariant
            g.wf(),
            i <= n,
            n == line_len(g, vertical),
            line < (if vertical {
                g.width
            } else {
                g.height
            }),
            last_tile(g, vertical, line as int, n as int) == last_tile(
                g,
                vertical,
                line as int,
                i as int,
            ),
        decreases i,
    {
        let t = if vertical {
            *g.get_unchecked(line, i - 1)
        } else {
            *g.get_unchecked(i - 1, line)
        };
        if t != Tile::Empty {
            return i;
        }
        i -= 1;
    }
    0
}

/// The warps of the rows, or of the columns, of a board whose lines lead
/// round onto themselves.
fn round_warps(g: &Grid<Tile>, vertical: bool) -> (r: Vec<(Option<Warp>, Option<Warp>)>)
    requires
        g.wf(),
        forall|line: int|
            0 <= line < (if vertical {
                g.width
            } else {
                g.height
            }) ==> #[trigger] has_tiles(g, vertical, line),
    ensures
        r@.len() == (if vertical {
            g.width
        } else {
            g.height
        }),
        forall|line: int| 0 <= line < r@.len() ==> #[trigger] r@[line] == round_warp(g, vertical, line),
{
    let count = if vertical {
        g.width
    } else {
        g.height
    };
    let mut out: Vec<(Option<Warp>, Option<Warp>)> = Vec::new();
    let mut line: usize = 0;
    while line < count
        invariant
            g.wf(),
            line <= count,
            count == (if vertical {
                g.width
            } else {
                g.height
            }),
            out@.len() == line,
            forall|k: int|
                0 <= k < count ==> #[trigger] has_tiles(g, vertical, k),
            forall|k: int| 0 <= k < line ==> #[trigger] out@[k] == round_warp(g, vertical, k),
        decreases count - line,
    {
        assert(has_tiles(g, vertical, line as int));
        let a = find_first(g, vertical, line);
        proof {
            lemma_first_tile(g, vertical, line as int, 0);
            lemma_last_not_before(g, vertical, line as int, a as int, line_len(g, vertical));
            lemma_last_tile(g, vertical, line as int, line_len(g, vertical));
        }
        let b = find_last(g, vertical, line) - 1;
        let ta = if vertical {
            *g.get_unchecked(line, a)
        } else {
            *g.get_unchecked(a, line)
        };
        let tb = if vertical {
            *g.get_unchecked(line, b)
        } else {
            *g.get_unchecked(b, line)
        };
        let w = if ta != Tile::Wall && tb != Tile::Wall {
            if vertical {
                (Some(((line, a), Dir::Down)), Some(((line, b), Dir::Up)))
            } else {
                (Some(((a, line), Dir::Right)), Some(((b, line), Dir::Left)))
            }
        } else {
            (None, None)
        };
        out.push(w);
        line += 1;
    }
    out
}

/// The tile that a byte of the map stands for.
pub open spec fn tile_of_byte(b: u8) -> Tile {
    if b == 32 {
        Tile::Empty
    } else if b == 46 {
        Tile::Open
    } else {
        Tile::Wall
    }
}

/// The length of the longest of the first `k` lines.
pub open spec fn longest(ls: Seq<Seq<u8>>, k: nat) -> nat
    decreases k,
{
    if k == 0 {
        0
    } else if ls[k - 1].len() > longest(ls, (k - 1) as nat) {
        ls[k - 1].len()
    } else {
        longest(ls, (k - 1) as nat)
    }
}

/// The number of line feeds among the first `k` bytes.
pub open spec fn line_feeds(s: Seq<u8>, k: nat) -> nat
    decreases k,
{
    if k == 0 {
        0
    } else {
        line_feeds(s, (k - 1) as nat) + if s[k - 1] == 10 {
            1nat
        } else {
            0nat
        }
    }
}

/// The tile at `(x, y)` of the map with the lines `ls`: what is not
/// written is empty.
pub open spec fn map_tile(ls: Seq<Seq<u8>>, x: int, y: int) -> Tile {
    if 0 <= y < ls.len() && 0 <= x < ls[y].len() {
        tile_of_byte(ls[y][x])
    } else {
        Tile::Empty
    }
}

/// Whether the grid `g` holds the map of the text `s`: as wide as its
/// longest line, and one row more than it has line feeds.
pub open spec fn holds_map(g: &Grid<Tile>, s: Seq<u8>) -> bool {
    let ls = lines_of(s);
    &&& g.wf()
    &&& g.width == longest(ls, ls.len())
    &&& g.height == line_feeds(s, s.len()) + 1
    &&& forall|x: int, y: int| g.inside(x, y) ==> #[trigger] g.cell(x, y) == map_tile(ls, x, y)
}

/// Whether the text is the map of a board: made of the bytes ` `, `.` and
/// `#`, with a tile in every row and two in every column.
pub open spec fn is_board_map(s: Seq<u8>) -> bool {
    let ls = lines_of(s);
    &&& ls.len() > 0
    &&& longest(ls, ls.len()) >= 1
    &&& longest(ls, ls.len()) * (line_feeds(s, s.len()) + 1) <= usize::MAX
    &&& forall|y: int, x: int|
        0 <= y < ls.len() && 0 <= x < ls[y].len() ==> {
            let b = #[trigger] ls[y][x];
            b == 32 || b == 46 || b == 35
        }
    &&& forall|g: Grid<Tile>| #[trigger]
        holds_map(&g, s) ==> (forall|y: int| 0 <= y < g.height ==> #[trigger] has_tiles(&g, false, y))
            && (forall|x: int| 0 <= x < g.width ==> #[trigger] has_tiles(&g, true, x))
}

/// The grid of the map.
fn read_tiles(s: &[u8]) -> (g: Grid<Tile>)
    requires
        is_board_map(s@),
    ensures
        holds_map(&g, s@),
{
    let ls = lines(s);
    let ghost lv = lines_of(s@);
    let mut width: usize = 0;
    let mut k: usize = 0;
    while k < ls.len()
        invariant
            k <= ls.len(),
            lv == views(ls@),
            width == longest(lv, k as nat),
        decreases ls.len() - k,
    {
        assert(ls@[k as int]@ == lv[k as int]);
        if ls[k].len() > width {
            width = ls[k].len();
        }
        k += 1;
    }
    let mut feeds: usize = 0;
    let mut k: usize = 0;
    while k < s.len()
        invariant
            k <= s.len(),
            feeds == line_feeds(s@, k as nat),
            feeds <= k,
        decreases s.len() - k,
    {
        if s[k] == 10 {
            feeds += 1;
        }
        k += 1;
    }
    assert(width * (feeds + 1) <= usize::MAX);
    proof {
        assert(feeds + 1 <= usize::MAX) by (nonlinear_arith)
            requires
                width * (feeds + 1) <= usize::MAX,
                width >= 1,
        ;
    }
    let height: usize = feeds + 1;
    let mut grid = Grid::from_vec(width, height, filled(width * height, Tile::Empty));
    proof {
        assert forall|x: int, y: int| grid.inside(x, y) implies #[trigger] grid.cell(x, y)
            == Tile::Empty by {
            crate::y2022::grid::lemma_index_in_bounds(x, y, width as int, height as int);
        }
    }
    let mut y: usize = 0;
    while y < ls.len() && y < height
        invariant
            lv == views(ls@),
            lv == lines_of(s@),
            is_board_map(s@),
            grid.wf(),
            grid.width == width,
            grid.height == height,
            width == longest(lv, lv.len()),
            y <= ls.len(),
            forall|a: int, b: int|
                grid.inside(a, b) ==> #[trigger] grid.cell(a, b) == if b < y {
                    map_tile(lv, a, b)
                } else {
                    Tile::Empty
                },
        decreases ls.len() - y,
    {
        assert(ls@[y as int]@ == lv[y as int]);
        let line = &ls[y];
        proof {
            lemma_longest(lv, y as int, lv.len());
        }
        let mut x: usize = 0;
        while x < line.len()
            invariant
                lv == views(ls@),
                is_board_map(s@),
                lv == lines_of(s@),
                grid.wf(),
                grid.width == width,
                grid.height == height,
                y < ls.len(),
                y < height,
                line@ == lv[y as int],
                line@.len() <= width,
                x <= line.len(),
                forall|a: int, b: int|
                    grid.inside(a, b) ==> #[trigger] grid.cell(a, b) == if b < y || (b == y && a
                        < x) {
                        map_tile(lv, a, b)
                    } else {
                        Tile::Empty
                    },
            decreases line.len() - x,
        {
            let b = line[x];
            assert(b == lv[y as int][x as int]);
            grid.set(x, y, Tile::from_char(b as char));
            x += 1;
        }
        y += 1;
    }
    grid
}

/// No line is longer than the longest.
pub proof fn lemma_longest(ls: Seq<Seq<u8>>, i: int, k: nat)
    requires
        0 <= i < k <= ls.len(),
    ensures
        ls[i].len() <= longest(ls, k),
    decreases k,
{
    if i < k - 1 {
        lemma_longest(ls, i, (k - 1) as nat);
    }
}

impl Board {
    /// The board of the map, with the walker on the first tile of the
    /// first row, facing right; every row and column leads round onto
    /// itself.
    pub fn from_str(s: &str) -> (r: Self)
        requires
            is_board_map(s.spec_bytes()),
        ensures
            r.is_round_board_of(s.spec_bytes()),
    {
        Board::from_bytes(s.as_bytes())
    }

    /// Whether the board is the one that the map `s` shows, with the
    /// walker on the first tile of the first row, facing right, and every
    /// row and column leading round onto itself.
    pub open spec fn is_round_board_of(&self, s: Seq<u8>) -> bool {
        &&& self.wf()
        &&& holds_map(&self.grid, s)
        &&& self.line_warp@.len() == self.grid.height
        &&& self.column_warp@.len() == self.grid.width
        &&& forall|y: int|
            0 <= y < self.grid.height ==> #[trigger] self.line_warp@[y] == round_warp(
                &self.grid,
                false,
                y,
            )
        &&& forall|x: int|
            0 <= x < self.grid.width ==> #[trigger] self.column_warp@[x] == round_warp(
                &self.grid,
                true,
                x,
            )
        &&& self.coord == (first_tile(&self.grid, false, 0, 0) as usize, 0usize)
        &&& self.dir == Dir::Right
    }

    /// The board of the map `s`.
    pub fn from_bytes(s: &[u8]) -> (r: Self)
        requires
            is_board_map(s@),
        ensures
            r.is_round_board_of(s@),
    {
        let grid = read_tiles(s);
        let line_warp = round_warps(&grid, false);
        let column_warp = round_warps(&grid, true);
        assert(has_tiles(&grid, false, 0));
        let x = find_first(&grid, false, 0);
        let r = Self { grid, line_warp, column_warp, coord: (x, 0), dir: Dir::Right };
        proof {
            assert forall|i: int| 0 <= i < r.line_warp@.len() implies r.lands_open(
                (#[trigger] r.line_warp@[i]).0,
            ) && r.lands_open(r.line_warp@[i].1) by {
                assert(has_tiles(&r.grid, false, i));
                lemma_first_tile(&r.grid, false, i, 0);
                lemma_last_tile(&r.grid, false, i, line_len(&r.grid, false));
                let a = first_tile(&r.grid, false, i, 0);
                lemma_last_not_before(&r.grid, false, i, a, line_len(&r.grid, false));
                assert(r.line_warp@[i] == round_warp(&r.grid, false, i));
            }
            assert forall|i: int| 0 <= i < r.column_warp@.len() implies r.lands_open(
                (#[trigger] r.column_warp@[i]).0,
            ) && r.lands_open(r.column_warp@[i].1) by {
                assert(has_tiles(&r.grid, true, i));
                lemma_first_tile(&r.grid, true, i, 0);
                lemma_last_tile(&r.grid, true, i, line_len(&r.grid, true));
                assert(r.column_warp@[i] == round_warp(&r.grid, true, i));
            }
        }
        r
    }
}


#[verifier::external_type_specification]
#[verifier::external_body]
#[verifier::reject_recursive_types(L)]
#[verifier::reject_recursive_types(R)]
pub struct ExEither<L, R>(either::Either<L, R>);

/// A command of the path: a turn, or a number of steps.
pub enum Command {
    Turn(Turn),
    Forward(i32),
}

/// The command that the value holds: a turn on the left, steps on the
/// right.
pub uninterp spec fn command_in(e: either::Either<Turn, i32>) -> Command;

/// `Either::Left` and `Either::factor_none`: the turn, if there is one, on
/// the left.
#[verifier::external_body]
fn turn_command(t: Option<Turn>) -> (r: Option<either::Either<Turn, i32>>)
    ensures
        match r {
            Some(e) => t is Some && command_in(e) == Command::Turn(t->0),
            None => t is None,
        },
{
    either::Either::<Option<Turn>, Option<i32>>::Left(t).factor_none()
}

/// `Either::Right` and `Either::factor_none`: the steps, if there are any,
/// on the right.
#[verifier::external_body]
fn forward_command(f: Option<i32>) -> (r: Option<either::Either<Turn, i32>>)
    ensures
        match r {
            Some(e) => f is Some && command_in(e) == Command::Forward(f->0),
            None => f is None,
        },
{
    either::Either::<Option<Turn>, Option<i32>>::Right(f).factor_none()
}

/// The command that the value holds, read off its two variants.
#[verifier::external_body]
fn read_command(e: either::Either<Turn, i32>) -> (r: Command)
    ensures
        r == command_in(e),
{
    match e {
        either::Either::Left(t) => Command::Turn(t),
        either::Either::Right(f) => Command::Forward(f),
    }
}

/// The commands of a path still to come: turns and walks in turn.
pub struct Path {
    pub turns: Vec<Turn>,
    pub forwards: Vec<i32>,
    pub alternate: Alternate,
}

/// Whether `b` cuts the text: a digit, when the turns are read, else one
/// of the letters `L` and `R`.
pub open spec fn cuts(b: u8, digits: bool) -> bool {
    if digits {
        48 <= b <= 57
    } else {
        b == 76 || b == 82
    }
}

/// Where the piece that begins at `i` ends.
pub open spec fn piece_end(s: Seq<u8>, digits: bool, i: int) -> int
    decreases s.len() - i,
{
    if i < 0 || i >= s.len() || cuts(s[i], digits) {
        i
    } else {
        piece_end(s, digits, i + 1)
    }
}

pub proof fn lemma_piece_end(s: Seq<u8>, digits: bool, i: int)
    requires
        0 <= i <= s.len(),
    ensures
        i <= piece_end(s, digits, i) <= s.len(),
    decreases s.len() - i,
{
    if i < s.len() && !cuts(s[i], digits) {
        lemma_piece_end(s, digits, i + 1);
    }
}

/// The pieces of `s` from `i` on between the bytes that cut it.
pub open spec fn pieces(s: Seq<u8>, digits: bool, i: int) -> Seq<Seq<u8>>
    decreases s.len() - i,
{
    if i < 0 || i > s.len() {
        Seq::empty()
    } else {
        let e = piece_end(s, digits, i);
        proof {
            lemma_piece_end(s, digits, i);
        }
        if e >= s.len() {
            seq![s.subrange(i, s.len() as int)]
        } else {
            seq![s.subrange(i, e)] + pieces(s, digits, e + 1)
        }
    }
}

/// The turn that a piece spells, if it is one of the letters `L` and `R`.
pub open spec fn turn_of(piece: Seq<u8>) -> Option<Turn> {
    if piece.len() == 1 && piece[0] == 82 {
        Some(Turn::Clockwise)
    } else if piece.len() == 1 && piece[0] == 76 {
        Some(Turn::Counterclockwise)
    } else {
        None
    }
}

/// The turns that the first `k` pieces spell.
pub open spec fn turns_in(ps: Seq<Seq<u8>>, k: nat) -> Seq<Turn>
    decreases k,
{
    if k == 0 {
        Seq::empty()
    } else {
        match turn_of(ps[k - 1]) {
            Some(t) => turns_in(ps, (k - 1) as nat).push(t),
            None => turns_in(ps, (k - 1) as nat),
        }
    }
}

/// The numbers of steps that the pieces spell.
pub open spec fn steps_in(ps: Seq<Seq<u8>>) -> Seq<i32> {
    Seq::new(
        ps.len(),
        |i: int| parse_int(trimmed(ps[i]), i32::MIN as int, i32::MAX as int)->0 as i32,
    )
}

/// Whether every piece between the turns is a number of steps.
pub open spec fn is_path(s: Seq<u8>) -> bool {
    let ps = pieces(s, false, 0);
    forall|i: int|
        0 <= i < ps.len() ==> parse_int(
            trimmed(#[trigger] ps[i]),
            i32::MIN as int,
            i32::MAX as int,
        ) is Some
}

/// The turns of the path `s`.
pub open spec fn path_turns(s: Seq<u8>) -> Seq<Turn> {
    turns_in(pieces(s, true, 0), pieces(s, true, 0).len())
}

/// The numbers of steps of the path `s`.
pub open spec fn path_steps(s: Seq<u8>) -> Seq<i32> {
    steps_in(pieces(s, false, 0))
}

fn is_cut(b: u8, digits: bool) -> (r: bool)
    ensures
        r == cuts(b, digits),
{
    if digits {
        48 <= b && b <= 57
    } else {
        b == 76 || b == 82
    }
}

/// Cuts `s` at the digits or at the letters of the turns.
fn cut(s: &[u8], digits: bool) -> (r: Vec<Vec<u8>>)
    ensures
        views(r@) == pieces(s@, digits, 0),
{
    let mut out: Vec<Vec<u8>> = Vec::new();
    let mut pos: usize = 0;
    proof {
        assert(views(out@) + pieces(s@, digits, 0) =~= pieces(s@, digits, 0));
    }
    loop
        invariant
            pos <= s.len(),
            pieces(s@, digits, 0) == views(out@) + pieces(s@, digits, pos as int),
        decreases s.len() - pos,
    {
        let mut e: usize = pos;
        while e < s.len() && !is_cut(s[e], digits)
            invariant
                pos <= e <= s.len(),
                piece_end(s@, digits, pos as int) == piece_end(s@, digits, e as int),
            decreases s.len() - e,
        {
            e += 1;
        }
        let ghost before = out@;
        if e >= s.len() {
            out.push(crate::text::copy_range(s, pos, s.len()));
            proof {
                assert(views(out@) =~= views(before) + seq![s@.subrange(pos as int, s@.len() as int)]);
            }
            return out;
        }
        out.push(crate::text::copy_range(s, pos, e));
        proof {
            let piece = s@.subrange(pos as int, e as int);
            assert(views(out@) =~= views(before) + seq![piece]);
            assert(views(before) + (seq![piece] + pieces(s@, digits, e + 1)) =~= views(out@) + pieces(
                s@,
                digits,
                e + 1,
            ));
        }
        pos = e + 1;
    }
}

impl Path {
    /// The turns still to come, the next one first.
    pub open spec fn pending_turns(&self) -> Seq<Turn> {
        self.turns@.reverse()
    }

    /// The walks still to come, the next one first.
    pub open spec fn pending_steps(&self) -> Seq<i32> {
        self.forwards@.reverse()
    }

    /// The path that the text spells: numbers of steps with the letters
    /// `L` and `R` between them. A walk comes first.
    pub fn from_str(s: &str) -> (r: Self)
        requires
            is_path(s.spec_bytes()),
        ensures
            r.pending_turns() == path_turns(s.spec_bytes()),
            r.pending_steps() == path_steps(s.spec_bytes()),
            r.alternate == Alternate::Forward,
    {
        Path::from_bytes(s.as_bytes())
    }

    /// The path that the text spells.
    pub fn from_bytes(bytes: &[u8]) -> (r: Self)
        requires
            is_path(bytes@),
        ensures
            r.pending_turns() == path_turns(bytes@),
            r.pending_steps() == path_steps(bytes@),
            r.alternate == Alternate::Forward,
    {
        let turn_pieces = cut(bytes, true);
        let ghost tp = pieces(bytes@, true, 0);
        let mut in_order: Vec<Turn> = Vec::new();
        let mut i: usize = 0;
        while i < turn_pieces.len()
            invariant
                i <= turn_pieces.len(),
                tp == views(turn_pieces@),
                in_order@ == turns_in(tp, i as nat),
            decreases turn_pieces.len() - i,
        {
            assert(turn_pieces@[i as int]@ == tp[i as int]);
            let piece = &turn_pieces[i];
            if piece.len() == 1 && (piece[0] == 76 || piece[0] == 82) {
                in_order.push(Turn::from_char(piece[0] as char));
            }
            i += 1;
        }
        let step_pieces = cut(bytes, false);
        let ghost sp = pieces(bytes@, false, 0);
        let mut steps: Vec<i32> = Vec::new();
        let mut i: usize = 0;
        while i < step_pieces.len()
            invariant
                i <= step_pieces.len(),
                sp == views(step_pieces@),
                sp == pieces(bytes@, false, 0),
                is_path(bytes@),
                steps@.len() == i,
                forall|k: int| 0 <= k < i ==> #[trigger] steps@[k] == steps_in(sp)[k],
            decreases step_pieces.len() - i,
        {
            assert(step_pieces@[i as int]@ == sp[i as int]);
            let t = trim(step_pieces[i].as_slice());
            match parse_i32(t.as_slice()) {
                Some(v) => {
                    steps.push(v);
                },
                None => {
                    assert(false);
                },
            }
            i += 1;
        }
        proof {
            assert(steps@ =~= steps_in(sp));
        }
        let turns = reversed_turns(&in_order);
        let forwards = reversed_steps(&steps);
        proof {
            assert(turns@.reverse() =~= in_order@);
            assert(forwards@.reverse() =~= steps@);
        }
        Self { turns, forwards, alternate: Alternate::Forward }
    }

    /// The next command: walks and turns come in turn, and the path ends
    /// where the kind that is due has run out.
    pub fn next(&mut self) -> (r: Option<either::Either<Turn, i32>>)
        ensures
            final(self).alternate != old(self).alternate,
            match old(self).alternate {
                Alternate::Turn => final(self).pending_steps() == old(self).pending_steps()
                    && match r {
                    Some(e) => old(self).pending_turns().len() > 0 && command_in(e)
                        == Command::Turn(old(self).pending_turns()[0]) && final(self).pending_turns() == old(self).pending_turns().drop_first(),
                    None => old(self).pending_turns().len() == 0 && final(self).pending_turns()
                        == old(self).pending_turns(),
                },
                Alternate::Forward => final(self).pending_turns() == old(self).pending_turns()
                    && match r {
                    Some(e) => old(self).pending_steps().len() > 0 && command_in(e)
                        == Command::Forward(old(self).pending_steps()[0]) && final(self).pending_steps() == old(self).pending_steps().drop_first(),
                    None => old(self).pending_steps().len() == 0 && final(self).pending_steps()
                        == old(self).pending_steps(),
                },
            },
    {
        let res = match self.alternate {
            Alternate::Turn => {
                let t = self.turns.pop();
                proof {
                    if t is Some {
                        assert(self.turns@.reverse() =~= old(self).turns@.reverse().drop_first());
                    }
                }
                turn_command(t)
            },
            Alternate::Forward => {
                let f = self.forwards.pop();
                proof {
                    if f is Some {
                        assert(self.forwards@.reverse() =~= old(self).forwards@.reverse().drop_first());
                    }
                }
                forward_command(f)
            },
        };
        self.alternate = self.alternate.switch();
        res
    }
}

fn reversed_turns(v: &Vec<Turn>) -> (r: Vec<Turn>)
    ensures
        r@ == v@.reverse(),
{
    let mut out: Vec<Turn> = Vec::new();
    let mut i: usize = v.len();
    while i > 0
        invariant
            i <= v.len(),
            out@ == v@.reverse().subrange(0, v.len() - i),
        decreases i,
    {
        i -= 1;
        out.push(v[i]);
        proof {
            assert(out@ =~= v@.reverse().subrange(0, v.len() - i));
        }
    }
    proof {
        assert(out@ =~= v@.reverse());
    }
    out
}

fn reversed_steps(v: &Vec<i32>) -> (r: Vec<i32>)
    ensures
        r@ == v@.reverse(),
{
    let mut out: Vec<i32> = Vec::new();
    let mut i: usize = v.len();
    while i > 0
        invariant
            i <= v.len(),
            out@ == v@.reverse().subrange(0, v.len() - i),
        decreases i,
    {
        i -= 1;
        out.push(v[i]);
        proof {
            assert(out@ =~= v@.reverse().subrange(0, v.len() - i));
        }
    }
    proof {
        assert(out@ =~= v@.reverse());
    }
    out
}


/// The number of commands of a path with the walks `steps` and the turns
/// `turns`: they come in turn, a walk first, until the kind that is due
/// has run out.
pub open spec fn command_count(steps: Seq<i32>, turns: Seq<Turn>) -> nat {
    if steps.len() <= turns.len() {
        2 * steps.len()
    } else {
        2 * turns.len() + 1
    }
}

/// The place and direction after the first `k` commands.
pub open spec fn run(b: &Board, from: Warp, steps: Seq<i32>, turns: Seq<Turn>, k: nat) -> Warp
    decreases k,
{
    if k == 0 {
        from
    } else {
        let before = run(b, from, steps, turns, (k - 1) as nat);
        if (k - 1) % 2 == 0 {
            let n = steps[(k - 1) / 2];
            b.walk_from(
                before,
                if n > 0 {
                    n as nat
                } else {
                    0
                },
            )
        } else {
            (before.0, before.1.spec_turn(turns[(k - 1) / 2]))
        }
    }
}

/// The password of a place and direction: 1000 times the row, 4 times the
/// column, both counted from 1, and the number of the direction.
pub open spec fn password(w: Warp) -> int {
    (warp_y(w) + 1) * 1000 + (warp_x(w) + 1) * 4 + match w.1 {
        Dir::Right => 0int,
        Dir::Down => 1int,
        Dir::Left => 2int,
        Dir::Up => 3int,
    }
}

/// Follows the path to its end.
pub fn follow(board: &mut Board, path: &mut Path)
    requires
        old(board).wf(),
        old(path).alternate == Alternate::Forward,
    ensures
        final(board).wf(),
        final(board).grid == old(board).grid,
        final(board).line_warp == old(board).line_warp,
        final(board).column_warp == old(board).column_warp,
        (final(board).coord, final(board).dir) == run(
            old(board),
            (old(board).coord, old(board).dir),
            old(path).pending_steps(),
            old(path).pending_turns(),
            command_count(old(path).pending_steps(), old(path).pending_turns()),
        ),
{
    let ghost b0 = *board;
    let ghost from = (board.coord, board.dir);
    let ghost steps = path.pending_steps();
    let ghost turns = path.pending_turns();
    let ghost mut k: int = 0;
    loop
        invariant_except_break
            (path.alternate == Alternate::Forward) == (k % 2 == 0),
            path.pending_steps() == steps.subrange((k + 1) / 2, steps.len() as int),
            path.pending_turns() == turns.subrange(k / 2, turns.len() as int),
            (board.coord, board.dir) == run(&b0, from, steps, turns, k as nat),
        invariant
            board.wf(),
            0 <= k,
            b0 == *old(board),
            from == (old(board).coord, old(board).dir),
            steps == old(path).pending_steps(),
            turns == old(path).pending_turns(),
            board.grid == b0.grid,
            board.line_warp == b0.line_warp,
            board.column_warp == b0.column_warp,
            k <= command_count(steps, turns),
            (k + 1) / 2 <= steps.len(),
            k / 2 <= turns.len(),
        ensures
            board.wf(),
            board.grid == b0.grid,
            board.line_warp == b0.line_warp,
            board.column_warp == b0.column_warp,
            (board.coord, board.dir) == run(&b0, from, steps, turns, command_count(steps, turns)),
        decreases command_count(steps, turns) - k,
    {
        let ghost ps = path.pending_steps();
        let ghost pt = path.pending_turns();
        let command = match path.next() {
            Some(c) => c,
            None => {
                break ;
            },
        };
        match read_command(command) {
            Command::Turn(t) => {
                proof {
                    assert(pt[0] == turns[k / 2]);
                    assert(pt.drop_first() =~= turns.subrange(k / 2 + 1, turns.len() as int));
                }
                board.turn(t);
            },
            Command::Forward(f) => {
                proof {
                    assert(ps[0] == steps[(k + 1) / 2]);
                    assert(ps.drop_first() =~= steps.subrange((k + 1) / 2 + 1, steps.len() as int));
                    board.lemma_same_walk(
                        &b0,
                        (board.coord, board.dir),
                        if f > 0 {
                            f as nat
                        } else {
                            0
                        },
                    );
                }
                board.forward(f);
            },
        }
        proof {
            k = k + 1;
        }
    }
}

/// The password of the walker.
fn password_of(board: &Board) -> (r: usize)
    requires
        password((board.coord, board.dir)) <= usize::MAX,
    ensures
        r == password((board.coord, board.dir)),
{
    (board.coord.1 + 1) * 1000 + (board.coord.0 + 1) * 4 + match board.dir {
        Dir::Right => 0,
        Dir::Down => 1,
        Dir::Left => 2,
        Dir::Up => 3,
    }
}

/// Whether the text is a map and a path with an empty line between them.
pub open spec fn is_notes(s: Seq<u8>) -> bool {
    match cut_once(s, seq![10u8, 10u8]) {
        Some((map, path)) => is_board_map(map) && is_path(path),
        None => false,
    }
}

/// The map of the notes.
pub open spec fn notes_map(s: Seq<u8>) -> Seq<u8> {
    let parts = cut_once(s, seq![10u8, 10u8])->0;
    parts.0
}

/// The path of the notes.
pub open spec fn notes_path(s: Seq<u8>) -> Seq<u8> {
    let parts = cut_once(s, seq![10u8, 10u8])->0;
    parts.1
}

/// The place and direction in which the path of the notes `s` ends on the
/// board `b`.
pub open spec fn journey_end(b: &Board, s: Seq<u8>) -> Warp {
    let path = notes_path(s);
    run(
        b,
        (b.coord, b.dir),
        path_steps(path),
        path_turns(path),
        command_count(path_steps(path), path_turns(path)),
    )
}

/// Whether the board is the one of the notes `s`, every row and column
/// leading round onto itself.
pub open spec fn is_flat_board(b: &Board, s: Seq<u8>) -> bool {
    b.is_round_board_of(notes_map(s))
}

/// The board and the path of the notes.
pub fn parse_input(input: &str) -> (r: (Board, Path))
    requires
        is_notes(input.spec_bytes()),
    ensures
        is_flat_board(&r.0, input.spec_bytes()),
        r.1.pending_turns() == path_turns(notes_path(input.spec_bytes())),
        r.1.pending_steps() == path_steps(notes_path(input.spec_bytes())),
        r.1.alternate == Alternate::Forward,
{
    let sep: [u8; 2] = [10, 10];
    proof {
        assert(sep@ =~= seq![10u8, 10u8]);
    }
    match split_once(input.as_bytes(), sep.as_slice()) {
        Some((board_input, path_input)) => (
            Board::from_bytes(board_input.as_slice()),
            Path::from_bytes(path_input.as_slice()),
        ),
        None => {
            proof {
                assert(false);
            }
            (Board::from_bytes(input.as_bytes()), Path::from_bytes(input.as_bytes()))
        },
    }
}

/// The password at the end of the path, on the board whose rows and
/// columns lead round onto themselves.
pub fn day22_1(input: &str) -> (r: usize)
    requires
        is_notes(input.spec_bytes()),
        forall|b: Board| #[trigger]
            is_flat_board(&b, input.spec_bytes()) ==> password(journey_end(&b, input.spec_bytes()))
                <= usize::MAX,
    ensures
        exists|b: Board| #[trigger]
            is_flat_board(&b, input.spec_bytes()) && r == password(
                journey_end(&b, input.spec_bytes()),
            ),
{
    let (mut board, mut path) = parse_input(input);
    let ghost b0 = board;
    follow(&mut board, &mut path);
    proof {
        assert(is_flat_board(&b0, input.spec_bytes()));
    }
    password_of(&board)
}


/// The two warps of entry `i` of the rows' list for a cube of faces of 50
/// by 50 tiles, unfolded with two faces in the first band, then one, two,
/// one: where a step off the left and off the right end leads.
pub open spec fn cube_line_warp(i: int) -> (Warp, Warp) {
    if i < 50 {
        (((99usize, (149 - i) as usize), Dir::Left), ((0usize, (149 - i) as usize), Dir::Right))
    } else if i < 100 {
        ((((50 + i) as usize, 49usize), Dir::Up), (((i - 50) as usize, 100usize), Dir::Down))
    } else if i < 150 {
        (((149usize, (149 - i) as usize), Dir::Left), ((50usize, (149 - i) as usize), Dir::Right))
    } else {
        ((((i - 100) as usize, 149usize), Dir::Up), (((i - 100) as usize, 0usize), Dir::Down))
    }
}

/// The two warps of entry `i` of the columns' list for that cube.
pub open spec fn cube_column_warp(i: int) -> (Warp, Warp) {
    if i < 50 {
        ((((100 + i) as usize, 0usize), Dir::Down), ((50usize, (50 + i) as usize), Dir::Right))
    } else if i < 100 {
        (((49usize, (100 + i) as usize), Dir::Left), ((0usize, (100 + i) as usize), Dir::Right))
    } else {
        (((99usize, (i - 50) as usize), Dir::Left), (((i - 100) as usize, 199usize), Dir::Up))
    }
}

/// Whether the warp leads to a tile of the grid that is not empty.
pub open spec fn lands_on_tile(g: &Grid<Tile>, w: Warp) -> bool {
    g.inside(warp_x(w), warp_y(w)) && g.cell(warp_x(w), warp_y(w)) != Tile::Empty
}

/// The warp, unless it leads to a wall.
pub open spec fn unless_wall(g: &Grid<Tile>, w: Warp) -> Option<Warp> {
    if g.cell(warp_x(w), warp_y(w)) == Tile::Wall {
        None
    } else {
        Some(w)
    }
}

/// Whether all warps of the cube lead to tiles of the grid.
pub open spec fn fits_cube(g: &Grid<Tile>) -> bool {
    &&& forall|i: int|
        0 <= i < 200 ==> lands_on_tile(g, (#[trigger] cube_line_warp(i)).0) && lands_on_tile(
            g,
            cube_line_warp(i).1,
        )
    &&& forall|i: int|
        0 <= i < 150 ==> lands_on_tile(g, (#[trigger] cube_column_warp(i)).0) && lands_on_tile(
            g,
            cube_column_warp(i).1,
        )
}

pub fn warp_leads_to_wall(grid: &Grid<Tile>, warp: Warp) -> (r: bool)
    requires
        grid.wf(),
        grid.inside(warp_x(warp), warp_y(warp)),
    ensures
        r == (grid.cell(warp_x(warp), warp_y(warp)) == Tile::Wall),
{
    let c = warp.0;
    *grid.get_unchecked(c.0, c.1) == Tile::Wall
}

/// The warp, unless it leads to a wall.
pub fn schlong_warp(grid: &Grid<Tile>, warp: Warp) -> (r: Option<Warp>)
    requires
        grid.wf(),
        lands_on_tile(grid, warp),
    ensures
        r == unless_wall(grid, warp),
{
    if warp_leads_to_wall(grid, warp) {
        None
    } else {
        Some(warp)
    }
}

/// The warps of the list, each unless it leads to a wall.
pub open spec fn filtered(g: &Grid<Tile>, w: (Option<Warp>, Option<Warp>)) -> (
    Option<Warp>,
    Option<Warp>,
) {
    (
        match w.0 {
            Some(a) => unless_wall(g, a),
            None => None,
        },
        match w.1 {
            Some(b) => unless_wall(g, b),
            None => None,
        },
    )
}

/// Takes from the list the warps that lead to walls.
pub fn schlong_warp_list(grid: &Grid<Tile>, warp_list: &mut Vec<(Option<Warp>, Option<Warp>)>)
    requires
        grid.wf(),
        forall|i: int|
            0 <= i < old(warp_list)@.len() ==> ((#[trigger] old(warp_list)@[i]).0 is Some
                ==> lands_on_tile(grid, old(warp_list)@[i].0->0)) && (old(warp_list)@[i].1 is Some
                ==> lands_on_tile(grid, old(warp_list)@[i].1->0)),
    ensures
        final(warp_list)@.len() == old(warp_list)@.len(),
        forall|i: int|
            0 <= i < old(warp_list)@.len() ==> #[trigger] final(warp_list)@[i] == filtered(
                grid,
                old(warp_list)@[i],
            ),
{
    let mut i: usize = 0;
    while i < warp_list.len()
        invariant
            grid.wf(),
            i <= warp_list.len(),
            warp_list@.len() == old(warp_list)@.len(),
            forall|k: int|
                0 <= k < old(warp_list)@.len() ==> ((#[trigger] old(warp_list)@[k]).0 is Some
                    ==> lands_on_tile(grid, old(warp_list)@[k].0->0)) && (old(warp_list)@[k].1
                     is Some ==> lands_on_tile(grid, old(warp_list)@[k].1->0)),
            forall|k: int|
                0 <= k < warp_list@.len() ==> #[trigger] warp_list@[k] == if k < i {
                    filtered(grid, old(warp_list)@[k])
                } else {
                    old(warp_list)@[k]
                },
        decreases warp_list.len() - i,
    {
        let w = warp_list[i];
        assert(w == old(warp_list)@[i as int]);
        let a = match w.0 {
            Some(x) => schlong_warp(grid, x),
            None => None,
        };
        let b = match w.1 {
            Some(x) => schlong_warp(grid, x),
            None => None,
        };
        warp_list[i] = (a, b);
        i += 1;
    }
}

/// The warps of the rows for the cube, without those that lead to walls.
pub fn custom_line_warp(grid: &Grid<Tile>) -> (r: Vec<(Option<Warp>, Option<Warp>)>)
    requires
        grid.wf(),
        fits_cube(grid),
    ensures
        r@.len() == 200,
        forall|i: int|
            0 <= i < 200 ==> #[trigger] r@[i] == filtered(
                grid,
                (Some(cube_line_warp(i).0), Some(cube_line_warp(i).1)),
            ),
{
    let mut custom: Vec<(Option<Warp>, Option<Warp>)> = Vec::new();
    let mut i: usize = 0;
    while i < 50
        invariant
            i <= 50,
            custom@.len() == i,
            forall|k: int|
                0 <= k < custom@.len() ==> #[trigger] custom@[k] == (
                    Some(cube_line_warp(k).0),
                    Some(cube_line_warp(k).1),
                ),
        decreases 50 - i,
    {
        custom.push((Some(((99, 149 - i), Dir::Left)), Some(((0, 149 - i), Dir::Right))));
        i += 1;
    }
    let mut i: usize = 0;
    while i < 50
        invariant
            i <= 50,
            custom@.len() == 50 + i,
            forall|k: int|
                0 <= k < custom@.len() ==> #[trigger] custom@[k] == (
                    Some(cube_line_warp(k).0),
                    Some(cube_line_warp(k).1),
                ),
        decreases 50 - i,
    {
        custom.push((Some(((100 + i, 49), Dir::Up)), Some(((i, 100), Dir::Down))));
        i += 1;
    }
    let mut i: usize = 0;
    while i < 50
        invariant
            i <= 50,
            custom@.len() == 100 + i,
            forall|k: int|
                0 <= k < custom@.len() ==> #[trigger] custom@[k] == (
                    Some(cube_line_warp(k).0),
                    Some(cube_line_warp(k).1),
                ),
        decreases 50 - i,
    {
        custom.push((Some(((149, 49 - i), Dir::Left)), Some(((50, 49 - i), Dir::Right))));
        i += 1;
    }
    let mut i: usize = 0;
    while i < 50
        invariant
            i <= 50,
            custom@.len() == 150 + i,
            forall|k: int|
                0 <= k < custom@.len() ==> #[trigger] custom@[k] == (
                    Some(cube_line_warp(k).0),
                    Some(cube_line_warp(k).1),
                ),
        decreases 50 - i,
    {
        custom.push((Some(((50 + i, 149), Dir::Up)), Some(((50 + i, 0), Dir::Down))));
        i += 1;
    }
    proof {
        assert forall|k: int| 0 <= k < custom@.len() implies ((#[trigger] custom@[k]).0 is Some
            ==> lands_on_tile(grid, custom@[k].0->0)) && (custom@[k].1 is Some ==> lands_on_tile(
            grid,
            custom@[k].1->0,
        )) by {
            assert(lands_on_tile(grid, cube_line_warp(k).0));
        }
    }
    schlong_warp_list(grid, &mut custom);
    custom
}

/// The warps of the columns for the cube, without those that lead to
/// walls.
pub fn custom_column_warp(grid: &Grid<Tile>) -> (r: Vec<(Option<Warp>, Option<Warp>)>)
    requires
        grid.wf(),
        fits_cube(grid),
    ensures
        r@.len() == 150,
        forall|i: int|
            0 <= i < 150 ==> #[trigger] r@[i] == filtered(
                grid,
                (Some(cube_column_warp(i).0), Some(cube_column_warp(i).1)),
            ),
{
    let mut custom: Vec<(Option<Warp>, Option<Warp>)> = Vec::new();
    let mut i: usize = 0;
    while i < 50
        invariant
            i <= 50,
            custom@.len() == i,
            forall|k: int|
                0 <= k < custom@.len() ==> #[trigger] custom@[k] == (
                    Some(cube_column_warp(k).0),
                    Some(cube_column_warp(k).1),
                ),
        decreases 50 - i,
    {
        custom.push((Some(((100 + i, 0), Dir::Down)), Some(((50, 50 + i), Dir::Right))));
        i += 1;
    }
    let mut i: usize = 0;
    while i < 50
        invariant
            i <= 50,
            custom@.len() == 50 + i,
            forall|k: int|
                0 <= k < custom@.len() ==> #[trigger] custom@[k] == (
                    Some(cube_column_warp(k).0),
                    Some(cube_column_warp(k).1),
                ),
        decreases 50 - i,
    {
        custom.push((Some(((49, 150 + i), Dir::Left)), Some(((0, 150 + i), Dir::Right))));
        i += 1;
    }
    let mut i: usize = 0;
    while i < 50
        invariant
            i <= 50,
            custom@.len() == 100 + i,
            forall|k: int|
                0 <= k < custom@.len() ==> #[trigger] custom@[k] == (
                    Some(cube_column_warp(k).0),
                    Some(cube_column_warp(k).1),
                ),
        decreases 50 - i,
    {
        custom.push((Some(((99, 50 + i), Dir::Left)), Some(((i, 199), Dir::Up))));
        i += 1;
    }
    proof {
        assert forall|k: int| 0 <= k < custom@.len() implies ((#[trigger] custom@[k]).0 is Some
            ==> lands_on_tile(grid, custom@[k].0->0)) && (custom@[k].1 is Some ==> lands_on_tile(
            grid,
            custom@[k].1->0,
        )) by {
            assert(lands_on_tile(grid, cube_column_warp(k).0));
        }
    }
    schlong_warp_list(grid, &mut custom);
    custom
}

/// Whether the board is the one of the notes `s`, folded to a cube.
pub open spec fn is_cube_board(b: &Board, s: Seq<u8>) -> bool {
    &&& b.wf()
    &&& holds_map(&b.grid, notes_map(s))
    &&& b.line_warp@.len() == 200
    &&& b.column_warp@.len() == 150
    &&& forall|i: int|
        0 <= i < 200 ==> #[trigger] b.line_warp@[i] == filtered(
            &b.grid,
            (Some(cube_line_warp(i).0), Some(cube_line_warp(i).1)),
        )
    &&& forall|i: int|
        0 <= i < 150 ==> #[trigger] b.column_warp@[i] == filtered(
            &b.grid,
            (Some(cube_column_warp(i).0), Some(cube_column_warp(i).1)),
        )
    &&& b.coord == (first_tile(&b.grid, false, 0, 0) as usize, 0usize)
    &&& b.dir == Dir::Right
}

/// Whether the map of the notes can be folded to the cube, and the
/// password at the end of the path fits the machine's numbers.
pub open spec fn can_fold(s: Seq<u8>) -> bool {
    &&& forall|g: Grid<Tile>| #[trigger]
        holds_map(&g, notes_map(s)) ==> fits_cube(&g) && g.height <= 200 && g.width <= 150
    &&& forall|b: Board| #[trigger]
        is_cube_board(&b, s) ==> password(journey_end(&b, s)) <= usize::MAX
}

/// The password at the end of the path, on the board folded to a cube.
pub fn day22_2(input: &str) -> (r: usize)
    requires
        is_notes(input.spec_bytes()),
        can_fold(input.spec_bytes()),
    ensures
        exists|b: Board| #[trigger]
            is_cube_board(&b, input.spec_bytes()) && r == password(
                journey_end(&b, input.spec_bytes()),
            ),
{
    let (mut board, mut path) = parse_input(input);
    assert(holds_map(&board.grid, notes_map(input.spec_bytes())));
    board.column_warp = custom_column_warp(&board.grid);
    board.line_warp = custom_line_warp(&board.grid);
    proof {
        assert forall|i: int| 0 <= i < board.line_warp@.len() implies board.lands_open(
            (#[trigger] board.line_warp@[i]).0,
        ) && board.lands_open(board.line_warp@[i].1) by {
            assert(lands_on_tile(&board.grid, cube_line_warp(i).0));
            assert(lands_on_tile(&board.grid, cube_line_warp(i).1));
        }
        assert forall|i: int| 0 <= i < board.column_warp@.len() implies board.lands_open(
            (#[trigger] board.column_warp@[i]).0,
        ) && board.lands_open(board.column_warp@[i].1) by {
            assert(lands_on_tile(&board.grid, cube_column_warp(i).0));
            assert(lands_on_tile(&board.grid, cube_column_warp(i).1));
        }
    }
    let ghost b0 = board;
    follow(&mut board, &mut path);
    proof {
        assert(is_cube_board(&b0, input.spec_bytes()));
    }
    password_of(&board)
}

} // verus!
