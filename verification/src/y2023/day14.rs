//! Rocks that roll over a tilted platform, and the load they put on its
//! north side.

use crate::y2023::grid::{
    block_height,
    block_width,
    cell_index,
    is_block,
    AsciiGrid,
    Direction,
    Grid,
    MutGrid,
    VecGrid,
};
use vstd::prelude::*;
use vstd::string::*;

verus! {

#[derive(Debug, Clone, Copy, PartialEq, Eq, Hash, Structural)]
pub enum Tile {
    RoundedRock,
    CubeRock,
    Empty,
}

/// The tile that a byte of the map stands for.
pub open spec fn tile_of(c: u8) -> Tile {
    if c == 79 {
        Tile::RoundedRock
    } else if c == 35 {
        Tile::CubeRock
    } else {
        Tile::Empty
    }
}

impl Tile {
    /// The tile that one of the bytes `O`, `#`, `.` stands for.
    pub fn from_ascii(c: u8) -> (r: Self)
        requires
            c == 79 || c == 35 || c == 46,
        ensures
            r == tile_of(c),
    {
        if c == 79 {
            Self::RoundedRock
        } else if c == 35 {
            Self::CubeRock
        } else {
            Self::Empty
        }
    }
}

/// A stretch of a line between two cube rocks, with the number of rounded
/// rocks on it.
#[derive(Debug)]
pub struct Range {
    pub x0: usize,
    pub x1: usize,
    pub num_rocks: usize,
}

/// Where the stretch without cube rock that begins at `i` ends.
pub open spec fn stretch_end(line: Seq<Tile>, i: int) -> int
    decreases line.len() - i,
{
    if i < 0 || i >= line.len() || line[i] == Tile::CubeRock {
        i
    } else {
        stretch_end(line, i + 1)
    }
}

/// How many rounded rocks lie on `line` from `a` to before `b`.
pub open spec fn rounded_between(line: Seq<Tile>, a: int, b: int) -> nat
    decreases b - a,
{
    if a >= b {
        0
    } else {
        rounded_between(line, a, b - 1) + if line[b - 1] == Tile::RoundedRock {
            1nat
        } else {
            0nat
        }
    }
}

/// A stretch of `len` cells with `k` rounded rocks gathered at its front
/// or at its end.
pub open spec fn gathered(len: int, k: int, to_front: bool) -> Seq<Tile> {
    Seq::new(
        len as nat,
        |i: int|
            if (to_front && i < k) || (!to_front && i >= len - k) {
                Tile::RoundedRock
            } else {
                Tile::Empty
            },
    )
}

pub proof fn lemma_stretch_end(line: Seq<Tile>, i: int)
    requires
        0 <= i <= line.len(),
    ensures
        i <= stretch_end(line, i) <= line.len(),
    decreases line.len() - i,
{
    if i < line.len() && line[i] != Tile::CubeRock {
        lemma_stretch_end(line, i + 1);
    }
}

pub proof fn lemma_rounded_bound(line: Seq<Tile>, a: int, b: int)
    requires
        a <= b,
    ensures
        rounded_between(line, a, b) <= b - a,
    decreases b - a,
{
    if a < b {
        lemma_rounded_bound(line, a, b - 1);
    }
}

/// The line from `i` on after its rounded rocks have rolled as far as they
/// go, to the front or to the end: cube rocks stay, and on each stretch
/// between them the rounded rocks gather.
pub open spec fn slid_from(line: Seq<Tile>, i: int, to_front: bool) -> Seq<Tile>
    decreases line.len() - i,
{
    if i < 0 || i >= line.len() {
        Seq::empty()
    } else if line[i] == Tile::CubeRock {
        seq![Tile::CubeRock] + slid_from(line, i + 1, to_front)
    } else {
        let e = stretch_end(line, i);
        proof {
            lemma_stretch_end(line, i + 1);
        }
        gathered(e - i, rounded_between(line, i, e) as int, to_front) + slid_from(
            line,
            e,
            to_front,
        )
    }
}

/// The line after its rounded rocks have rolled.
pub open spec fn slid(line: Seq<Tile>, to_front: bool) -> Seq<Tile> {
    slid_from(line, 0, to_front)
}

/// A slid line is as long as the line was.
pub proof fn lemma_slid_len(line: Seq<Tile>, i: int, to_front: bool)
    requires
        0 <= i <= line.len(),
    ensures
        slid_from(line, i, to_front).len() == line.len() - i,
    decreases line.len() - i,
{
    if i < line.len() {
        if line[i] == Tile::CubeRock {
            lemma_slid_len(line, i + 1, to_front);
        } else {
            lemma_stretch_end(line, i + 1);
            lemma_slid_len(line, stretch_end(line, i), to_front);
        }
    }
}

/// The line with its rounded rocks rolled to the front or to the end.
pub fn slide_line(line: &Vec<Tile>, to_front: bool) -> (r: Vec<Tile>)
    ensures
        r@ == slid(line@, to_front),
        r.len() == line.len(),
{
    let mut out: Vec<Tile> = Vec::new();
    let mut i: usize = 0;
    proof {
        assert(out@ + slid_from(line@, 0, to_front) =~= slid(line@, to_front));
    }
    while i < line.len()
        invariant
            i <= line.len(),
            slid(line@, to_front) == out@ + slid_from(line@, i as int, to_front),
        decreases line.len() - i,
    {
        if line[i] == Tile::CubeRock {
            let ghost before = out@;
            out.push(Tile::CubeRock);
            proof {
                assert(before + (seq![Tile::CubeRock] + slid_from(line@, i + 1, to_front)) =~= out@
                    + slid_from(line@, i + 1, to_front));
            }
            i += 1;
        } else {
            let mut e: usize = i;
            let mut k: usize = 0;
            while e < line.len() && line[e] != Tile::CubeRock
                invariant
                    i <= e <= line.len(),
                    stretch_end(line@, i as int) == stretch_end(line@, e as int),
                    k == rounded_between(line@, i as int, e as int),
                    k <= e - i,
                decreases line.len() - e,
            {
                if line[e] == Tile::RoundedRock {
                    k += 1;
                }
                e += 1;
            }
            let len: usize = e - i;
            let ghost before = out@;
            let mut j: usize = 0;
            while j < len
                invariant
                    j <= len,
                    k <= len,
                    out@ == before + gathered(len as int, k as int, to_front).subrange(0, j as int),
                decreases len - j,
            {
                let t = if (to_front && j < k) || (!to_front && j >= len - k) {
                    Tile::RoundedRock
                } else {
                    Tile::Empty
                };
                out.push(t);
                j += 1;
                proof {
                    assert(out@ =~= before + gathered(len as int, k as int, to_front).subrange(
                        0,
                        j as int,
                    ));
                }
            }
            proof {
                let g = gathered(len as int, k as int, to_front);
                assert(g.subrange(0, len as int) =~= g);
                assert(before + (g + slid_from(line@, e as int, to_front)) =~= out@ + slid_from(
                    line@,
                    e as int,
                    to_front,
                ));
            }
            i = e;
        }
    }
    proof {
        assert(out@ + Seq::<Tile>::empty() =~= out@);
        lemma_slid_len(line@, 0, to_front);
    }
    out
}


/// A platform, as a value of mathematics: its cells row by row, row 0
/// being the north side.
pub struct Platform {
    pub width: nat,
    pub height: nat,
    pub cells: Seq<Tile>,
}

impl Platform {
    /// The cell at column `x` of row `y`.
    pub open spec fn cell(self, x: int, y: int) -> Tile {
        self.cells[cell_index(self.width as int, x, y)]
    }

    /// Column `x`, from north to south.
    pub open spec fn column(self, x: int) -> Seq<Tile> {
        Seq::new(self.height, |y: int| self.cell(x, y))
    }

    /// Row `y`, from west to east.
    pub open spec fn row(self, y: int) -> Seq<Tile> {
        Seq::new(self.width, |x: int| self.cell(x, y))
    }

    /// The cell at `(x, y)` after the platform has been tilted towards
    /// `dir`.
    pub open spec fn slid_cell(self, dir: Direction, x: int, y: int) -> Tile {
        match dir {
            Direction::Up => slid(self.column(x), true)[y],
            Direction::Down => slid(self.column(x), false)[y],
            Direction::Left => slid(self.row(y), true)[x],
            Direction::Right => slid(self.row(y), false)[x],
        }
    }

    /// The platform after it has been tilted towards `dir`: the rounded
    /// rocks have rolled that way as far as they go.
    pub open spec fn slide(self, dir: Direction) -> Platform {
        Platform {
            width: self.width,
            height: self.height,
            cells: Seq::new(
                self.width * self.height,
                |i: int| self.slid_cell(dir, i % (self.width as int), i / (self.width as int)),
            ),
        }
    }

    /// The platform after it has been tilted north, west, south and east.
    pub open spec fn cycle(self) -> Platform {
        self.slide(Direction::Up).slide(Direction::Left).slide(Direction::Down).slide(
            Direction::Right,
        )
    }

    /// The platform after `n` cycles.
    pub open spec fn after(self, n: nat) -> Platform
        decreases n,
    {
        if n == 0 {
            self
        } else {
            self.after((n - 1) as nat).cycle()
        }
    }

    /// The load of the first `k` rows: each rounded rock counts as many as
    /// there are rows from its own to the south side.
    pub open spec fn load_to(self, k: nat) -> nat
        decreases k,
    {
        if k == 0 {
            0
        } else {
            self.load_to((k - 1) as nat) + rounded_between(self.row(k - 1), 0, self.width as int)
                * ((self.height - (k - 1)) as nat)
        }
    }

    /// The load on the north side.
    pub open spec fn load(self) -> nat {
        self.load_to(self.height)
    }

    /// The load grows with the rows.
    pub proof fn lemma_load_grows(self, j: nat, k: nat)
        requires
            j <= k,
        ensures
            self.load_to(j) <= self.load_to(k),
        decreases k,
    {
        if j < k {
            self.lemma_load_grows(j, (k - 1) as nat);
        }
    }

    /// Once a state has come back after `d` more cycles, it comes back
    /// after every `d` more cycles.
    pub proof fn lemma_shift(self, b: nat, d: nat, j: nat)
        requires
            self.after(b) == self.after(b + d),
        ensures
            self.after(b + j) == self.after(b + d + j),
        decreases j,
    {
        if j > 0 {
            self.lemma_shift(b, d, (j - 1) as nat);
        }
    }

    /// Once a state has come back after `d` more cycles, only the
    /// remainder by `d` of the number of further cycles counts.
    pub proof fn lemma_periodic(self, b: nat, d: nat, k: nat)
        requires
            d > 0,
            self.after(b) == self.after(b + d),
        ensures
            self.after(b + k) == self.after(b + k % d),
        decreases k,
    {
        if k >= d {
            self.lemma_periodic(b, d, (k - d) as nat);
            self.lemma_shift(b, d, (k - d) as nat);
            vstd::arithmetic::div_mod::lemma_mod_sub_multiples_vanish(k as int, d as int);
            assert(((k - d) as nat) % d == k % d) by {
                vstd::arithmetic::div_mod::lemma_mod_sub_multiples_vanish(k as int, d as int);
                assert((-(d as int) + k) % (d as int) == (k as int) % (d as int));
            }
        } else {
            vstd::arithmetic::div_mod::lemma_small_mod(k, d);
        }
    }
}

/// The platform that the grid `g` holds.
pub open spec fn platform_in(g: &VecGrid<Tile>) -> Platform {
    Platform { width: g.width as nat, height: g.height as nat, cells: g.grid_raw@ }
}

/// Every index of the cells is the index of a cell of the platform.
pub proof fn lemma_cell_of_index(w: int, h: int, i: int)
    requires
        0 <= i < w * h,
        0 <= w,
        0 <= h,
    ensures
        0 <= i % w < w,
        0 <= i / w < h,
        cell_index(w, i % w, i / w) == i,
{
    assert(w > 0) by (nonlinear_arith)
        requires
            0 <= i < w * h,
            0 <= w,
            0 <= h,
    ;
    vstd::arithmetic::div_mod::lemma_fundamental_div_mod(i, w);
    vstd::arithmetic::div_mod::lemma_mod_bound(i, w);
    assert(w * (i / w) == (i / w) * w) by (nonlinear_arith);
    assert(0 <= i / w < h) by (nonlinear_arith)
        requires
            0 <= i < w * h,
            w > 0,
            i == w * (i / w) + i % w,
            0 <= i % w < w,
    ;
}

/// Whether `dir` points along the columns.
pub fn is_vertical(dir: Direction) -> (r: bool)
    ensures
        r == (dir == Direction::Up || dir == Direction::Down),
{
    match dir {
        Direction::Up => true,
        Direction::Down => true,
        Direction::Left => false,
        Direction::Right => false,
    }
}

/// The cell of line `line` at place `k`: lines are columns if `vertical`
/// holds, else rows.
pub open spec fn line_cell(p: Platform, vertical: bool, line: int, k: int) -> Tile {
    if vertical {
        p.cell(line, k)
    } else {
        p.cell(k, line)
    }
}

/// Tilts the platform towards `dir`.
pub fn slide(platform: &mut VecGrid<Tile>, dir: Direction)
    requires
        old(platform).wf(),
    ensures
        final(platform).wf(),
        platform_in(final(platform)) == platform_in(old(platform)).slide(dir),
{
    let ghost p0 = platform_in(platform);
    let vertical = is_vertical(dir);
    let to_front = match dir {
        Direction::Up => true,
        Direction::Left => true,
        Direction::Down => false,
        Direction::Right => false,
    };
    let w = platform.width;
    let h = platform.height;
    let count = if vertical {
        w
    } else {
        h
    };
    let len = if vertical {
        h
    } else {
        w
    };
    let mut line: usize = 0;
    while line < count
        invariant
            platform.wf(),
            platform.width == w,
            platform.height == h,
            p0.width == w,
            p0.height == h,
            p0.cells.len() == w * h,
            vertical == (dir == Direction::Up || dir == Direction::Down),
            to_front == (dir == Direction::Up || dir == Direction::Left),
            count == if vertical {
                w
            } else {
                h
            },
            len == if vertical {
                h
            } else {
                w
            },
            line <= count,
            forall|x: int, y: int|
                0 <= x < w && 0 <= y < h ==> #[trigger] platform.at(x, y) == Some(
                    if (if vertical {
                        x
                    } else {
                        y
                    }) < line {
                        p0.slid_cell(dir, x, y)
                    } else {
                        p0.cell(x, y)
                    },
                ),
        decreases count - line,
    {
        let mut cells: Vec<Tile> = Vec::new();
        let mut k: usize = 0;
        while k < len
            invariant
                platform.wf(),
                platform.width == w,
                platform.height == h,
                p0.width == w,
                p0.height == h,
                line < count,
                count == if vertical {
                    w
                } else {
                    h
                },
                len == if vertical {
                    h
                } else {
                    w
                },
                k <= len,
                cells.len() == k,
                forall|x: int, y: int|
                    0 <= x < w && 0 <= y < h && (if vertical {
                        x
                    } else {
                        y
                    }) >= line ==> #[trigger] platform.at(x, y) == Some(p0.cell(x, y)),
                forall|j: int| 0 <= j < k ==> #[trigger] cells@[j] == line_cell(p0, vertical, line as int, j),
            decreases len - k,
        {
            let c = if vertical {
                platform.get(line, k)
            } else {
                platform.get(k, line)
            };
            match c {
                Some(t) => {
                    cells.push(*t);
                },
                None => {
                    assert(false);
                },
            }
            k += 1;
        }
        proof {
            let old_line = if vertical {
                p0.column(line as int)
            } else {
                p0.row(line as int)
            };
            assert(cells@ =~= old_line);
        }
        let moved = slide_line(&cells, to_front);
        let mut k: usize = 0;
        while k < len
            invariant
                platform.wf(),
                platform.width == w,
                platform.height == h,
                p0.width == w,
                p0.height == h,
                line < count,
                vertical == (dir == Direction::Up || dir == Direction::Down),
                to_front == (dir == Direction::Up || dir == Direction::Left),
                count == if vertical {
                    w
                } else {
                    h
                },
                len == if vertical {
                    h
                } else {
                    w
                },
                k <= len,
                moved.len() == len,
                moved@ == slid(
                    if vertical {
                        p0.column(line as int)
                    } else {
                        p0.row(line as int)
                    },
                    to_front,
                ),
                forall|x: int, y: int|
                    0 <= x < w && 0 <= y < h ==> #[trigger] platform.at(x, y) == Some(
                        if (if vertical {
                            x
                        } else {
                            y
                        }) < line || ((if vertical {
                            x
                        } else {
                            y
                        }) == line && (if vertical {
                            y
                        } else {
                            x
                        }) < k) {
                            p0.slid_cell(dir, x, y)
                        } else {
                            p0.cell(x, y)
                        },
                    ),
            decreases len - k,
        {
            let t = moved[k];
            let target = if vertical {
                platform.get_mut(line, k)
            } else {
                platform.get_mut(k, line)
            };
            match target {
                Some(c) => {
                    *c = t;
                },
                None => {
                    assert(false);
                },
            }
            k += 1;
        }
        line += 1;
    }
    proof {
        let now = platform_in(platform);
        let want = p0.slide(dir);
        assert forall|i: int| 0 <= i < now.cells.len() implies now.cells[i] == want.cells[i] by {
            lemma_cell_of_index(w as int, h as int, i);
            assert(platform.at(i % (w as int), i / (w as int)) == Some(
                p0.slid_cell(dir, i % (w as int), i / (w as int)),
            ));
        }
        assert(now.cells =~= want.cells);
    }
}

/// Tilts the platform north, west, south and east.
pub fn cycle(platform: &mut VecGrid<Tile>)
    requires
        old(platform).wf(),
    ensures
        final(platform).wf(),
        platform_in(final(platform)) == platform_in(old(platform)).cycle(),
{
    slide(platform, Direction::Up);
    slide(platform, Direction::Left);
    slide(platform, Direction::Down);
    slide(platform, Direction::Right);
}

/// The load on the north side.
pub fn total_load(platform: &VecGrid<Tile>) -> (r: usize)
    requires
        platform.wf(),
        platform_in(platform).load() <= usize::MAX,
    ensures
        r == platform_in(platform).load(),
{
    let ghost p = platform_in(platform);
    let w = platform.width;
    let h = platform.height;
    let mut sum: usize = 0;
    let mut y: usize = 0;
    while y < h
        invariant
            platform.wf(),
            p == platform_in(platform),
            w == platform.width,
            h == platform.height,
            y <= h,
            sum == p.load_to(y as nat),
            p.load() <= usize::MAX,
        decreases h - y,
    {
        let mut num_rocks: usize = 0;
        let mut x: usize = 0;
        while x < w
            invariant
                platform.wf(),
                p == platform_in(platform),
                w == platform.width,
                h == platform.height,
                y < h,
                x <= w,
                num_rocks == rounded_between(p.row(y as int), 0, x as int),
                num_rocks <= x,
            decreases w - x,
        {
            let c = platform.get(x, y);
            let rock = match c {
                Some(t) => *t == Tile::RoundedRock,
                None => false,
            };
            proof {
                assert(p.row(y as int)[x as int] == p.cell(x as int, y as int));
            }
            if rock {
                num_rocks += 1;
            }
            x += 1;
        }
        proof {
            p.lemma_load_grows((y + 1) as nat, h as nat);
            assert(p.load_to((y + 1) as nat) == p.load_to(y as nat) + num_rocks * (h - y));
            assert(0 <= num_rocks * (h - y)) by (nonlinear_arith)
                requires
                    0 <= num_rocks,
                    0 <= h - y,
            ;
        }
        sum = sum + num_rocks * (h - y);
        y += 1;
    }
    sum
}


/// Whether the text is the map of a platform: a block with cells, made of
/// the bytes `O`, `#` and `.`.
pub open spec fn is_platform_map(s: Seq<u8>) -> bool {
    let rows = crate::text::split_on(s, seq![10u8]);
    &&& is_block(s)
    &&& s.len() < usize::MAX
    &&& block_width(s) > 0
    &&& block_height(s) > 0
    &&& forall|x: int, y: int|
        0 <= x < block_width(s) && 0 <= y < block_height(s) ==> {
            let c = #[trigger] rows[y][x];
            c == 79 || c == 35 || c == 46
        }
}

/// The platform that the map `s` shows.
pub open spec fn platform_of(s: Seq<u8>) -> Platform {
    let rows = crate::text::split_on(s, seq![10u8]);
    let w = block_width(s);
    Platform {
        width: w,
        height: block_height(s),
        cells: Seq::new(
            w * block_height(s),
            |i: int| tile_of(rows[i / (w as int)][i % (w as int)]),
        ),
    }
}

/// The platform that the map shows.
pub fn process_input(input: &str) -> (r: VecGrid<Tile>)
    requires
        is_platform_map(input.spec_bytes()),
    ensures
        r.wf(),
        platform_in(&r) == platform_of(input.spec_bytes()),
{
    let ascii_grid = AsciiGrid::from_ascii(input.as_bytes());
    let ghost s = input.spec_bytes();
    let ghost rows = crate::text::split_on(s, seq![10u8]);
    let w = ascii_grid.width();
    let h = ascii_grid.height();
    let mut cells: Vec<Tile> = Vec::new();
    let mut y: usize = 0;
    while y < h
        invariant
            ascii_grid.wf(),
            is_platform_map(s),
            rows == crate::text::split_on(s, seq![10u8]),
            w == block_width(s),
            h == block_height(s),
            w == ascii_grid.spec_width(),
            h == ascii_grid.spec_height(),
            forall|x: int, y: int|
                0 <= x < w && 0 <= y < h ==> #[trigger] ascii_grid.at(x, y) == Some(rows[y][x]),
            y <= h,
            cells.len() == y * w,
            forall|i: int|
                0 <= i < cells.len() ==> #[trigger] cells@[i] == tile_of(
                    rows[i / (w as int)][i % (w as int)],
                ),
        decreases h - y,
    {
        let mut x: usize = 0;
        while x < w
            invariant
                ascii_grid.wf(),
                is_platform_map(s),
                rows == crate::text::split_on(s, seq![10u8]),
                w == block_width(s),
                h == block_height(s),
                w == ascii_grid.spec_width(),
                h == ascii_grid.spec_height(),
                forall|x: int, y: int|
                    0 <= x < w && 0 <= y < h ==> #[trigger] ascii_grid.at(x, y) == Some(rows[y][x]),
                y < h,
                x <= w,
                cells.len() == y * w + x,
                forall|i: int|
                    0 <= i < cells.len() ==> #[trigger] cells@[i] == tile_of(
                        rows[i / (w as int)][i % (w as int)],
                    ),
            decreases w - x,
        {
            proof {
                assert(0 <= y * w) by (nonlinear_arith)
                    requires
                        0 <= y,
                        0 <= w,
                ;
                vstd::arithmetic::div_mod::lemma_fundamental_div_mod_converse(
                    y * w + x,
                    w as int,
                    y as int,
                    x as int,
                );
                assert(ascii_grid.at(x as int, y as int) == Some(rows[y as int][x as int]));
            }
            match ascii_grid.get(x, y) {
                Some(c) => {
                    cells.push(Tile::from_ascii(*c));
                },
                None => {
                    assert(false);
                },
            }
            x += 1;
        }
        proof {
            assert((y + 1) * w == y * w + w) by (nonlinear_arith);
        }
        y += 1;
    }
    proof {
        assert(w * h == h * w) by (nonlinear_arith);
        assert(cells@ =~= platform_of(s).cells);
    }
    VecGrid { width: w, height: h, grid_raw: cells }
}

/// The load after the platform has been tilted north.
pub fn day14_1(input: &str) -> (r: Result<usize, ()>)
    requires
        is_platform_map(input.spec_bytes()),
        platform_of(input.spec_bytes()).slide(Direction::Up).load() <= usize::MAX,
    ensures
        r == Ok::<usize, ()>(
            platform_of(input.spec_bytes()).slide(Direction::Up).load() as usize,
        ),
{
    let mut platform = process_input(input);
    slide(&mut platform, Direction::Up);
    Ok(total_load(&platform))
}

/// A copy of the cells.
fn copy_cells(cells: &Vec<Tile>) -> (r: Vec<Tile>)
    ensures
        r@ == cells@,
{
    let mut out: Vec<Tile> = Vec::new();
    let mut i: usize = 0;
    while i < cells.len()
        invariant
            i <= cells.len(),
            out@ == cells@.subrange(0, i as int),
        decreases cells.len() - i,
    {
        out.push(cells[i]);
        i += 1;
        proof {
            assert(out@ =~= cells@.subrange(0, i as int));
        }
    }
    proof {
        assert(cells@.subrange(0, i as int) =~= cells@);
    }
    out
}

/// Whether two lists of cells are the same.
fn same_cells(a: &Vec<Tile>, b: &Vec<Tile>) -> (r: bool)
    ensures
        r == (a@ == b@),
{
    if a.len() != b.len() {
        return false;
    }
    let mut i: usize = 0;
    while i < a.len()
        invariant
            i <= a.len(),
            a.len() == b.len(),
            forall|k: int| 0 <= k < i ==> a@[k] == b@[k],
        decreases a.len() - i,
    {
        if a[i] != b[i] {
            return false;
        }
        i += 1;
    }
    proof {
        assert(a@ =~= b@);
    }
    true
}

/// The platform after `count` cycles. A state that comes back is
/// recognised, and the cycles that only lead round to it again are left
/// out.
pub fn run_cycles(platform: &mut VecGrid<Tile>, count: usize)
    requires
        old(platform).wf(),
    ensures
        final(platform).wf(),
        platform_in(final(platform)) == platform_in(old(platform)).after(count as nat),
{
    let ghost p0 = platform_in(platform);
    let mut remaining_cycles: usize = count;
    let mut seen_states: Vec<(Vec<Tile>, usize)> = Vec::new();
    while remaining_cycles != 0
        invariant_except_break
            platform_in(platform) == p0.after((count - remaining_cycles) as nat),
            forall|j: int|
                0 <= j < seen_states.len() ==> remaining_cycles <= (#[trigger] seen_states@[j]).1
                    <= count && seen_states@[j].0@ == p0.after(
                    (count - seen_states@[j].1) as nat,
                ).cells,
        invariant
            platform.wf(),
            p0.width == platform.width,
            p0.height == platform.height,
            remaining_cycles <= count,
        ensures
            platform.wf(),
            remaining_cycles <= count,
            p0.after(count as nat) == platform_in(platform).after(remaining_cycles as nat),
        decreases remaining_cycles,
    {
        remaining_cycles -= 1;
        cycle(platform);
        let mut j: usize = 0;
        let mut found = false;
        while j < seen_states.len()
            invariant_except_break
                !found,
            invariant
                j <= seen_states.len(),
                forall|k: int| 0 <= k < j ==> (#[trigger] seen_states@[k]).0@ != platform.grid_raw@,
            ensures
                j <= seen_states.len(),
                found ==> j < seen_states.len() && seen_states@[j as int].0@
                    == platform.grid_raw@,
            decreases seen_states.len() - j,
        {
            if same_cells(&seen_states[j].0, &platform.grid_raw) {
                found = true;
                break ;
            }
            j += 1;
        }
        if found {
            let last_seen = seen_states[j].1;
            let diff = last_seen - remaining_cycles;
            let ghost b = (count - last_seen) as nat;
            let ghost left = remaining_cycles as nat;
            proof {
                lemma_rows_kept(p0, b);
                assert(p0.after(b) == platform_in(platform));
                assert(p0.after(b) == p0.after(b + diff as nat));
                p0.lemma_periodic(b, diff as nat, (diff + left) as nat);
                p0.lemma_periodic(b, diff as nat, (diff + left % (diff as nat)) as nat);
                vstd::arithmetic::div_mod::lemma_mod_add_multiples_vanish(
                    left as int,
                    diff as int,
                );
                vstd::arithmetic::div_mod::lemma_mod_add_multiples_vanish(
                    (left % (diff as nat)) as int,
                    diff as int,
                );
                vstd::arithmetic::div_mod::lemma_mod_twice(left as int, diff as int);
                lemma_after_add(p0, b + diff as nat, left);
                lemma_after_add(p0, b + diff as nat, left % (diff as nat));
            }
            remaining_cycles = remaining_cycles % diff;
            break ;
        }
        let snapshot = copy_cells(&platform.grid_raw);
        seen_states.push((snapshot, remaining_cycles));
        proof {
            lemma_after_add(p0, (count - remaining_cycles) as nat, remaining_cycles as nat);
        }
    }
    proof {
        if remaining_cycles == 0 {
        }
    }
    let ghost mid = platform_in(platform);
    let ghost rest = remaining_cycles;
    while remaining_cycles != 0
        invariant
            platform.wf(),
            remaining_cycles <= rest,
            platform_in(platform) == mid.after((rest - remaining_cycles) as nat),
        decreases remaining_cycles,
    {
        remaining_cycles -= 1;
        cycle(platform);
    }
}

/// Cycles one after another: `m` more after `n`.
pub proof fn lemma_after_add(p: Platform, n: nat, m: nat)
    ensures
        p.after(n).after(m) == p.after(n + m),
    decreases m,
{
    if m > 0 {
        lemma_after_add(p, n, (m - 1) as nat);
    }
}

/// Cycles do not change the sides of the platform.
pub proof fn lemma_rows_kept(p: Platform, n: nat)
    ensures
        p.after(n).width == p.width,
        p.after(n).height == p.height,
    decreases n,
{
    if n > 0 {
        lemma_rows_kept(p, (n - 1) as nat);
    }
}

/// The load after a thousand million cycles.
pub fn day14_2(input: &str) -> (r: Result<usize, ()>)
    requires
        is_platform_map(input.spec_bytes()),
        platform_of(input.spec_bytes()).after(1_000_000_000).load() <= usize::MAX,
    ensures
        r == Ok::<usize, ()>(platform_of(input.spec_bytes()).after(1_000_000_000).load() as usize),
{
    let mut platform = process_input(input);
    run_cycles(&mut platform, 1_000_000_000);
    Ok(total_load(&platform))
}

} // verus!
