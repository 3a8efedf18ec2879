//! Sand that pours into a cave of rock until it comes to rest no more.

use crate::iters::windows;
use crate::text::{
    cut_once, lines, lines_of, parse_int, parse_usize, split, split_on, split_once, trim, trimmed,
    views,
};
use crate::y2022::grid::{filled, Grid};
use vstd::prelude::*;
use vstd::string::*;

verus! {

/// What a tile of the cave holds.
#[derive(Debug, Clone, Copy, PartialEq, Eq, Structural)]
pub enum Tile {
    Air,
    Rock,
    Sand,
}

/// A tile of the cave: its column and its row.
pub type Coord = (usize, usize);

/// The sides of the cave.
pub const WIDTH: usize = 1000;

/// The number of rows of the cave.
pub const HEIGHT: usize = 200;

/// A line of rock from `a` to `b`, along one axis.
#[derive(Debug, Clone, Copy)]
pub struct Line {
    pub a: Coord,
    pub b: Coord,
}

impl Line {
    pub fn new(a: Coord, b: Coord) -> (r: Self)
        requires
            a.0 == b.0 || a.1 == b.1,
        ensures
            r.a == a,
            r.b == b,
    {
        Self { a, b }
    }

    /// Whether `(x, y)` lies between the two ends.
    pub open spec fn holds(&self, x: int, y: int) -> bool {
        &&& (self.a.0 <= x <= self.b.0 || self.b.0 <= x <= self.a.0)
        &&& (self.a.1 <= y <= self.b.1 || self.b.1 <= y <= self.a.1)
    }

    /// Both ends lie in the cave.
    pub open spec fn fits(&self) -> bool {
        self.a.0 < WIDTH && self.b.0 < WIDTH && self.a.1 < HEIGHT && self.b.1 < HEIGHT
    }
}

/// The tile at `(x, y)` of a cave whose tiles are `cells`, row by row.
pub open spec fn tile(cells: Seq<Tile>, x: int, y: int) -> Tile {
    cells[y * 1000 + x]
}

/// Whether the grid is a cave: 1000 by 200 tiles.
pub open spec fn is_cave(grid: &Grid<Tile>) -> bool {
    grid.wf() && grid.width == WIDTH && grid.height == HEIGHT
}

/// The cave with rock at every tile of the line.
pub open spec fn with_rocks(cells: Seq<Tile>, line: Line) -> Seq<Tile> {
    Seq::new(
        cells.len(),
        |i: int|
            if line.holds(i % 1000, i / 1000) {
                Tile::Rock
            } else {
                cells[i]
            },
    )
}

/// Puts rock at every tile of the line.
pub fn add_rocks(grid: &mut Grid<Tile>, line: Line)
    requires
        is_cave(old(grid)),
        line.fits(),
    ensures
        is_cave(final(grid)),
        final(grid).grid_raw@ == with_rocks(old(grid).grid_raw@, line),
{
    let (x1, y1) = line.a;
    let (x2, y2) = line.b;
    let (xa, xb) = if x1 > x2 {
        (x2, x1)
    } else {
        (x1, x2)
    };
    let (ya, yb) = if y1 > y2 {
        (y2, y1)
    } else {
        (y1, y2)
    };
    let ghost before = grid.grid_raw@;
    let mut x: usize = xa;
    while x <= xb
        invariant
            is_cave(grid),
            before.len() == 200000,
            xa <= x <= xb + 1,
            xb < WIDTH,
            ya <= yb < HEIGHT,
            forall|i: int|
                0 <= i < 200000 ==> #[trigger] grid.grid_raw@[i] == if xa <= i % 1000 < x && ya <= i
                    / 1000 <= yb {
                    Tile::Rock
                } else {
                    before[i]
                },
        decreases xb + 1 - x,
    {
        let mut y: usize = ya;
        while y <= yb
            invariant
                is_cave(grid),
                before.len() == 200000,
                xa <= x <= xb,
                xb < WIDTH,
                ya <= y <= yb + 1,
                yb < HEIGHT,
                forall|i: int|
                    0 <= i < 200000 ==> #[trigger] grid.grid_raw@[i] == if (xa <= i % 1000 < x
                        && ya <= i / 1000 <= yb) || (i % 1000 == x && ya <= i / 1000 < y) {
                        Tile::Rock
                    } else {
                        before[i]
                    },
            decreases yb + 1 - y,
        {
            grid.set(x, y, Tile::Rock);
            y += 1;
        }
        x += 1;
    }
    proof {
        assert(grid.grid_raw@ =~= with_rocks(before, line));
    }
}

/// Where sand comes to rest that is at `(x, y)`: it falls on while the
/// tile below, the one below to the left or the one below to the right
/// is air, in this order; `None` where it comes to the lowest row.
pub open spec fn fall(cells: Seq<Tile>, x: int, y: int) -> Option<(int, int)>
    decreases 200 - y,
{
    if y + 1 >= 200 {
        None
    } else if tile(cells, x, y + 1) == Tile::Air {
        fall(cells, x, y + 1)
    } else if tile(cells, x - 1, y + 1) == Tile::Air {
        fall(cells, x - 1, y + 1)
    } else if tile(cells, x + 1, y + 1) == Tile::Air {
        fall(cells, x + 1, y + 1)
    } else {
        Some((x, y))
    }
}

/// Where the next sand comes to rest: it sets out at `(500, 0)`; `None`
/// where sand lies there already.
pub open spec fn next_spot(cells: Seq<Tile>) -> Option<(int, int)> {
    if tile(cells, 500, 0) == Tile::Sand {
        None
    } else {
        fall(cells, 500, 0)
    }
}

/// Where the next sand comes to rest.
pub fn next_sand_spot(grid: &Grid<Tile>) -> (r: Option<Coord>)
    requires
        is_cave(grid),
    ensures
        match r {
            Some(c) => next_spot(grid.grid_raw@) == Some((c.0 as int, c.1 as int)) && c.0 < WIDTH
                && c.1 < HEIGHT && tile(grid.grid_raw@, c.0 as int, c.1 as int) != Tile::Sand,
            None => next_spot(grid.grid_raw@) is None,
        },
{
    let ghost cells = grid.grid_raw@;
    let mut x: usize = 500;
    let mut y: usize = 0;
    if *grid.get_unchecked(x, y) == Tile::Sand {
        return None;
    }
    while y + 1 < grid.height
        invariant
            is_cave(grid),
            cells == grid.grid_raw@,
            y < HEIGHT,
            500 - y <= x <= 500 + y,
            tile(cells, x as int, y as int) != Tile::Sand,
            next_spot(cells) == fall(cells, x as int, y as int),
        decreases HEIGHT - y,
    {
        if *grid.get_unchecked(x, y + 1) == Tile::Air {
            y += 1;
        } else if *grid.get_unchecked(x - 1, y + 1) == Tile::Air {
            y += 1;
            x -= 1;
        } else if *grid.get_unchecked(x + 1, y + 1) == Tile::Air {
            y += 1;
            x += 1;
        } else {
            return Some((x, y));
        }
    }
    None
}

/// The cave after sand has come to rest in it `fuel` times at most.
pub open spec fn poured(cells: Seq<Tile>, fuel: nat) -> Seq<Tile>
    decreases fuel,
{
    if fuel == 0 {
        cells
    } else {
        match next_spot(cells) {
            Some(c) => poured(cells.update(c.1 * 1000 + c.0, Tile::Sand), (fuel - 1) as nat),
            None => cells,
        }
    }
}

/// The number of the first `n` tiles that are no sand.
pub open spec fn free(cells: Seq<Tile>, n: nat) -> nat
    decreases n,
{
    if n == 0 {
        0
    } else {
        free(cells, (n - 1) as nat) + if cells[n - 1] != Tile::Sand {
            1nat
        } else {
            0nat
        }
    }
}

/// Sand on a tile that had none leaves one tile less without sand.
pub proof fn lemma_free(cells: Seq<Tile>, i: int, n: nat)
    requires
        0 <= i < cells.len(),
        n <= cells.len(),
        cells[i] != Tile::Sand,
    ensures
        free(cells, n) == free(cells.update(i, Tile::Sand), n) + if i < n {
            1nat
        } else {
            0nat
        },
        free(cells, n) <= n,
    decreases n,
{
    if n > 0 {
        lemma_free(cells, i, (n - 1) as nat);
    }
}

/// Lets sand pour in until none comes to rest.
pub fn pour_sand(grid: &mut Grid<Tile>)
    requires
        is_cave(old(grid)),
    ensures
        is_cave(final(grid)),
        final(grid).grid_raw@ == poured(old(grid).grid_raw@, 200000),
{
    let ghost mut fuel: nat = 200000;
    let ghost first = grid.grid_raw@;
    proof {
        lemma_free_bound(first, 200000);
    }
    let mut more = true;
    while more
        invariant
            is_cave(grid),
            free(grid.grid_raw@, 200000) <= fuel,
            more ==> poured(first, 200000) == poured(grid.grid_raw@, fuel),
            !more ==> poured(first, 200000) == grid.grid_raw@,
        decreases fuel + if more { 1int } else { 0int },
    {
        match next_sand_spot(grid) {
            Some((x, y)) => {
                proof {
                    lemma_free(grid.grid_raw@, y * 1000 + x, 200000);
                }
                grid.set(x, y, Tile::Sand);
                proof {
                    fuel = (fuel - 1) as nat;
                }
            },
            None => {
                more = false;
            },
        }
    }
}

/// No more tiles are without sand than there are.
pub proof fn lemma_free_bound(cells: Seq<Tile>, n: nat)
    ensures
        free(cells, n) <= n,
    decreases n,
{
    if n > 0 {
        lemma_free_bound(cells, (n - 1) as nat);
    }
}

/// The number of the first `n` tiles that are sand.
pub open spec fn sand_count(cells: Seq<Tile>, n: nat) -> nat
    decreases n,
{
    if n == 0 {
        0
    } else {
        sand_count(cells, (n - 1) as nat) + if cells[n - 1] == Tile::Sand {
            1nat
        } else {
            0nat
        }
    }
}

fn count_sand(grid: &Grid<Tile>) -> (r: usize)
    requires
        is_cave(grid),
    ensures
        r == sand_count(grid.grid_raw@, 200000),
{
    let mut count: usize = 0;
    let mut i: usize = 0;
    while i < grid.grid_raw.len()
        invariant
            is_cave(grid),
            i <= 200000,
            count <= i,
            count == sand_count(grid.grid_raw@, i as nat),
        decreases grid.grid_raw.len() - i,
    {
        if grid.grid_raw[i] == Tile::Sand {
            count += 1;
        }
        i += 1;
    }
    count
}

/// Puts rock at every tile of row `y`.
pub fn add_floor(grid: &mut Grid<Tile>, y: usize)
    requires
        is_cave(old(grid)),
        y < HEIGHT,
    ensures
        is_cave(final(grid)),
        final(grid).grid_raw@ == with_rocks(
            old(grid).grid_raw@,
            Line { a: (0, y), b: (999, y) },
        ),
{
    let ghost before = grid.grid_raw@;
    let mut x: usize = 0;
    while x < 1000
        invariant
            is_cave(grid),
            before.len() == 200000,
            x <= 1000,
            y < HEIGHT,
            forall|i: int|
                0 <= i < 200000 ==> #[trigger] grid.grid_raw@[i] == if i % 1000 < x && i / 1000 == y {
                    Tile::Rock
                } else {
                    before[i]
                },
        decreases 1000 - x,
    {
        grid.set(x, y, Tile::Rock);
        x += 1;
    }
    proof {
        assert(grid.grid_raw@ =~= with_rocks(before, Line { a: (0, y), b: (999, y) }));
    }
}


/// The point that a piece of a line spells: two numbers with a comma
/// between them, white space round them left aside.
pub open spec fn point_of(piece: Seq<u8>) -> Option<Coord> {
    match cut_once(trimmed(piece), seq![44u8]) {
        Some(p) => match (
            parse_int(p.0, 0, usize::MAX as int),
            parse_int(p.1, 0, usize::MAX as int),
        ) {
            (Some(x), Some(y)) => Some((x as usize, y as usize)),
            _ => None,
        },
        None => None,
    }
}

/// The points that the first `k` pieces spell, if each spells one.
pub open spec fn points_in(pieces: Seq<Seq<u8>>, k: nat) -> Option<Seq<Coord>>
    decreases k,
{
    if k == 0 {
        Some(Seq::empty())
    } else {
        match (points_in(pieces, (k - 1) as nat), point_of(pieces[k - 1])) {
            (Some(before), Some(c)) => Some(before.push(c)),
            _ => None,
        }
    }
}

/// The points of a line of the text: its pieces between arrows.
pub open spec fn points_of(line: Seq<u8>) -> Option<Seq<Coord>> {
    points_in(split_on(line, seq![45u8, 62u8]), split_on(line, seq![45u8, 62u8]).len())
}

/// The lines of rock from each point to the next.
pub open spec fn rock_lines(points: Seq<Coord>) -> Seq<Line> {
    Seq::new(
        if points.len() == 0 {
            0nat
        } else {
            (points.len() - 1) as nat
        },
        |i: int| Line { a: points[i], b: points[i + 1] },
    )
}

/// The lines of rock that the first `k` lines of the text hold.
pub open spec fn all_lines(ls: Seq<Seq<u8>>, k: nat) -> Seq<Line>
    decreases k,
{
    if k == 0 {
        Seq::empty()
    } else {
        all_lines(ls, (k - 1) as nat) + rock_lines(points_of(ls[k - 1])->0)
    }
}

/// The cave of air with the first `k` of the lines of rock in it.
pub open spec fn cave_with(rocks: Seq<Line>, k: nat) -> Seq<Tile>
    decreases k,
{
    if k == 0 {
        Seq::new(200000, |i: int| Tile::Air)
    } else {
        with_rocks(cave_with(rocks, (k - 1) as nat), rocks[k - 1])
    }
}

/// The greatest `y` of the ends of the first `k` lines of rock.
pub open spec fn lowest_of(rocks: Seq<Line>, k: nat) -> int
    decreases k,
{
    if k == 0 {
        0
    } else {
        let before = lowest_of(rocks, (k - 1) as nat);
        let a = if rocks[k - 1].a.1 > before {
            rocks[k - 1].a.1 as int
        } else {
            before
        };
        if rocks[k - 1].b.1 > a {
            rocks[k - 1].b.1 as int
        } else {
            a
        }
    }
}

/// Whether the lines of the text are a scan of a cave: each spells
/// points, and the lines of rock between them run along an axis inside
/// the cave.
pub open spec fn is_scan(ls: Seq<Seq<u8>>) -> bool {
    &&& forall|i: int| 0 <= i < ls.len() ==> points_of(#[trigger] ls[i]) is Some
    &&& forall|j: int|
        0 <= j < all_lines(ls, ls.len()).len() ==> (#[trigger] all_lines(ls, ls.len())[j]).fits()
            && (all_lines(ls, ls.len())[j].a.0 == all_lines(ls, ls.len())[j].b.0 || all_lines(
            ls,
            ls.len(),
        )[j].a.1 == all_lines(ls, ls.len())[j].b.1)
}

fn parse_points(line: &[u8]) -> (r: Vec<Coord>)
    requires
        points_of(line@) is Some,
    ensures
        r@ == points_of(line@)->0,
{
    let arrow: [u8; 2] = [45, 62];
    let comma: [u8; 1] = [44];
    proof {
        assert(arrow@ =~= seq![45u8, 62u8]);
        assert(comma@ =~= seq![44u8]);
    }
    let pieces = split(line, arrow.as_slice());
    let ghost pv = split_on(line@, seq![45u8, 62u8]);
    let mut out: Vec<Coord> = Vec::new();
    let mut k: usize = 0;
    while k < pieces.len()
        invariant
            k <= pieces@.len(),
            pv == views(pieces@),
            comma@ == seq![44u8],
            points_in(pv, pv.len()) is Some,
            points_in(pv, k as nat) == Some(out@),
        decreases pieces.len() - k,
    {
        proof {
            lemma_points(pv, (k + 1) as nat, pv.len());
            assert(pieces@[k as int]@ == pv[k as int]);
        }
        let t = trim(pieces[k].as_slice());
        let c: Coord = match split_once(t.as_slice(), comma.as_slice()) {
            Some(p) => match (parse_usize(p.0.as_slice()), parse_usize(p.1.as_slice())) {
                (Some(x), Some(y)) => (x, y),
                _ => (0, 0),
            },
            None => (0, 0),
        };
        out.push(c);
        k += 1;
    }
    out
}

/// Where all pieces spell points, the first of them do.
pub proof fn lemma_points(pieces: Seq<Seq<u8>>, k: nat, n: nat)
    requires
        points_in(pieces, n) is Some,
        k <= n,
    ensures
        points_in(pieces, k) is Some,
    decreases n,
{
    if k < n {
        lemma_points(pieces, k, (n - 1) as nat);
    }
}

/// The lines of rock of the first lines of the text are the first of
/// all.
pub proof fn lemma_all_lines(ls: Seq<Seq<u8>>, k: nat, n: nat)
    requires
        k <= n,
    ensures
        all_lines(ls, k).len() <= all_lines(ls, n).len(),
        forall|j: int| 0 <= j < all_lines(ls, k).len() ==> all_lines(ls, k)[j] == all_lines(ls, n)[j],
    decreases n,
{
    if k < n {
        lemma_all_lines(ls, k, (n - 1) as nat);
    }
}

/// The cave that the text describes, and the greatest `y` of its rock.
pub fn parse_input(input: &str) -> (r: (Grid<Tile>, usize))
    requires
        is_scan(lines_of(input.spec_bytes())),
    ensures
        is_cave(&r.0),
        r.0.grid_raw@ == cave_with(
            all_lines(lines_of(input.spec_bytes()), lines_of(input.spec_bytes()).len()),
            all_lines(lines_of(input.spec_bytes()), lines_of(input.spec_bytes()).len()).len(),
        ),
        r.1 == lowest_of(
            all_lines(lines_of(input.spec_bytes()), lines_of(input.spec_bytes()).len()),
            all_lines(lines_of(input.spec_bytes()), lines_of(input.spec_bytes()).len()).len(),
        ),
        r.1 < HEIGHT,
{
    let ls = lines(input.as_bytes());
    let ghost lv = lines_of(input.spec_bytes());
    let ghost all = all_lines(lv, lv.len());
    let mut grid = Grid::from_vec(1000, 200, filled(200000, Tile::Air));
    let mut lowest: usize = 0;
    let mut i: usize = 0;
    while i < ls.len()
        invariant
            i <= ls@.len(),
            lv == views(ls@),
            is_scan(lv),
            all == all_lines(lv, lv.len()),
            is_cave(&grid),
            grid.grid_raw@ == cave_with(all, all_lines(lv, i as nat).len()),
            lowest == lowest_of(all, all_lines(lv, i as nat).len()),
            lowest < HEIGHT,
        decreases ls.len() - i,
    {
        assert(ls@[i as int]@ == lv[i as int]);
        let points = parse_points(ls[i].as_slice());
        let pairs = windows(points.as_slice());
        let ghost done = all_lines(lv, i as nat);
        let ghost here = rock_lines(points@);
        proof {
            lemma_all_lines(lv, (i + 1) as nat, lv.len());
            assert(all_lines(lv, (i + 1) as nat) =~= done + here);
            assert(pairs@.len() == here.len());
        }
        let mut k: usize = 0;
        while k < pairs.len()
            invariant
                k <= pairs@.len(),
                pairs@.len() == here.len(),
                forall|j: int| 0 <= j < pairs@.len() ==> (#[trigger] pairs@[j]).0 == here[j].a && pairs@[j].1 == here[j].b,
                done.len() + here.len() <= all.len(),
                forall|j: int| 0 <= j < here.len() ==> all[done.len() + j] == #[trigger] here[j],
                forall|j: int|
                    0 <= j < all.len() ==> (#[trigger] all[j]).fits() && (all[j].a.0 == all[j].b.0
                        || all[j].a.1 == all[j].b.1),
                is_cave(&grid),
                grid.grid_raw@ == cave_with(all, (done.len() + k) as nat),
                lowest == lowest_of(all, (done.len() + k) as nat),
                lowest < HEIGHT,
            decreases pairs.len() - k,
        {
            let (c1, c2) = pairs[k];
            proof {
                assert(all[done.len() + k] == here[k as int]);
                assert(all[done.len() + k].fits());
            }
            let l = Line::new(c1, c2);
            add_rocks(&mut grid, l);
            if l.a.1 > lowest {
                lowest = l.a.1;
            }
            if l.b.1 > lowest {
                lowest = l.b.1;
            }
            k += 1;
        }
        i += 1;
    }
    (grid, lowest)
}

/// The number of tiles on which sand comes to rest before the first
/// sand falls past the lowest row.
pub fn day14_1(input: &str) -> (r: usize)
    requires
        is_scan(lines_of(input.spec_bytes())),
    ensures
        r == sand_count(
            poured(
                cave_with(
                    all_lines(lines_of(input.spec_bytes()), lines_of(input.spec_bytes()).len()),
                    all_lines(lines_of(input.spec_bytes()), lines_of(input.spec_bytes()).len()).len(),
                ),
                200000,
            ),
            200000,
        ),
{
    let (mut grid, _) = parse_input(input);
    pour_sand(&mut grid);
    count_sand(&grid)
}

/// The cave with a floor of rock two rows below its lowest rock.
pub open spec fn floored(rocks: Seq<Line>) -> Seq<Tile> {
    with_rocks(
        cave_with(rocks, rocks.len()),
        Line {
            a: (0, (lowest_of(rocks, rocks.len()) + 2) as usize),
            b: (999, (lowest_of(rocks, rocks.len()) + 2) as usize),
        },
    )
}

/// The number of tiles on which sand comes to rest in the cave with a
/// floor, until sand lies where it sets out. The floor must lie in the
/// cave.
pub fn day14_2(input: &str) -> (r: usize)
    requires
        is_scan(lines_of(input.spec_bytes())),
        lowest_of(
            all_lines(lines_of(input.spec_bytes()), lines_of(input.spec_bytes()).len()),
            all_lines(lines_of(input.spec_bytes()), lines_of(input.spec_bytes()).len()).len(),
        ) + 2 < HEIGHT,
    ensures
        r == sand_count(
            poured(
                floored(
                    all_lines(lines_of(input.spec_bytes()), lines_of(input.spec_bytes()).len()),
                ),
                200000,
            ),
            200000,
        ),
{
    let (mut grid, lowest) = parse_input(input);
    add_floor(&mut grid, lowest + 2);
    pour_sand(&mut grid);
    count_sand(&grid)
}

} // verus!
