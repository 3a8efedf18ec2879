//! Galaxies in a universe whose empty rows and columns have grown.

use crate::y2023::grid::{is_block, AsciiGrid, Coord, Grid};
use vstd::prelude::*;
use vstd::string::*;

verus! {

/// Whether no cell of column `x` holds a galaxy or anything else: all are
/// `.`; the column outside the grid counts as empty.
pub open spec fn column_empty<G: Grid<Item = u8>>(g: &G, x: int) -> bool {
    forall|y: int| 0 <= y < g.spec_height() ==> #[trigger] g.at(x, y) == Some(46u8)
}

/// Whether all cells of row `y` are `.`.
pub open spec fn line_empty<G: Grid<Item = u8>>(g: &G, y: int) -> bool {
    forall|x: int| 0 <= x < g.spec_width() ==> #[trigger] g.at(x, y) == Some(46u8)
}

/// How many of the rows `a..b`, or, with `column`, of the columns
/// `a..b`, are empty.
pub open spec fn empty_between<G: Grid<Item = u8>>(g: &G, column: bool, a: int, b: int) -> nat
    decreases b - a,
{
    if a >= b {
        0
    } else {
        empty_between(g, column, a, b - 1) + if (if column {
            column_empty(g, b - 1)
        } else {
            line_empty(g, b - 1)
        }) {
            1nat
        } else {
            0nat
        }
    }
}

/// How many of the columns `a..b` are empty.
pub open spec fn empty_columns<G: Grid<Item = u8>>(g: &G, a: int, b: int) -> nat {
    empty_between(g, true, a, b)
}

/// How many of the rows `a..b` are empty.
pub open spec fn empty_lines<G: Grid<Item = u8>>(g: &G, a: int, b: int) -> nat {
    empty_between(g, false, a, b)
}

/// The galaxies among the first `k` cells of the grid, row by row.
pub open spec fn galaxies<G: Grid<Item = u8>>(g: &G, k: nat) -> Seq<Coord>
    decreases k,
{
    if k == 0 || g.spec_width() == 0 {
        Seq::empty()
    } else {
        let x = (k - 1) % (g.spec_width() as int);
        let y = (k - 1) / (g.spec_width() as int);
        if g.at(x, y) == Some(35u8) {
            galaxies(g, (k - 1) as nat).push(Coord { x: x as usize, y: y as usize })
        } else {
            galaxies(g, (k - 1) as nat)
        }
    }
}

/// The distance between the galaxies `a` and `b` when every empty row and
/// column between them, their own included, counts `size` times.
pub open spec fn expanded_distance<G: Grid<Item = u8>>(
    g: &G,
    a: Coord,
    b: Coord,
    size: int,
) -> int {
    let x0 = if a.x <= b.x {
        a.x
    } else {
        b.x
    };
    let x1 = if a.x <= b.x {
        b.x
    } else {
        a.x
    };
    let y0 = if a.y <= b.y {
        a.y
    } else {
        b.y
    };
    let y1 = if a.y <= b.y {
        b.y
    } else {
        a.y
    };
    x1 - x0 + y1 - y0 + empty_lines(g, y0 as int, y1 + 1) * (size - 1) + empty_columns(
        g,
        x0 as int,
        x1 + 1,
    ) * (size - 1)
}

/// The sum of the distances from galaxy `i` to the first `j` galaxies
/// behind it.
pub open spec fn row_sum<G: Grid<Item = u8>>(
    g: &G,
    gs: Seq<Coord>,
    size: int,
    i: int,
    j: nat,
) -> int
    decreases j,
{
    if j == 0 {
        0
    } else {
        row_sum(g, gs, size, i, (j - 1) as nat) + expanded_distance(g, gs[i], gs[i + j], size)
    }
}

/// The sum of the distances between each two of the galaxies, as far as
/// the first of the two is among the first `i`.
pub open spec fn pair_sum<G: Grid<Item = u8>>(g: &G, gs: Seq<Coord>, size: int, i: nat) -> int
    decreases i,
{
    if i == 0 {
        0
    } else {
        pair_sum(g, gs, size, (i - 1) as nat) + row_sum(
            g,
            gs,
            size,
            i - 1,
            (gs.len() - i) as nat,
        )
    }
}

/// The sum of the distances between each two galaxies of the grid.
pub open spec fn galaxy_distances<G: Grid<Item = u8>>(g: &G, size: int) -> int {
    let gs = galaxies(g, g.spec_width() * g.spec_height());
    pair_sum(g, gs, size, (gs.len() - 1) as nat)
}

/// No distance is negative.
pub proof fn lemma_distance_bounds<G: Grid<Item = u8>>(g: &G, a: Coord, b: Coord, size: int)
    requires
        size >= 1,
    ensures
        expanded_distance(g, a, b, size) >= 0,
        0 <= empty_lines(
            g,
            (if a.y <= b.y {
                a.y
            } else {
                b.y
            }) as int,
            (if a.y <= b.y {
                b.y
            } else {
                a.y
            }) + 1,
        ) * (size - 1) <= expanded_distance(g, a, b, size),
        0 <= empty_columns(
            g,
            (if a.x <= b.x {
                a.x
            } else {
                b.x
            }) as int,
            (if a.x <= b.x {
                b.x
            } else {
                a.x
            }) + 1,
        ) * (size - 1) <= expanded_distance(g, a, b, size),
{
    let x0 = if a.x <= b.x {
        a.x
    } else {
        b.x
    };
    let x1 = if a.x <= b.x {
        b.x
    } else {
        a.x
    };
    let y0 = if a.y <= b.y {
        a.y
    } else {
        b.y
    };
    let y1 = if a.y <= b.y {
        b.y
    } else {
        a.y
    };
    let el = empty_lines(g, y0 as int, y1 + 1);
    let ec = empty_columns(g, x0 as int, x1 + 1);
    assert(0 <= el * (size - 1)) by (nonlinear_arith)
        requires
            0 <= el,
            0 <= size - 1,
    ;
    assert(0 <= ec * (size - 1)) by (nonlinear_arith)
        requires
            0 <= ec,
            0 <= size - 1,
    ;
}

/// The sums over the galaxies behind one galaxy grow.
pub proof fn lemma_row_sum_grows<G: Grid<Item = u8>>(
    g: &G,
    gs: Seq<Coord>,
    size: int,
    i: int,
    j: nat,
    k: nat,
)
    requires
        size >= 1,
        j <= k,
    ensures
        0 <= row_sum(g, gs, size, i, j) <= row_sum(g, gs, size, i, k),
    decreases k,
{
    if k > 0 {
        lemma_distance_bounds(g, gs[i], gs[i + k], size);
        if j < k {
            lemma_row_sum_grows(g, gs, size, i, j, (k - 1) as nat);
        } else {
            lemma_row_sum_grows(g, gs, size, i, (k - 1) as nat, (k - 1) as nat);
        }
    }
}

/// The sums over the pairs grow.
pub proof fn lemma_pair_sum_grows<G: Grid<Item = u8>>(
    g: &G,
    gs: Seq<Coord>,
    size: int,
    i: nat,
    k: nat,
)
    requires
        size >= 1,
        i <= k <= gs.len(),
    ensures
        0 <= pair_sum(g, gs, size, i) <= pair_sum(g, gs, size, k),
    decreases k,
{
    if k > 0 {
        lemma_row_sum_grows(g, gs, size, k - 1, 0, (gs.len() - k) as nat);
        if i < k {
            lemma_pair_sum_grows(g, gs, size, i, (k - 1) as nat);
        } else {
            lemma_pair_sum_grows(g, gs, size, (k - 1) as nat, (k - 1) as nat);
        }
    }
}

/// Whether the cells of row `y` (or, with `column`, of column `y`) are
/// all `.`.
fn is_empty_line<G: Grid<Item = u8>>(grid: &G, y: usize, column: bool) -> (r: bool)
    requires
        grid.wf(),
        grid.spec_width() > 0,
        grid.spec_height() > 0,
    ensures
        r == if column {
            column_empty(grid, y as int)
        } else {
            line_empty(grid, y as int)
        },
{
    let n = if column {
        grid.height()
    } else {
        grid.width()
    };
    let mut k: usize = 0;
    while k < n
        invariant
            grid.wf(),
            k <= n,
            n == if column {
                grid.spec_height()
            } else {
                grid.spec_width()
            },
            forall|j: int|
                0 <= j < k ==> (if column {
                    #[trigger] grid.at(y as int, j)
                } else {
                    grid.at(j, y as int)
                }) == Some(46u8),
            forall|j: int|
                0 <= j < k ==> (if column {
                    grid.at(y as int, j)
                } else {
                    #[trigger] grid.at(j, y as int)
                }) == Some(46u8),
        decreases n - k,
    {
        let c = if column {
            grid.get(y, k)
        } else {
            grid.get(k, y)
        };
        let dot = match c {
            Some(b) => *b == 46,
            None => false,
        };
        if !dot {
            return false;
        }
        k += 1;
    }
    true
}

/// For each row (or, with `column`, each column) whether it is empty.
fn empty_flags<G: Grid<Item = u8>>(grid: &G, column: bool) -> (r: Vec<bool>)
    requires
        grid.wf(),
        grid.spec_width() > 0,
        grid.spec_height() > 0,
    ensures
        r.len() == if column {
            grid.spec_width()
        } else {
            grid.spec_height()
        },
        forall|i: int|
            0 <= i < r.len() ==> #[trigger] r@[i] == if column {
                column_empty(grid, i)
            } else {
                line_empty(grid, i)
            },
{
    let n = if column {
        grid.width()
    } else {
        grid.height()
    };
    let mut out: Vec<bool> = Vec::new();
    let mut i: usize = 0;
    while i < n
        invariant
            grid.wf(),
            grid.spec_width() > 0,
            grid.spec_height() > 0,
            i <= n,
            n == if column {
                grid.spec_width()
            } else {
                grid.spec_height()
            },
            out.len() == i,
            forall|k: int|
                0 <= k < i ==> #[trigger] out@[k] == if column {
                    column_empty(grid, k)
                } else {
                    line_empty(grid, k)
                },
        decreases n - i,
    {
        out.push(is_empty_line(grid, i, column));
        i += 1;
    }
    out
}

/// The galaxies of the grid, row by row.
fn find_galaxies<G: Grid<Item = u8>>(grid: &G) -> (r: Vec<Coord>)
    requires
        grid.wf(),
        grid.spec_width() > 0,
        grid.spec_height() > 0,
    ensures
        r@ == galaxies(grid, grid.spec_width() * grid.spec_height()),
        forall|i: int|
            0 <= i < r.len() ==> (#[trigger] r@[i]).x < grid.spec_width() && r@[i].y
                < grid.spec_height(),
{
    let w = grid.width();
    let h = grid.height();
    let mut out: Vec<Coord> = Vec::new();
    let mut y: usize = 0;
    while y < h
        invariant
            grid.wf(),
            w == grid.spec_width(),
            h == grid.spec_height(),
            w > 0,
            y <= h,
            out@ == galaxies(grid, (y * w) as nat),
            forall|i: int| 0 <= i < out.len() ==> (#[trigger] out@[i]).x < w && out@[i].y < h,
        decreases h - y,
    {
        let mut x: usize = 0;
        while x < w
            invariant
                grid.wf(),
                w == grid.spec_width(),
                h == grid.spec_height(),
                w > 0,
                y < h,
                x <= w,
                out@ == galaxies(grid, (y * w + x) as nat),
                forall|i: int| 0 <= i < out.len() ==> (#[trigger] out@[i]).x < w && out@[i].y < h,
            decreases w - x,
        {
            proof {
                assert(0 <= y * w) by (nonlinear_arith)
                    requires
                        0 <= y,
                        0 <= w,
                ;
                vstd::arithmetic::div_mod::lemma_fundamental_div_mod_converse(
                    y * w + x,
                    w as int,
                    y as int,
                    x as int,
                );
            }
            let c = grid.get(x, y);
            let star = match c {
                Some(b) => *b == 35,
                None => false,
            };
            if star {
                out.push(Coord { x, y });
            }
            x += 1;
        }
        proof {
            assert((y + 1) * w == y * w + w) by (nonlinear_arith);
        }
        y += 1;
    }
    proof {
        assert(h * w == w * h) by (nonlinear_arith);
    }
    out
}

/// How many of the rows `a..=b`, or, with `column`, of the columns
/// `a..=b`, are empty, read from the flags.
fn count_flags<G: Grid<Item = u8>>(grid: &G, flags: &Vec<bool>, a: usize, b: usize, column: bool) -> (r:
    usize)
    requires
        a <= b < flags.len(),
        forall|k: int|
            0 <= k < flags.len() ==> #[trigger] flags@[k] == if column {
                column_empty(grid, k)
            } else {
                line_empty(grid, k)
            },
    ensures
        r == empty_between(grid, column, a as int, b + 1),
        r <= b + 1 - a,
{
    let mut c: usize = 0;
    let mut k: usize = a;
    while k <= b
        invariant
            a <= k <= b + 1,
            b < flags.len(),
            c == empty_between(grid, column, a as int, k as int),
            c <= k - a,
            forall|k: int|
                0 <= k < flags.len() ==> #[trigger] flags@[k] == if column {
                    column_empty(grid, k)
                } else {
                    line_empty(grid, k)
                },
        decreases b + 1 - k,
    {
        if flags[k] {
            c += 1;
        }
        k += 1;
    }
    c
}

/// The sum of the distances between each two galaxies when every empty
/// row and column counts `expansion_size` times.
pub fn sum_galaxy_distances<G: Grid<Item = u8>>(grid: &G, expansion_size: usize) -> (r: usize)
    requires
        grid.wf(),
        grid.spec_width() > 0,
        grid.spec_height() > 0,
        grid.spec_width() + grid.spec_height() <= usize::MAX,
        expansion_size >= 1,
        galaxies(grid, grid.spec_width() * grid.spec_height()).len() > 0,
        galaxy_distances(grid, expansion_size as int) <= usize::MAX,
    ensures
        r == galaxy_distances(grid, expansion_size as int),
{
    let expanded_columns = empty_flags(grid, true);
    let expanded_lines = empty_flags(grid, false);
    let gals = find_galaxies(grid);
    let ghost gs = gals@;
    let ghost size = expansion_size as int;
    let mut distances: usize = 0;
    let mut i: usize = 0;
    let n = gals.len();
    while i < n - 1
        invariant
            i <= n - 1,
            n == gals.len(),
            n > 0,
            gs == gals@,
            grid.spec_width() + grid.spec_height() <= usize::MAX,
            size == expansion_size,
            size >= 1,
            gs == galaxies(grid, grid.spec_width() * grid.spec_height()),
            forall|k: int| 0 <= k < n ==> (#[trigger] gs[k]).x < grid.spec_width() && gs[k].y
                < grid.spec_height(),
            expanded_columns.len() == grid.spec_width(),
            expanded_lines.len() == grid.spec_height(),
            forall|k: int|
                0 <= k < expanded_columns.len() ==> #[trigger] expanded_columns@[k] == column_empty(
                    grid,
                    k,
                ),
            forall|k: int|
                0 <= k < expanded_lines.len() ==> #[trigger] expanded_lines@[k] == line_empty(
                    grid,
                    k,
                ),
            distances == pair_sum(grid, gs, size, i as nat),
            pair_sum(grid, gs, size, (n - 1) as nat) <= usize::MAX,
        decreases n - 1 - i,
    {
        let g0 = gals[i];
        let mut j: usize = 0;
        while i + 1 + j < n
            invariant
                i < n - 1,
                i + j < n,
                n == gals.len(),
                gs == gals@,
                g0 == gs[i as int],
                grid.spec_width() + grid.spec_height() <= usize::MAX,
                size == expansion_size,
                size >= 1,
                forall|k: int| 0 <= k < n ==> (#[trigger] gs[k]).x < grid.spec_width() && gs[k].y
                    < grid.spec_height(),
                expanded_columns.len() == grid.spec_width(),
                expanded_lines.len() == grid.spec_height(),
                forall|k: int|
                    0 <= k < expanded_columns.len() ==> #[trigger] expanded_columns@[k]
                        == column_empty(grid, k),
                forall|k: int|
                    0 <= k < expanded_lines.len() ==> #[trigger] expanded_lines@[k] == line_empty(
                        grid,
                        k,
                    ),
                distances == pair_sum(grid, gs, size, i as nat) + row_sum(
                    grid,
                    gs,
                    size,
                    i as int,
                    j as nat,
                ),
                pair_sum(grid, gs, size, (n - 1) as nat) <= usize::MAX,
            decreases n - i - j,
        {
            let g1 = gals[i + 1 + j];
            let x0 = if g0.x <= g1.x {
                g0.x
            } else {
                g1.x
            };
            let x1 = if g0.x <= g1.x {
                g1.x
            } else {
                g0.x
            };
            let y0 = if g0.y <= g1.y {
                g0.y
            } else {
                g1.y
            };
            let y1 = if g0.y <= g1.y {
                g1.y
            } else {
                g0.y
            };
            proof {
                assert(gs[i + 1 + j] == g1);
                lemma_distance_bounds(grid, g0, g1, size);
                lemma_row_sum_grows(grid, gs, size, i as int, (j + 1) as nat, (n - 1 - i) as nat);
                lemma_pair_sum_grows(grid, gs, size, (i + 1) as nat, (n - 1) as nat);
                lemma_pair_sum_grows(grid, gs, size, i as nat, i as nat);
                lemma_row_sum_grows(grid, gs, size, i as int, j as nat, j as nat);
                assert(row_sum(grid, gs, size, i as int, (j + 1) as nat) == row_sum(
                    grid,
                    gs,
                    size,
                    i as int,
                    j as nat,
                ) + expanded_distance(grid, g0, g1, size));
            }
            let count_l = count_flags(grid, &expanded_lines, y0, y1, false);
            let count_c = count_flags(grid, &expanded_columns, x0, x1, true);
            let added_lines = count_l * (expansion_size - 1);
            let added_colums = count_c * (expansion_size - 1);
            distances = distances + (x1 - x0 + y1 - y0 + added_lines + added_colums);
            j += 1;
        }
        proof {
            assert(i + 1 + j == n);
        }
        i += 1;
    }
    distances
}

/// The text is a block with cells.
pub open spec fn is_image(s: Seq<u8>) -> bool {
    &&& is_block(s)
    &&& s.len() < usize::MAX
    &&& crate::y2023::grid::block_width(s) > 0
    &&& crate::y2023::grid::block_height(s) > 0
}

/// Whether `n` is the sum of the distances between the galaxies of the
/// image `s` when every empty row and column counts `size` times.
pub open spec fn answers(s: Seq<u8>, size: int, n: int) -> bool {
    forall|g: AsciiGrid|
        #![trigger g.bytes()]
        g.wf() && g.bytes() == s && g.spec_width() == crate::y2023::grid::block_width(s)
            && g.spec_height() == crate::y2023::grid::block_height(s) ==> n == galaxy_distances(
            &g,
            size,
        )
}

/// Whether the image `s` has a galaxy and the sum of the distances fits
/// the machine's numbers.
pub open spec fn can_answer(s: Seq<u8>, size: int) -> bool {
    forall|g: AsciiGrid|
        #![trigger g.bytes()]
        g.wf() && g.bytes() == s && g.spec_width() == crate::y2023::grid::block_width(s)
            && g.spec_height() == crate::y2023::grid::block_height(s) ==> galaxies(
            &g,
            g.spec_width() * g.spec_height(),
        ).len() > 0 && galaxy_distances(&g, size) <= usize::MAX
}

/// The sum of the distances when empty rows and columns count twice.
pub fn day11_1(input: &str) -> (r: Result<usize, ()>)
    requires
        is_image(input.spec_bytes()),
        can_answer(input.spec_bytes(), 2),
    ensures
        r is Ok,
        exists|g: AsciiGrid|
            g.wf() && #[trigger] g.bytes() == input.spec_bytes() && r->Ok_0 == galaxy_distances(
                &g,
                2,
            ),
{
    let grid = AsciiGrid::from_ascii(input.as_bytes());
    proof {
        grid.lemma_sides();
    }
    let distances = sum_galaxy_distances(&grid, 2);
    proof {
        assert(grid.bytes() == input.spec_bytes());
    }
    Ok(distances)
}

/// The sum of the distances when empty rows and columns count a million
/// times.
pub fn day11_2(input: &str) -> (r: Result<usize, ()>)
    requires
        is_image(input.spec_bytes()),
        can_answer(input.spec_bytes(), 1_000_000),
    ensures
        r is Ok,
        exists|g: AsciiGrid|
            g.wf() && #[trigger] g.bytes() == input.spec_bytes() && r->Ok_0 == galaxy_distances(
                &g,
                1_000_000,
            ),
{
    let grid = AsciiGrid::from_ascii(input.as_bytes());
    proof {
        grid.lemma_sides();
    }
    let distances = sum_galaxy_distances(&grid, 1_000_000);
    proof {
        assert(grid.bytes() == input.spec_bytes());
    }
    Ok(distances)
}

} // verus!
