//! Trees in a grid: which can be seen from outside, and how far one can
//! see from each.

use crate::text::{flat, is_rect, lines, lines_of, rect_cells};
use crate::y2022::grid::{lemma_cell_of_index, lemma_index_in_bounds, Grid};
use vstd::prelude::*;
use vstd::string::*;

verus! {

#[derive(Debug, Clone, Copy)]
pub struct Tree {
    pub height: u8,
    pub seen: bool,
}

/// Whether the text is a map of trees: a rectangle of bytes from `0` on.
pub open spec fn is_forest(s: Seq<u8>) -> bool {
    let ls = lines_of(s);
    &&& is_rect(ls)
    &&& forall|i: int| 0 <= i < flat(ls).len() ==> #[trigger] flat(ls)[i] >= 48
}

/// The trees of the map, none of them seen yet.
pub fn parse_trees(input: &str) -> (r: Grid<Tree>)
    requires
        is_forest(input.spec_bytes()),
    ensures
        r.wf(),
        r.width == lines_of(input.spec_bytes())[0].len(),
        r.height == lines_of(input.spec_bytes()).len(),
        r.grid_raw@.len() == flat(lines_of(input.spec_bytes())).len(),
        forall|i: int|
            0 <= i < r.grid_raw@.len() ==> (#[trigger] r.grid_raw@[i]).height == flat(
                lines_of(input.spec_bytes()),
            )[i] - 48 && !r.grid_raw@[i].seen,
{
    let ls = lines(input.as_bytes());
    let ghost lv = lines_of(input.spec_bytes());
    let width = ls[0].len();
    let height = ls.len();
    assert(ls@[0]@ == lv[0]);
    let bytes = rect_cells(&ls);
    let mut grid_raw: Vec<Tree> = Vec::new();
    let mut i: usize = 0;
    while i < bytes.len()
        invariant
            i <= bytes.len(),
            bytes@ == flat(lv),
            forall|k: int| 0 <= k < bytes@.len() ==> #[trigger] bytes@[k] >= 48,
            grid_raw@.len() == i,
            forall|k: int|
                0 <= k < i ==> (#[trigger] grid_raw@[k]).height == bytes@[k] - 48
                    && !grid_raw@[k].seen,
        decreases bytes.len() - i,
    {
        grid_raw.push(Tree { height: bytes[i] - 48, seen: false });
        i += 1;
    }
    proof {
        assert(width * height == height * width) by (nonlinear_arith);
    }
    Grid::from_vec(width, height, grid_raw)
}

/// The tree at place `k` of line `line`: lines are columns if `vertical`
/// holds, else rows.
pub open spec fn line_tree(g: &Grid<Tree>, vertical: bool, line: int, k: int) -> Tree {
    if vertical {
        g.cell(line, k)
    } else {
        g.cell(k, line)
    }
}

/// The number of trees of a row, or of a column.
pub open spec fn line_len(g: &Grid<Tree>, vertical: bool) -> int {
    if vertical {
        g.height as int
    } else {
        g.width as int
    }
}

/// The place on a line of `n` trees of the tree that one comes to as
/// number `d`, from the beginning or, going `backwards`, from the end.
pub open spec fn place(n: int, d: int, backwards: bool) -> int {
    if backwards {
        n - 1 - d
    } else {
        d
    }
}

/// The tree that one comes to as number `d` on the line.
pub open spec fn nth_tree(g: &Grid<Tree>, vertical: bool, line: int, d: int, backwards: bool) -> Tree {
    line_tree(g, vertical, line, place(line_len(g, vertical), d, backwards))
}

/// Whether the tree that one comes to as number `d` on the line is higher
/// than all that came before it.
pub open spec fn stands_out(g: &Grid<Tree>, vertical: bool, line: int, d: int, backwards: bool) -> bool {
    forall|j: int|
        0 <= j < d ==> (#[trigger] nth_tree(g, vertical, line, j, backwards)).height < nth_tree(
            g,
            vertical,
            line,
            d,
            backwards,
        ).height
}

/// Whether the tree at `(x, y)` can be seen from outside the grid along
/// its row or its column.
pub open spec fn visible(g: &Grid<Tree>, x: int, y: int) -> bool {
    ||| stands_out(g, false, y, x, false)
    ||| stands_out(g, false, y, g.width - 1 - x, true)
    ||| stands_out(g, true, x, y, false)
    ||| stands_out(g, true, x, g.height - 1 - y, true)
}

/// Whether the two grids hold trees of the same heights.
pub open spec fn same_heights(a: &Grid<Tree>, b: &Grid<Tree>) -> bool {
    &&& a.width == b.width
    &&& a.height == b.height
    &&& forall|x: int, y: int| a.inside(x, y) ==> (#[trigger] a.cell(x, y)).height == b.cell(x, y).height
}

/// The number of the tree at `(x, y)` on its line.
pub open spec fn number_on(g: &Grid<Tree>, vertical: bool, x: int, y: int, backwards: bool) -> int {
    place(
        line_len(g, vertical),
        if vertical {
            y
        } else {
            x
        },
        backwards,
    )
}

/// The line of the tree at `(x, y)`.
pub open spec fn line_of(vertical: bool, x: int, y: int) -> int {
    if vertical {
        x
    } else {
        y
    }
}

/// Marks the trees of one line that stand out, going from its beginning
/// or, `backwards`, from its end.
fn mark_line(trees: &mut Grid<Tree>, vertical: bool, line: usize, backwards: bool)
    requires
        old(trees).wf(),
        old(trees).width >= 1,
        old(trees).height >= 1,
        line < (if vertical {
            old(trees).width
        } else {
            old(trees).height
        }),
    ensures
        final(trees).wf(),
        same_heights(final(trees), old(trees)),
        forall|x: int, y: int|
            old(trees).inside(x, y) ==> (#[trigger] final(trees).cell(x, y)).seen == (old(
                trees,
            ).cell(x, y).seen || (line_of(vertical, x, y) == line && stands_out(
                old(trees),
                vertical,
                line as int,
                number_on(old(trees), vertical, x, y, backwards),
                backwards,
            ))),
{
    let n = if vertical {
        trees.height
    } else {
        trees.width
    };
    let ghost g0 = *trees;
    let mut done: usize = 0;
    let mut curr_height: u8 = 0;
    while done < n
        invariant
            trees.wf(),
            g0 == *old(trees),
            g0.wf(),
            same_heights(trees, &g0),
            n == line_len(&g0, vertical),
            n >= 1,
            done <= n,
            line < (if vertical {
                g0.width
            } else {
                g0.height
            }),
            forall|j: int|
                0 <= j < done ==> (#[trigger] nth_tree(&g0, vertical, line as int, j, backwards)).height
                    <= curr_height,
            done > 0 ==> exists|j: int|
                0 <= j < done && (#[trigger] nth_tree(&g0, vertical, line as int, j, backwards)).height
                    == curr_height,
            forall|x: int, y: int|
                g0.inside(x, y) ==> (#[trigger] trees.cell(x, y)).seen == (g0.cell(x, y).seen || (
                line_of(vertical, x, y) == line && number_on(&g0, vertical, x, y, backwards) < done
                    && stands_out(
                    &g0,
                    vertical,
                    line as int,
                    number_on(&g0, vertical, x, y, backwards),
                    backwards,
                ))),
        decreases n - done,
    {
        let k: usize = if backwards {
            n - 1 - done
        } else {
            done
        };
        let (x, y) = if vertical {
            (line, k)
        } else {
            (k, line)
        };
        let tree = *trees.get_unchecked(x, y);
        let ghost here = nth_tree(&g0, vertical, line as int, done as int, backwards);
        assert(tree.height == here.height);
        let out = done == 0 || tree.height > curr_height;
        proof {
            if !out {
                let j = choose|j: int|
                    0 <= j < done && (#[trigger] nth_tree(
                        &g0,
                        vertical,
                        line as int,
                        j,
                        backwards,
                    )).height == curr_height;
                assert(!stands_out(&g0, vertical, line as int, done as int, backwards));
            }
        }
        if out {
            trees.set(x, y, Tree { height: tree.height, seen: true });
            curr_height = tree.height;
        }
        done += 1;
    }
}

/// Marks every tree that can be seen from outside the grid.
pub fn mark_trees(trees: &mut Grid<Tree>)
    requires
        old(trees).wf(),
        old(trees).width >= 1,
        old(trees).height >= 1,
    ensures
        final(trees).wf(),
        same_heights(final(trees), old(trees)),
        forall|x: int, y: int|
            old(trees).inside(x, y) ==> (#[trigger] final(trees).cell(x, y)).seen == (old(
                trees,
            ).cell(x, y).seen || visible(old(trees), x, y)),
{
    let ghost g0 = *trees;
    let mut y: usize = 0;
    while y < trees.height
        invariant
            trees.wf(),
            g0 == *old(trees),
            g0.wf(),
            trees.width >= 1,
            trees.height >= 1,
            same_heights(trees, &g0),
            y <= trees.height,
            forall|a: int, b: int|
                g0.inside(a, b) ==> (#[trigger] trees.cell(a, b)).seen == (g0.cell(a, b).seen || (b
                    < y && (stands_out(&g0, false, b, a, false) || stands_out(
                    &g0,
                    false,
                    b,
                    g0.width - 1 - a,
                    true,
                )))),
        decreases trees.height - y,
    {
        let ghost g1 = *trees;
        mark_line(trees, false, y, false);
        let ghost g2 = *trees;
        mark_line(trees, false, y, true);
        proof {
            lemma_same_stands(&g1, &g0, false, y as int, false);
            lemma_same_stands(&g2, &g0, false, y as int, true);
        }
        y += 1;
    }
    let mut x: usize = 0;
    while x < trees.width
        invariant
            trees.wf(),
            g0 == *old(trees),
            g0.wf(),
            trees.width >= 1,
            trees.height >= 1,
            same_heights(trees, &g0),
            x <= trees.width,
            forall|a: int, b: int|
                g0.inside(a, b) ==> (#[trigger] trees.cell(a, b)).seen == (g0.cell(a, b).seen
                    || stands_out(&g0, false, b, a, false) || stands_out(
                    &g0,
                    false,
                    b,
                    g0.width - 1 - a,
                    true,
                ) || (a < x && (stands_out(&g0, true, a, b, false) || stands_out(
                    &g0,
                    true,
                    a,
                    g0.height - 1 - b,
                    true,
                )))),
        decreases trees.width - x,
    {
        let ghost g1 = *trees;
        mark_line(trees, true, x, false);
        let ghost g2 = *trees;
        mark_line(trees, true, x, true);
        proof {
            lemma_same_stands(&g1, &g0, true, x as int, false);
            lemma_same_stands(&g2, &g0, true, x as int, true);
        }
        x += 1;
    }
}

/// Which trees stand out depends on the heights alone.
pub proof fn lemma_same_stands(a: &Grid<Tree>, b: &Grid<Tree>, vertical: bool, line: int, backwards: bool)
    requires
        same_heights(a, b),
        0 <= line < (if vertical {
            a.width
        } else {
            a.height
        }),
    ensures
        forall|d: int|
            0 <= d < line_len(a, vertical) ==> stands_out(a, vertical, line, d, backwards)
                == #[trigger] stands_out(b, vertical, line, d, backwards),
{
    assert forall|d: int| 0 <= d < line_len(a, vertical) implies stands_out(
        a,
        vertical,
        line,
        d,
        backwards,
    ) == #[trigger] stands_out(b, vertical, line, d, backwards) by {
        assert forall|j: int| 0 <= j < line_len(a, vertical) implies (#[trigger] nth_tree(
            a,
            vertical,
            line,
            j,
            backwards,
        )).height == nth_tree(b, vertical, line, j, backwards).height by {
            let k = place(line_len(a, vertical), j, backwards);
            if vertical {
                assert(a.cell(line, k).height == b.cell(line, k).height);
            } else {
                assert(a.cell(k, line).height == b.cell(k, line).height);
            }
        }
        if stands_out(a, vertical, line, d, backwards) {
            assert forall|j: int| 0 <= j < d implies (#[trigger] nth_tree(
                b,
                vertical,
                line,
                j,
                backwards,
            )).height < nth_tree(b, vertical, line, d, backwards).height by {
                assert(nth_tree(a, vertical, line, j, backwards).height < nth_tree(
                    a,
                    vertical,
                    line,
                    d,
                    backwards,
                ).height);
            }
        }
        if stands_out(b, vertical, line, d, backwards) {
            assert forall|j: int| 0 <= j < d implies (#[trigger] nth_tree(
                a,
                vertical,
                line,
                j,
                backwards,
            )).height < nth_tree(a, vertical, line, d, backwards).height by {
                assert(nth_tree(b, vertical, line, j, backwards).height < nth_tree(
                    b,
                    vertical,
                    line,
                    d,
                    backwards,
                ).height);
            }
        }
    }
}


/// How many of the first `k` trees of the buffer are seen.
pub open spec fn seen_count(cells: Seq<Tree>, k: nat) -> nat
    decreases k,
{
    if k == 0 {
        0
    } else {
        seen_count(cells, (k - 1) as nat) + if cells[k - 1].seen {
            1nat
        } else {
            0nat
        }
    }
}

/// How many of the first `k` trees of the grid can be seen from outside.
pub open spec fn visible_count(g: &Grid<Tree>, k: nat) -> nat
    decreases k,
{
    if k == 0 {
        0
    } else {
        visible_count(g, (k - 1) as nat) + if visible(
            g,
            (k - 1) % (g.width as int),
            (k - 1) / (g.width as int),
        ) {
            1nat
        } else {
            0nat
        }
    }
}

/// The trees marked are counted as the visible ones.
pub proof fn lemma_counts_agree(marked: &Grid<Tree>, g: &Grid<Tree>, k: nat)
    requires
        g.wf(),
        marked.wf(),
        marked.width == g.width,
        marked.height == g.height,
        k <= g.grid_raw@.len(),
        forall|x: int, y: int| g.inside(x, y) ==> (#[trigger] marked.cell(x, y)).seen == visible(g, x, y),
    ensures
        seen_count(marked.grid_raw@, k) == visible_count(g, k),
    decreases k,
{
    if k > 0 {
        lemma_counts_agree(marked, g, (k - 1) as nat);
        lemma_cell_of_index(marked, k - 1);
    }
}

/// The number of trees that can be seen from outside the grid.
pub fn day8_1(input: &str) -> (r: usize)
    requires
        is_forest(input.spec_bytes()),
        lines_of(input.spec_bytes())[0].len() >= 1,
    ensures
        exists|g: Grid<Tree>|
            #[trigger] is_forest_of(&g, input.spec_bytes()) && r == visible_count(
                &g,
                g.grid_raw@.len(),
            ),
{
    let mut trees = parse_trees(input);
    let ghost g0 = trees;
    mark_trees(&mut trees);
    proof {
        assert(is_forest_of(&g0, input.spec_bytes()));
        assert forall|x: int, y: int| g0.inside(x, y) implies (#[trigger] trees.cell(x, y)).seen
            == visible(&g0, x, y) by {
            lemma_index_in_bounds(x, y, g0.width as int, g0.height as int);
        }
        lemma_counts_agree(&trees, &g0, g0.grid_raw@.len());
    }
    let mut count: usize = 0;
    let mut i: usize = 0;
    while i < trees.grid_raw.len()
        invariant
            i <= trees.grid_raw.len(),
            count == seen_count(trees.grid_raw@, i as nat),
            count <= i,
        decreases trees.grid_raw.len() - i,
    {
        if trees.grid_raw[i].seen {
            count += 1;
        }
        i += 1;
    }
    count
}

/// Whether the grid holds the trees of the map `s`, none of them seen.
pub open spec fn is_forest_of(g: &Grid<Tree>, s: Seq<u8>) -> bool {
    let ls = lines_of(s);
    &&& g.wf()
    &&& g.width == ls[0].len()
    &&& g.height == ls.len()
    &&& g.grid_raw@.len() == flat(ls).len()
    &&& forall|i: int|
        0 <= i < g.grid_raw@.len() ==> (#[trigger] g.grid_raw@[i]).height == flat(ls)[i] - 48
            && !g.grid_raw@[i].seen
}

/// How far one sees from place `k` of the line towards its end, or
/// towards its beginning: as far as the first tree that is as high as the
/// one at `k` or the last tree, counted from step `i` on.
pub open spec fn sight(g: &Grid<Tree>, vertical: bool, line: int, k: int, toward_end: bool, i: int) -> int
    decreases
            (if toward_end {
                line_len(g, vertical) - k - i
            } else {
                k - i
            }),
{
    let at = if toward_end {
        k + i
    } else {
        k - i
    };
    if i < 1 || (toward_end && at >= line_len(g, vertical) - 1) || (!toward_end && at <= 0)
        || line_tree(g, vertical, line, at).height >= line_tree(g, vertical, line, k).height {
        i
    } else {
        sight(g, vertical, line, k, toward_end, i + 1)
    }
}

/// How far one sees from place `k` of the line: nothing at its edge.
pub open spec fn view(g: &Grid<Tree>, vertical: bool, line: int, k: int, toward_end: bool) -> int {
    if (toward_end && k == line_len(g, vertical) - 1) || (!toward_end && k == 0) {
        0
    } else {
        sight(g, vertical, line, k, toward_end, 1)
    }
}

/// The product of how far one sees from `(x, y)` in the four directions.
pub open spec fn scenic(g: &Grid<Tree>, x: int, y: int) -> int {
    view(g, false, y, x, false) * view(g, false, y, x, true) * view(g, true, x, y, false) * view(
        g,
        true,
        x,
        y,
        true,
    )
}

/// How far one sees from place `k` of the line.
fn look(trees: &Grid<Tree>, vertical: bool, line: usize, k: usize, toward_end: bool) -> (r: usize)
    requires
        trees.wf(),
        k < line_len(trees, vertical),
        line < (if vertical {
            trees.width
        } else {
            trees.height
        }),
    ensures
        r == view(trees, vertical, line as int, k as int, toward_end),
        r <= line_len(trees, vertical),
{
    let n = if vertical {
        trees.height
    } else {
        trees.width
    };
    if (toward_end && k == n - 1) || (!toward_end && k == 0) {
        return 0;
    }
    let init_height = if vertical {
        trees.get_unchecked(line, k).height
    } else {
        trees.get_unchecked(k, line).height
    };
    let mut i: usize = 1;
    loop
        invariant
            trees.wf(),
            n == line_len(trees, vertical),
            k < n,
            line < (if vertical {
                trees.width
            } else {
                trees.height
            }),
            1 <= i,
            toward_end ==> k + i <= n - 1,
            !toward_end ==> i <= k,
            init_height == line_tree(trees, vertical, line as int, k as int).height,
            view(trees, vertical, line as int, k as int, toward_end) == sight(
                trees,
                vertical,
                line as int,
                k as int,
                toward_end,
                i as int,
            ),
        decreases
                (if toward_end {
                    n - k - i
                } else {
                    k - i
                }),
    {
        let at: usize = if toward_end {
            k + i
        } else {
            k - i
        };
        let h = if vertical {
            trees.get_unchecked(line, at).height
        } else {
            trees.get_unchecked(at, line).height
        };
        if h >= init_height || (toward_end && at == n - 1) || (!toward_end && at == 0) {
            return i;
        }
        i += 1;
    }
}

/// The product of how far one sees from `(xo, yo)` in the four
/// directions.
pub fn scenic_score(trees: &Grid<Tree>, xo: usize, yo: usize) -> (r: usize)
    requires
        trees.wf(),
        trees.inside(xo as int, yo as int),
        scenic(trees, xo as int, yo as int) <= usize::MAX,
        view(trees, false, yo as int, xo as int, false) * view(
            trees,
            false,
            yo as int,
            xo as int,
            true,
        ) <= usize::MAX,
        view(trees, false, yo as int, xo as int, false) * view(
            trees,
            false,
            yo as int,
            xo as int,
            true,
        ) * view(trees, true, xo as int, yo as int, false) <= usize::MAX,
    ensures
        r == scenic(trees, xo as int, yo as int),
{
    let right = look(trees, false, yo, xo, true);
    let left = look(trees, false, yo, xo, false);
    let down = look(trees, true, xo, yo, true);
    let up = look(trees, true, xo, yo, false);
    left * right * up * down
}

/// The greater of two numbers.
pub open spec fn greater(a: int, b: int) -> int {
    if a >= b {
        a
    } else {
        b
    }
}

/// The best scenic score among the first `k` trees of the grid.
pub open spec fn best_scenic(g: &Grid<Tree>, k: nat) -> int
    decreases k,
{
    if k == 0 {
        0
    } else {
        greater(
            best_scenic(g, (k - 1) as nat),
            scenic(g, (k - 1) % (g.width as int), (k - 1) / (g.width as int)),
        )
    }
}

/// Whether the scenic score of every tree can be computed in the
/// machine's numbers.
pub open spec fn scores_fit(g: &Grid<Tree>) -> bool {
    forall|x: int, y: int|
        g.inside(x, y) ==> #[trigger] scenic(g, x, y) <= usize::MAX && view(g, false, y, x, false)
            * view(g, false, y, x, true) <= usize::MAX && view(g, false, y, x, false) * view(
            g,
            false,
            y,
            x,
            true,
        ) * view(g, true, x, y, false) <= usize::MAX
}

/// The best scenic score of a tree of the grid.
pub fn day8_2(input: &str) -> (r: usize)
    requires
        is_forest(input.spec_bytes()),
        forall|g: Grid<Tree>| #[trigger] is_forest_of(&g, input.spec_bytes()) ==> scores_fit(&g),
    ensures
        exists|g: Grid<Tree>|
            #[trigger] is_forest_of(&g, input.spec_bytes()) && r == best_scenic(
                &g,
                g.grid_raw@.len(),
            ),
{
    let trees = parse_trees(input);
    assert(is_forest_of(&trees, input.spec_bytes()));
    let mut max_scenic: usize = 0;
    let mut y: usize = 0;
    while y < trees.height
        invariant
            trees.wf(),
            scores_fit(&trees),
            y <= trees.height,
            max_scenic == best_scenic(&trees, (y * trees.width) as nat),
        decreases trees.height - y,
    {
        let mut x: usize = 0;
        while x < trees.width
            invariant
                trees.wf(),
                scores_fit(&trees),
                y < trees.height,
                x <= trees.width,
                max_scenic == best_scenic(&trees, (y * trees.width + x) as nat),
            decreases trees.width - x,
        {
            proof {
                assert(0 <= y * trees.width) by (nonlinear_arith)
                    requires
                        0 <= y,
                        0 <= trees.width,
                ;
                vstd::arithmetic::div_mod::lemma_fundamental_div_mod_converse(
                    y * trees.width + x,
                    trees.width as int,
                    y as int,
                    x as int,
                );
                assert(scenic(&trees, x as int, y as int) <= usize::MAX);
            }
            let scenic = scenic_score(&trees, x, y);
            if scenic > max_scenic {
                max_scenic = scenic;
            }
            x += 1;
        }
        proof {
            assert((y + 1) * trees.width == y * trees.width + trees.width) by (nonlinear_arith);
        }
        y += 1;
    }
    proof {
        assert(trees.height * trees.width == trees.width * trees.height) by (nonlinear_arith);
    }
    max_scenic
}

} // verus!
