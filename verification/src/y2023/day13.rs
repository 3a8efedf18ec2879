//! Mirrors: the line across which a pattern reflects.

use crate::text::{split, split_on, views};
use crate::y2023::grid::{block_height, block_width, is_block, AsciiGrid, Grid};
use vstd::prelude::*;
use vstd::string::*;

verus! {

/// A pattern: its cells by column and row, `None` outside, and its sides.
pub struct Pattern {
    pub cell: spec_fn(int, int) -> Option<u8>,
    pub width: nat,
    pub height: nat,
}

/// The pattern that the block of text `s` holds.
pub open spec fn pattern_of(s: Seq<u8>) -> Pattern {
    let rows = split_on(s, seq![10u8]);
    Pattern {
        cell: |x: int, y: int|
            if 0 <= x < block_width(s) && 0 <= y < block_height(s) {
                Some(rows[y][x])
            } else {
                None
            },
        width: block_width(s),
        height: block_height(s),
    }
}

/// The pattern that the grid `g` holds.
pub open spec fn pattern_in(g: &AsciiGrid) -> Pattern {
    Pattern { cell: |x: int, y: int| g.at(x, y), width: g.spec_width(), height: g.spec_height() }
}

impl Pattern {
    /// The cell `k` of item `a`: of column `a` if `columns` holds, else of
    /// row `a`.
    pub open spec fn item_cell(self, columns: bool, a: int, k: int) -> Option<u8> {
        if columns {
            (self.cell)(a, k)
        } else {
            (self.cell)(k, a)
        }
    }

    /// The number of items: of columns or of rows.
    pub open spec fn item_count(self, columns: bool) -> nat {
        if columns {
            self.width
        } else {
            self.height
        }
    }

    /// The number of cells of an item.
    pub open spec fn item_len(self, columns: bool) -> nat {
        if columns {
            self.height
        } else {
            self.width
        }
    }

    /// In how many of their first `m` cells the items `a` and `b` differ.
    pub open spec fn item_diff(self, columns: bool, a: int, b: int, m: nat) -> nat
        decreases m,
    {
        if m == 0 {
            0
        } else {
            self.item_diff(columns, a, b, (m - 1) as nat) + if self.item_cell(columns, a, m - 1)
                != self.item_cell(columns, b, m - 1) {
                1nat
            } else {
                0nat
            }
        }
    }

    /// How many pairs of items face each other across the line before
    /// item `rp`.
    pub open spec fn pair_count(self, columns: bool, rp: int) -> nat {
        let n = self.item_count(columns) as int;
        if rp < 0 || rp > n {
            0
        } else if n - rp <= rp {
            (n - rp) as nat
        } else {
            rp as nat
        }
    }

    /// In how many cells the first `t` pairs of items that face each other
    /// across the line before item `rp` differ.
    pub open spec fn mirror_diff(self, columns: bool, rp: int, t: nat) -> nat
        decreases t,
    {
        if t == 0 {
            0
        } else {
            self.mirror_diff(columns, rp, (t - 1) as nat) + self.item_diff(
                columns,
                rp + t - 1,
                rp - t,
                self.item_len(columns),
            )
        }
    }

    /// The first line at or behind the one before item `rp`, and before
    /// the last item, across which the pattern reflects but for `wanted`
    /// cells; 0 when there is none.
    pub open spec fn reflection_from(self, columns: bool, wanted: nat, rp: int) -> int
        decreases self.item_count(columns) - rp,
    {
        if rp < 1 || rp >= self.item_count(columns) {
            0
        } else if self.mirror_diff(columns, rp, self.pair_count(columns, rp)) == wanted {
            rp
        } else {
            self.reflection_from(columns, wanted, rp + 1)
        }
    }

    /// The number of the pattern: the columns before its upright line of
    /// reflection, and 100 times the rows before its level one.
    pub open spec fn number(self, wanted: nat) -> int {
        self.reflection_from(true, wanted, 1) + 100 * self.reflection_from(false, wanted, 1)
    }

    /// The sums over pairs grow.
    pub proof fn lemma_mirror_diff_grows(self, columns: bool, rp: int, s: nat, t: nat)
        requires
            s <= t,
        ensures
            self.mirror_diff(columns, rp, s) <= self.mirror_diff(columns, rp, t),
        decreases t,
    {
        if s < t {
            self.lemma_mirror_diff_grows(columns, rp, s, (t - 1) as nat);
        }
    }

    /// The sums over cells grow.
    pub proof fn lemma_item_diff_grows(self, columns: bool, a: int, b: int, j: nat, m: nat)
        requires
            j <= m,
        ensures
            self.item_diff(columns, a, b, j) <= self.item_diff(columns, a, b, m),
        decreases m,
    {
        if j < m {
            self.lemma_item_diff_grows(columns, a, b, j, (m - 1) as nat);
        }
    }

    /// No line of reflection lies outside the pattern.
    pub proof fn lemma_reflection_bounds(self, columns: bool, wanted: nat, rp: int)
        ensures
            0 <= self.reflection_from(columns, wanted, rp) <= self.item_count(columns),
        decreases self.item_count(columns) - rp,
    {
        if rp >= 1 && rp < self.item_count(columns) && self.mirror_diff(
            columns,
            rp,
            self.pair_count(columns, rp),
        ) != wanted {
            self.lemma_reflection_bounds(columns, wanted, rp + 1);
        }
    }
}

/// The first line across which the pattern reflects but for `wanted`
/// cells, `wanted` being 0 or 1.
pub fn find_with_errors(grid: &AsciiGrid, columns: bool, wanted: usize) -> (r: usize)
    requires
        grid.wf(),
        wanted <= 1,
    ensures
        r == pattern_in(grid).reflection_from(columns, wanted as nat, 1),
{
    let ghost p = pattern_in(grid);
    let n = if columns {
        grid.count_columns()
    } else {
        grid.count_rows()
    };
    let len = if columns {
        grid.count_rows()
    } else {
        grid.count_columns()
    };
    let mut rp: usize = 1;
    while rp < n
        invariant
            grid.wf(),
            p == pattern_in(grid),
            wanted <= 1,
            1 <= rp,
            n == p.item_count(columns),
            len == p.item_len(columns),
            p.reflection_from(columns, wanted as nat, 1) == p.reflection_from(
                columns,
                wanted as nat,
                rp as int,
            ),
        decreases n - rp,
    {
        let pairs: usize = if n - rp <= rp {
            n - rp
        } else {
            rp
        };
        let mut errors: usize = 0;
        let mut t: usize = 0;
        let mut too_many = false;
        while t < pairs && !too_many
            invariant
                grid.wf(),
                p == pattern_in(grid),
                wanted <= 1,
                1 <= rp < n,
                n == p.item_count(columns),
                len == p.item_len(columns),
                pairs == p.pair_count(columns, rp as int),
                t <= pairs,
                errors <= 2,
                !too_many ==> errors == p.mirror_diff(columns, rp as int, t as nat) && errors
                    <= wanted,
                too_many ==> p.mirror_diff(columns, rp as int, t as nat) > wanted,
            decreases pairs - t + if too_many {
                0int
            } else {
                1int
            },
        {
            let a: usize = rp + t;
            let b: usize = rp - t - 1;
            let mut k: usize = 0;
            while k < len && !too_many
                invariant
                    grid.wf(),
                    p == pattern_in(grid),
                    wanted <= 1,
                    k <= len,
                    len == p.item_len(columns),
                    a == rp + t,
                    b == rp - t - 1,
                    errors <= 2,
                    !too_many ==> errors == p.mirror_diff(columns, rp as int, t as nat)
                        + p.item_diff(columns, a as int, b as int, k as nat) && errors <= wanted,
                    too_many ==> p.mirror_diff(columns, rp as int, t as nat) + p.item_diff(
                        columns,
                        a as int,
                        b as int,
                        k as nat,
                    ) > wanted,
                decreases len - k + if too_many {
                    0int
                } else {
                    1int
                },
            {
                let ca = if columns {
                    grid.get(a, k)
                } else {
                    grid.get(k, a)
                };
                let cb = if columns {
                    grid.get(b, k)
                } else {
                    grid.get(k, b)
                };
                let same = match ca {
                    Some(x) => match cb {
                        Some(y) => *x == *y,
                        None => false,
                    },
                    None => cb.is_none(),
                };
                proof {
                    assert(same == (p.item_cell(columns, a as int, k as int) == p.item_cell(
                        columns,
                        b as int,
                        k as int,
                    )));
                }
                if !same {
                    errors += 1;
                    if errors > wanted {
                        too_many = true;
                    }
                }
                k += 1;
            }
            proof {
                if too_many {
                    p.lemma_item_diff_grows(columns, a as int, b as int, k as nat, len as nat);
                }
                assert(p.mirror_diff(columns, rp as int, (t + 1) as nat) == p.mirror_diff(
                    columns,
                    rp as int,
                    t as nat,
                ) + p.item_diff(columns, a as int, b as int, len as nat));
            }
            t += 1;
        }
        proof {
            if too_many {
                p.lemma_mirror_diff_grows(columns, rp as int, t as nat, pairs as nat);
            }
        }
        if !too_many && errors == wanted {
            return rp;
        }
        rp += 1;
    }
    0
}

/// The first line across which the pattern reflects exactly.
pub fn find_reflection(grid: &AsciiGrid, columns: bool) -> (r: usize)
    requires
        grid.wf(),
    ensures
        r == pattern_in(grid).reflection_from(columns, 0, 1),
{
    find_with_errors(grid, columns, 0)
}

/// The first line across which the pattern reflects but for one cell.
pub fn find_almost_reflection(grid: &AsciiGrid, columns: bool) -> (r: usize)
    requires
        grid.wf(),
    ensures
        r == pattern_in(grid).reflection_from(columns, 1, 1),
{
    find_with_errors(grid, columns, 1)
}

/// The patterns of the text: blocks with an empty line between each two.
pub open spec fn chunks_of(s: Seq<u8>) -> Seq<Seq<u8>> {
    split_on(s, seq![10u8, 10u8])
}

/// The sum of the numbers of the first `k` patterns.
pub open spec fn total(chunks: Seq<Seq<u8>>, wanted: nat, k: nat) -> int
    decreases k,
{
    if k == 0 {
        0
    } else {
        total(chunks, wanted, (k - 1) as nat) + pattern_of(chunks[k - 1]).number(wanted)
    }
}

/// Whether the text is a list of patterns whose numbers can be summed up
/// in the machine's numbers.
pub open spec fn is_pattern_list(s: Seq<u8>, wanted: nat) -> bool {
    let chunks = chunks_of(s);
    &&& forall|i: int|
        0 <= i < chunks.len() ==> is_block(#[trigger] chunks[i]) && chunks[i].len() < usize::MAX
    &&& forall|i: int|
        0 <= i < chunks.len() ==> pattern_of(#[trigger] chunks[i]).number(wanted) <= usize::MAX
    &&& forall|k: nat| k <= chunks.len() ==> #[trigger] total(chunks, wanted, k) <= usize::MAX
}

fn sum_patterns(input: &str, wanted: usize) -> (r: usize)
    requires
        wanted <= 1,
        is_pattern_list(input.spec_bytes(), wanted as nat),
    ensures
        r == total(
            chunks_of(input.spec_bytes()),
            wanted as nat,
            chunks_of(input.spec_bytes()).len(),
        ),
{
    let sep: [u8; 2] = [10, 10];
    proof {
        assert(sep@ =~= seq![10u8, 10u8]);
    }
    let chunks = split(input.as_bytes(), sep.as_slice());
    let ghost cv = chunks_of(input.spec_bytes());
    let mut sum: usize = 0;
    let mut i: usize = 0;
    while i < chunks.len()
        invariant
            wanted <= 1,
            i <= chunks.len(),
            cv == views(chunks@),
            is_pattern_list(input.spec_bytes(), wanted as nat),
            cv == chunks_of(input.spec_bytes()),
            sum == total(cv, wanted as nat, i as nat),
        decreases chunks.len() - i,
    {
        assert(chunks@[i as int]@ == cv[i as int]);
        assert(is_block(cv[i as int]));
        let grid = AsciiGrid::from_ascii(chunks[i].as_slice());
        let v = find_with_errors(&grid, true, wanted);
        let h = find_with_errors(&grid, false, wanted);
        proof {
            let p = pattern_of(cv[i as int]);
            let q = pattern_in(&grid);
            assert forall|x: int, y: int| #[trigger] (p.cell)(x, y) == (q.cell)(x, y) by {
                grid.lemma_at_inside(x, y);
            }
            assert(p.cell =~= q.cell);
            assert(p == q);
            assert(p.number(wanted as nat) <= usize::MAX);
            assert(total(cv, wanted as nat, (i + 1) as nat) <= usize::MAX);
            p.lemma_reflection_bounds(true, wanted as nat, 1);
            p.lemma_reflection_bounds(false, wanted as nat, 1);
        }
        sum = sum + (v + 100 * h);
        i += 1;
    }
    sum
}

/// The sum of the numbers of the patterns.
pub fn day13_1(input: &str) -> (r: Result<usize, ()>)
    requires
        is_pattern_list(input.spec_bytes(), 0),
    ensures
        r == Ok::<usize, ()>(
            total(chunks_of(input.spec_bytes()), 0, chunks_of(input.spec_bytes()).len()) as usize,
        ),
{
    Ok(sum_patterns(input, 0))
}

/// The sum of the numbers of the patterns, each with one cell changed so
/// that it reflects across a line.
pub fn day13_2(input: &str) -> (r: Result<usize, ()>)
    requires
        is_pattern_list(input.spec_bytes(), 1),
    ensures
        r == Ok::<usize, ()>(
            total(chunks_of(input.spec_bytes()), 1, chunks_of(input.spec_bytes()).len()) as usize,
        ),
{
    Ok(sum_patterns(input, 1))
}

} // verus!
