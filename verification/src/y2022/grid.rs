//! A rectangular grid in one flat buffer, row by row.

use vstd::prelude::*;

verus! {

/// A grid of `width * height` cells; the cell `(x, y)` is stored at
/// `y * width + x`.
#[derive(Debug, Clone, PartialEq, Eq)]
pub struct Grid<T> {
    pub width: usize,
    pub height: usize,
    pub grid_raw: Vec<T>,
}

/// A cell inside a `w` by `h` grid has its index inside the buffer.
pub proof fn lemma_index_in_bounds(x: int, y: int, w: int, h: int)
    requires
        0 <= x < w,
        0 <= y < h,
    ensures
        0 <= y * w + x < w * h,
        y * w + w <= w * h,
        0 <= y * w,
{
    assert(y * w + w <= w * h) by (nonlinear_arith)
        requires
            0 <= y < h,
            0 < w,
    ;
    assert(0 <= y * w) by (nonlinear_arith)
        requires
            0 <= y,
            0 < w,
    ;
}

/// A row inside a grid of `h` rows of `w` cells lies inside the buffer.
pub proof fn lemma_row_in_bounds(y: int, w: int, h: int)
    requires
        0 <= y < h,
        0 <= w,
    ensures
        0 <= y * w,
        y * w + w <= w * h,
{
    assert(0 <= y * w && y * w + w <= w * h) by (nonlinear_arith)
        requires
            0 <= y < h,
            0 <= w,
    ;
}

/// Two different cells of one grid have different indices.
pub proof fn lemma_index_distinct(w: int, a: int, b: int, x: int, y: int)
    requires
        0 <= a < w,
        0 <= x < w,
        a != x || b != y,
    ensures
        b * w + a != y * w + x,
{
    if b != y {
        assert(b * w + a != y * w + x) by (nonlinear_arith)
            requires
                0 <= a < w,
                0 <= x < w,
                b != y,
        ;
    }
}

/// A buffer of `n` copies of `v`.
pub fn filled<T: Copy>(n: usize, v: T) -> (r: Vec<T>)
    ensures
        r@ == Seq::new(n as nat, |i: int| v),
{
    let mut out: Vec<T> = Vec::new();
    let mut i: usize = 0;
    while i < n
        invariant
            i <= n,
            out@ == Seq::new(i as nat, |j: int| v),
        decreases n - i,
    {
        out.push(v);
        i += 1;
        proof {
            assert(out@ =~= Seq::new(i as nat, |j: int| v));
        }
    }
    out
}

impl<T> Grid<T> {
    /// The buffer holds exactly `width * height` cells.
    pub open spec fn wf(&self) -> bool {
        self.width * self.height == self.grid_raw.len()
    }

    /// Whether `(x, y)` lies inside the grid.
    pub open spec fn inside(&self, x: int, y: int) -> bool {
        0 <= x < self.width && 0 <= y < self.height
    }

    /// The cell at `(x, y)`.
    pub open spec fn cell(&self, x: int, y: int) -> T {
        self.grid_raw@[y * self.width + x]
    }

    /// The cells of row `y`, left to right.
    pub open spec fn line(&self, y: int) -> Seq<T> {
        self.grid_raw@.subrange(y * self.width, y * self.width + self.width)
    }

    /// The cells of column `x`, top to bottom.
    pub open spec fn column(&self, x: int) -> Seq<T> {
        Seq::new(self.height as nat, |y: int| self.cell(x, y))
    }

    /// A grid over `grid_raw`, which must hold `width * height` cells.
    pub fn from_vec(width: usize, height: usize, grid_raw: Vec<T>) -> (g: Self)
        requires
            width * height == grid_raw.len(),
        ensures
            g.wf(),
            g.width == width,
            g.height == height,
            g.grid_raw == grid_raw,
    {
        Self { width, height, grid_raw }
    }

    /// The cell at `(x, y)`; `None` where the column is not below the
    /// width or the row is not below the height.
    pub fn get(&self, x: usize, y: usize) -> (r: Option<&T>)
        requires
            self.wf(),
        ensures
            match r {
                Some(v) => self.inside(x as int, y as int) && *v == self.cell(x as int, y as int),
                None => !self.inside(x as int, y as int),
            },
    {
        if x >= self.width || y >= self.height {
            None
        } else {
            Some(self.get_unchecked(x, y))
        }
    }

    /// The cell at `(x, y)`, which must lie inside the grid.
    pub fn get_unchecked(&self, x: usize, y: usize) -> (r: &T)
        requires
            self.wf(),
            self.inside(x as int, y as int),
        ensures
            *r == self.cell(x as int, y as int),
    {
        proof {
            lemma_index_in_bounds(x as int, y as int, self.width as int, self.height as int);
        }
        &self.grid_raw[y * self.width + x]
    }

    /// The cell at `(x, y)`, which must lie inside the grid, for writing.
    pub fn get_mut(&mut self, x: usize, y: usize) -> (r: &mut T)
        requires
            old(self).wf(),
            old(self).inside(x as int, y as int),
        ensures
            *r == old(self).cell(x as int, y as int),
            final(self).width == old(self).width,
            final(self).height == old(self).height,
            final(self).grid_raw@ == old(self).grid_raw@.update(
                y * old(self).width + x,
                *final(r),
            ),
    {
        proof {
            lemma_index_in_bounds(x as int, y as int, self.width as int, self.height as int);
        }
        &mut self.grid_raw[y * self.width + x]
    }

    /// Writes `v` to the cell at `(x, y)`, which must lie inside the grid.
    /// No other cell changes.
    pub fn set(&mut self, x: usize, y: usize, v: T)
        requires
            old(self).wf(),
            old(self).inside(x as int, y as int),
        ensures
            final(self).wf(),
            final(self).width == old(self).width,
            final(self).height == old(self).height,
            final(self).grid_raw@ == old(self).grid_raw@.update(y * old(self).width + x, v),
            final(self).cell(x as int, y as int) == v,
            forall|a: int, b: int|
                old(self).inside(a, b) && (a != x || b != y) ==> #[trigger] final(self).cell(a, b)
                    == old(self).cell(a, b),
    {
        proof {
            lemma_index_in_bounds(x as int, y as int, self.width as int, self.height as int);
            assert forall|a: int, b: int| self.inside(a, b) && (a != x || b != y) implies 0 <= b
                * self.width + a < self.grid_raw.len() && b * self.width + a != y * self.width
                + x by {
                lemma_index_in_bounds(a, b, self.width as int, self.height as int);
                lemma_index_distinct(self.width as int, a, b, x as int, y as int);
            }
        }
        let cell = self.get_mut(x, y);
        *cell = v;
    }

    /// Row `y`, which must lie inside the grid.
    pub fn get_line(&self, y: usize) -> (r: &[T])
        requires
            self.wf(),
            y < self.height,
        ensures
            r@ == self.line(y as int),
    {
        proof {
            lemma_row_in_bounds(y as int, self.width as int, self.height as int);
        }
        let start: usize = y * self.width;
        vstd::slice::slice_subrange(self.grid_raw.as_slice(), start, start + self.width)
    }

    /// An iterator over column `column`, from both ends.
    pub fn get_column_iter(&self, column: usize) -> (r: ColumnIter<'_, T>)
        requires
            self.wf(),
            self.height > 0 ==> column < self.width,
        ensures
            r.wf(),
            r.remaining() == self.column(column as int),
            r.grid() == self,
    {
        ColumnIter::from_grid(self, column)
    }
}

/// An iterator over one column of a grid, which can be taken from the top
/// and from the bottom.
pub struct ColumnIter<'a, T> {
    grid: &'a Grid<T>,
    column: usize,
    front: usize,
    back: usize,
}

impl<'a, T> ColumnIter<'a, T> {
    /// The rows still to come lie inside the grid.
    pub closed spec fn wf(&self) -> bool {
        &&& self.grid.wf()
        &&& self.front <= self.back <= self.grid.height
        &&& self.grid.height > 0 ==> self.column < self.grid.width
    }

    /// The grid that is walked.
    pub closed spec fn grid(&self) -> &Grid<T> {
        self.grid
    }

    /// The cells still to come, top to bottom.
    pub closed spec fn remaining(&self) -> Seq<T> {
        Seq::new(
            (self.back - self.front) as nat,
            |i: int| self.grid.cell(self.column as int, self.front + i),
        )
    }

    fn from_grid(grid: &'a Grid<T>, column: usize) -> (r: Self)
        requires
            grid.wf(),
            grid.height > 0 ==> column < grid.width,
        ensures
            r.wf(),
            r.remaining() == grid.column(column as int),
            r.grid() == grid,
    {
        let r = Self { grid, column, front: 0, back: grid.height };
        proof {
            assert(r.remaining() =~= grid.column(column as int));
        }
        r
    }

    /// The next cell from the top, if any is left.
    pub fn next(&mut self) -> (r: Option<&'a T>)
        requires
            old(self).wf(),
        ensures
            final(self).wf(),
            final(self).grid() == old(self).grid(),
            match r {
                Some(c) => old(self).remaining().len() > 0 && *c == old(self).remaining().first()
                    && final(self).remaining() == old(self).remaining().drop_first(),
                None => old(self).remaining().len() == 0 && final(self).remaining() == old(self).remaining(),
            },
    {
        if self.front == self.back {
            return None;
        }
        let elem = self.grid.get_unchecked(self.column, self.front);
        self.front += 1;
        proof {
            assert(self.remaining() =~= old(self).remaining().drop_first());
        }
        Some(elem)
    }

    /// The next cell from the bottom, if any is left.
    pub fn next_back(&mut self) -> (r: Option<&'a T>)
        requires
            old(self).wf(),
        ensures
            final(self).wf(),
            final(self).grid() == old(self).grid(),
            match r {
                Some(c) => old(self).remaining().len() > 0 && *c == old(self).remaining().last()
                    && final(self).remaining() == old(self).remaining().drop_last(),
                None => old(self).remaining().len() == 0 && final(self).remaining() == old(self).remaining(),
            },
    {
        if self.front == self.back {
            return None;
        }
        self.back -= 1;
        let elem = self.grid.get_unchecked(self.column, self.back);
        proof {
            assert(self.remaining() =~= old(self).remaining().drop_last());
        }
        Some(elem)
    }

    /// How many cells are left.
    pub fn size_hint(&self) -> (r: (usize, Option<usize>))
        requires
            self.wf(),
        ensures
            r.0 == self.remaining().len(),
            r.1 == Some(r.0),
    {
        let size: usize = self.back - self.front;
        (size, Some(size))
    }
}

/// A grid built over `cells` gives back `cells[y * width + x]` at every
/// `(x, y)` inside it.
pub proof fn lemma_construct_then_get<T>(g: Grid<T>, cells: Seq<T>, x: int, y: int)
    requires
        g.grid_raw@ == cells,
        g.wf(),
        g.inside(x, y),
    ensures
        0 <= y * g.width + x < cells.len(),
        g.cell(x, y) == cells[y * g.width + x],
        g.line(y)[x] == cells[y * g.width + x],
        g.column(x)[y] == cells[y * g.width + x],
{
    lemma_index_in_bounds(x, y, g.width as int, g.height as int);
}

/// Taking a column from both ends yields each of its cells once: after `a`
/// cells from the top and `b` from the bottom, `height - a - b` are left,
/// and they are the cells between.
pub proof fn lemma_column_both_ends<T>(col: Seq<T>, a: int, b: int)
    requires
        0 <= a,
        0 <= b,
        a + b <= col.len(),
    ensures
        col.subrange(a, col.len() - b).len() == col.len() - a - b,
        a + b < col.len() ==> col.subrange(a, col.len() - b).drop_first() == col.subrange(
            a + 1,
            col.len() - b,
        ),
        a + b < col.len() ==> col.subrange(a, col.len() - b).drop_last() == col.subrange(
            a,
            col.len() - b - 1,
        ),
        a + b < col.len() ==> col.subrange(a, col.len() - b).first() == col[a],
        a + b < col.len() ==> col.subrange(a, col.len() - b).last() == col[col.len() - b - 1],
{
    if a + b < col.len() {
        assert(col.subrange(a, col.len() - b).drop_first() =~= col.subrange(a + 1, col.len() - b));
        assert(col.subrange(a, col.len() - b).drop_last() =~= col.subrange(a, col.len() - b - 1));
    }
}

/// Every index of the buffer is the index of a cell inside the grid.
pub proof fn lemma_cell_of_index<T>(g: &Grid<T>, i: int)
    requires
        g.wf(),
        0 <= i < g.grid_raw@.len(),
    ensures
        g.inside(i % (g.width as int), i / (g.width as int)),
        g.cell(i % (g.width as int), i / (g.width as int)) == g.grid_raw@[i],
{
    let w = g.width as int;
    let h = g.height as int;
    assert(w > 0) by (nonlinear_arith)
        requires
            0 <= i < w * h,
            0 <= w,
            0 <= h,
    ;
    vstd::arithmetic::div_mod::lemma_fundamental_div_mod(i, w);
    vstd::arithmetic::div_mod::lemma_mod_bound(i, w);
    assert(w * (i / w) == (i / w) * w) by (nonlinear_arith);
    assert(0 <= i / w < h) by (nonlinear_arith)
        requires
            0 <= i < w * h,
            w > 0,
            i == w * (i / w) + i % w,
            0 <= i % w < w,
    ;
}

} // verus!
