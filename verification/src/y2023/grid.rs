//! Coordinates, directions and grids over a text block or a flat buffer.

use vstd::prelude::*;

verus! {

/// A cell position, counted from the top left.
#[derive(Debug, Clone, Copy, PartialEq, Eq, Structural)]
pub struct Coord {
    pub x: usize,
    pub y: usize,
}

/// One of the four ways to step on a grid.
#[derive(Debug, PartialEq, Eq, Clone, Copy, Structural)]
pub enum Direction {
    Up,
    Down,
    Left,
    Right,
}

impl Direction {
    /// The direction that undoes `self`.
    pub open spec fn spec_opposite(self) -> Direction {
        match self {
            Direction::Up => Direction::Down,
            Direction::Down => Direction::Up,
            Direction::Left => Direction::Right,
            Direction::Right => Direction::Left,
        }
    }

    /// The direction that undoes `self`.
    pub fn opposite(&self) -> (r: Self)
        ensures
            r == self.spec_opposite(),
    {
        match self {
            Self::Up => Self::Down,
            Self::Down => Self::Up,
            Self::Left => Self::Right,
            Self::Right => Self::Left,
        }
    }

    /// The four directions, in the order of their declaration.
    pub fn all() -> (r: [Direction; 4])
        ensures
            r@ == seq![Direction::Up, Direction::Down, Direction::Left, Direction::Right],
    {
        let r = [Direction::Up, Direction::Down, Direction::Left, Direction::Right];
        proof {
            assert(r@ =~= seq![Direction::Up, Direction::Down, Direction::Left, Direction::Right]);
        }
        r
    }
}

/// The opposite of the opposite is the direction itself, and no direction
/// is its own opposite.
pub proof fn lemma_opposite_involution(d: Direction)
    ensures
        d.spec_opposite().spec_opposite() == d,
        d.spec_opposite() != d,
{
}

impl Coord {
    /// The position one step from `self` in direction `dir`, if the step
    /// does not leave the non-negative quadrant.
    pub open spec fn step(self, dir: Direction) -> Option<Coord> {
        match dir {
            Direction::Up => if self.y == 0 {
                None
            } else {
                Some(Coord { x: self.x, y: (self.y - 1) as usize })
            },
            Direction::Down => Some(Coord { x: self.x, y: (self.y + 1) as usize }),
            Direction::Left => if self.x == 0 {
                None
            } else {
                Some(Coord { x: (self.x - 1) as usize, y: self.y })
            },
            Direction::Right => Some(Coord { x: (self.x + 1) as usize, y: self.y }),
        }
    }

    /// The sum of the distances along the two axes.
    pub open spec fn spec_manhattan_distance(self, other: Coord) -> int {
        (if self.x >= other.x {
            self.x - other.x
        } else {
            other.x - self.x
        }) + (if self.y >= other.y {
            self.y - other.y
        } else {
            other.y - self.y
        })
    }

    pub fn left(&self) -> (r: Option<Self>)
        ensures
            r == self.step(Direction::Left),
    {
        if self.x == 0 {
            None
        } else {
            Some(Self { x: self.x - 1, y: self.y })
        }
    }

    pub fn go_left(&mut self) -> (moved: bool)
        ensures
            moved == (old(self).x != 0),
            moved ==> Some(*final(self)) == old(self).step(Direction::Left),
            !moved ==> *final(self) == *old(self),
    {
        if self.x == 0 {
            false
        } else {
            self.x -= 1;
            true
        }
    }

    pub fn right(&self) -> (r: Option<Self>)
        requires
            self.x < usize::MAX,
        ensures
            r == self.step(Direction::Right),
    {
        Some(Self { x: self.x + 1, y: self.y })
    }

    pub fn go_right(&mut self) -> (moved: bool)
        requires
            old(self).x < usize::MAX,
        ensures
            moved,
            Some(*final(self)) == old(self).step(Direction::Right),
    {
        self.x += 1;
        true
    }

    pub fn up(&self) -> (r: Option<Self>)
        ensures
            r == self.step(Direction::Up),
    {
        if self.y == 0 {
            None
        } else {
            Some(Self { x: self.x, y: self.y - 1 })
        }
    }

    pub fn go_up(&mut self) -> (moved: bool)
        ensures
            moved == (old(self).y != 0),
            moved ==> Some(*final(self)) == old(self).step(Direction::Up),
            !moved ==> *final(self) == *old(self),
    {
        if self.y == 0 {
            false
        } else {
            self.y -= 1;
            true
        }
    }

    pub fn down(&self) -> (r: Option<Self>)
        requires
            self.y < usize::MAX,
        ensures
            r == self.step(Direction::Down),
    {
        Some(Self { x: self.x, y: self.y + 1 })
    }

    pub fn go_down(&mut self) -> (moved: bool)
        requires
            old(self).y < usize::MAX,
        ensures
            moved,
            Some(*final(self)) == old(self).step(Direction::Down),
    {
        self.y += 1;
        true
    }

    /// The position one step in direction `dir`; `None` where the step
    /// would leave the quadrant.
    pub fn at_dir(&self, dir: Direction) -> (r: Option<Self>)
        requires
            dir == Direction::Right ==> self.x < usize::MAX,
            dir == Direction::Down ==> self.y < usize::MAX,
        ensures
            r == self.step(dir),
    {
        match dir {
            Direction::Up => self.up(),
            Direction::Down => self.down(),
            Direction::Left => self.left(),
            Direction::Right => self.right(),
        }
    }

    /// Steps in direction `dir` where that is possible, and says whether
    /// it was.
    pub fn go_dir(&mut self, dir: Direction) -> (moved: bool)
        requires
            dir == Direction::Right ==> old(self).x < usize::MAX,
            dir == Direction::Down ==> old(self).y < usize::MAX,
        ensures
            moved == old(self).step(dir).is_some(),
            moved ==> Some(*final(self)) == old(self).step(dir),
            !moved ==> *final(self) == *old(self),
    {
        match dir {
            Direction::Up => self.go_up(),
            Direction::Down => self.go_down(),
            Direction::Left => self.go_left(),
            Direction::Right => self.go_right(),
        }
    }

    pub fn manhattan_distance(&self, other: &Self) -> (r: usize)
        requires
            self.spec_manhattan_distance(*other) <= usize::MAX,
        ensures
            r == self.spec_manhattan_distance(*other),
    {
        let dx: usize = if self.x >= other.x {
            self.x - other.x
        } else {
            other.x - self.x
        };
        let dy: usize = if self.y >= other.y {
            self.y - other.y
        } else {
            other.y - self.y
        };
        dx + dy
    }
}

/// A step and the opposite step lead back, wherever both can be taken.
pub proof fn lemma_step_back(c: Coord, d: Direction)
    requires
        c.x < usize::MAX,
        c.y < usize::MAX,
        c.step(d) is Some,
    ensures
        c.step(d)->0.step(d.spec_opposite()) == Some(c),
{
}

/// The Manhattan distance is symmetric, never negative, and zero only
/// between equal positions.
pub proof fn lemma_manhattan(a: Coord, b: Coord)
    ensures
        a.spec_manhattan_distance(b) == b.spec_manhattan_distance(a),
        a.spec_manhattan_distance(b) >= 0,
        a.spec_manhattan_distance(b) == 0 <==> a == b,
{
}


/// A rectangle of cells that can be read by position.
pub trait Grid {
    type Item;

    /// The grid's own invariant.
    spec fn wf(&self) -> bool;

    /// The number of columns.
    spec fn spec_width(&self) -> nat;

    /// The number of rows.
    spec fn spec_height(&self) -> nat;

    /// The cell at `(x, y)`; `None` outside the grid.
    spec fn at(&self, x: int, y: int) -> Option<Self::Item>;

    /// A well-formed grid has a cell exactly at the positions inside it,
    /// and its sides can be counted.
    proof fn lemma_at_inside(&self, x: int, y: int)
        requires
            self.wf(),
        ensures
            self.at(x, y) is Some <==> (0 <= x < self.spec_width() && 0 <= y < self.spec_height()),
            self.spec_width() <= usize::MAX,
            self.spec_height() <= usize::MAX,
    ;

    /// The first column.
    fn x0(&self) -> (r: usize)
        ensures
            r == 0,
    ;

    /// The first row.
    fn y0(&self) -> (r: usize)
        ensures
            r == 0,
    ;

    /// The last column of a grid that has one.
    fn x1(&self) -> (r: usize)
        requires
            self.wf(),
            self.spec_width() > 0,
        ensures
            r == self.spec_width() - 1,
    ;

    /// The last row of a grid that has one.
    fn y1(&self) -> (r: usize)
        requires
            self.wf(),
            self.spec_height() > 0,
        ensures
            r == self.spec_height() - 1,
    ;

    /// Whether `(x, y)` lies inside a grid that has cells.
    fn in_bounds(&self, x: usize, y: usize) -> (r: bool)
        requires
            self.wf(),
            self.spec_width() > 0,
            self.spec_height() > 0,
        ensures
            r == (x < self.spec_width() && y < self.spec_height()),
    {
        x <= self.x1() && y <= self.y1()
    }

    /// The cell at `(x, y)`; `None` outside the grid.
    fn get(&self, x: usize, y: usize) -> (r: Option<&Self::Item>)
        requires
            self.wf(),
        ensures
            match r {
                Some(c) => self.at(x as int, y as int) == Some(*c),
                None => self.at(x as int, y as int) is None,
            },
    ;

    /// The cell at `c`; `None` outside the grid.
    fn get_coord(&self, c: Coord) -> (r: Option<&Self::Item>)
        requires
            self.wf(),
        ensures
            match r {
                Some(v) => self.at(c.x as int, c.y as int) == Some(*v),
                None => self.at(c.x as int, c.y as int) is None,
            },
    {
        self.get(c.x, c.y)
    }

    /// The number of columns of a grid that has cells.
    fn width(&self) -> (r: usize)
        requires
            self.wf(),
            self.spec_width() > 0,
        ensures
            r == self.spec_width(),
    {
        proof {
            self.lemma_at_inside(0, 0);
        }
        self.x1() - self.x0() + 1
    }

    /// The number of rows of a grid that has cells.
    fn height(&self) -> (r: usize)
        requires
            self.wf(),
            self.spec_height() > 0,
        ensures
            r == self.spec_height(),
    {
        proof {
            self.lemma_at_inside(0, 0);
        }
        self.y1() - self.y0() + 1
    }

    /// An iterator over the positions of a grid that has cells, row by row.
    fn coord_iter(&self) -> (r: CoordIterator)
        requires
            self.wf(),
            self.spec_width() > 0,
            self.spec_height() > 0,
        ensures
            r.wf(),
            r.remaining() == coords_from(
                0,
                0,
                0,
                self.spec_width() - 1,
                self.spec_height() - 1,
            ),
    {
        proof {
            self.lemma_at_inside(0, 0);
        }
        CoordIterator::new(self.x0(), self.y0(), self.x1(), self.y1())
    }

    /// The first position, row by row, whose cell `pred` accepts.
    fn find_coord<P>(&self, pred: P) -> (r: Option<Coord>) where
        P: Fn(&<Self as Grid>::Item) -> bool,

        requires
            self.wf(),
            self.spec_width() > 0,
            self.spec_height() > 0,
            forall|x: int, y: int| #[trigger]
                self.at(x, y) is Some ==> call_requires(pred, (&self.at(x, y)->0,)),
        ensures
            match r {
                Some(c) => {
                    &&& self.at(c.x as int, c.y as int) is Some
                    &&& call_ensures(pred, (&self.at(c.x as int, c.y as int)->0,), true)
                    &&& forall|x: int, y: int|
                        0 <= x < self.spec_width() && 0 <= y < self.spec_height() && (y < c.y || (y
                            == c.y && x < c.x)) ==> call_ensures(
                            pred,
                            (&(#[trigger] self.at(x, y))->0,),
                            false,
                        )
                },
                None => forall|x: int, y: int|
                    0 <= x < self.spec_width() && 0 <= y < self.spec_height() ==> call_ensures(
                        pred,
                        (&(#[trigger] self.at(x, y))->0,),
                        false,
                    ),
            },
    {
        let w = self.width();
        let h = self.height();
        let mut y: usize = 0;
        while y < h
            invariant
                self.wf(),
                w == self.spec_width(),
                h == self.spec_height(),
                y <= h,
                forall|x: int, y: int| #[trigger]
                    self.at(x, y) is Some ==> call_requires(pred, (&self.at(x, y)->0,)),
                forall|x: int, yy: int|
                    0 <= x < w && 0 <= yy < y ==> call_ensures(
                        pred,
                        (&(#[trigger] self.at(x, yy))->0,),
                        false,
                    ),
            decreases h - y,
        {
            let mut x: usize = 0;
            while x < w
                invariant
                    self.wf(),
                    w == self.spec_width(),
                    h == self.spec_height(),
                    y < h,
                    x <= w,
                    forall|x: int, y: int| #[trigger]
                        self.at(x, y) is Some ==> call_requires(pred, (&self.at(x, y)->0,)),
                    forall|xx: int, yy: int|
                        0 <= xx < w && 0 <= yy < h && (yy < y || (yy == y && xx < x))
                            ==> call_ensures(pred, (&(#[trigger] self.at(xx, yy))->0,), false),
                decreases w - x,
            {
                proof {
                    self.lemma_at_inside(x as int, y as int);
                }
                let cell = self.get(x, y);
                match cell {
                    Some(c) => {
                        if pred(c) {
                            return Some(Coord { x, y });
                        }
                    },
                    None => {},
                }
                x += 1;
            }
            y += 1;
        }
        None
    }

    /// An iterator over the rows.
    fn lines(&self) -> (r: Lines<'_, Self>) where Self: Sized
        ensures
            r.grid == self,
            r.line == 0,
    {
        Lines { grid: self, line: 0 }
    }

    /// An iterator over the columns.
    fn columns(&self) -> (r: Columns<'_, Self>) where Self: Sized
        ensures
            r.grid == self,
            r.column == 0,
    {
        Columns { grid: self, column: 0 }
    }
}

/// A grid whose cells can be written.
pub trait MutGrid: Grid {
    /// The cell at `(x, y)` for writing; `None` outside the grid. Writing
    /// changes that cell and no other.
    fn get_mut(&mut self, x: usize, y: usize) -> (r: Option<&mut Self::Item>)
        requires
            old(self).wf(),
        ensures
            final(self).wf(),
            final(self).spec_width() == old(self).spec_width(),
            final(self).spec_height() == old(self).spec_height(),
            match r {
                Some(c) => old(self).at(x as int, y as int) == Some(*c) && final(self).at(
                    x as int,
                    y as int,
                ) == Some(*final(c)),
                None => old(self).at(x as int, y as int) is None,
            },
            forall|a: int, b: int|
                (a != x || b != y || r is None) ==> #[trigger] final(self).at(a, b) == old(self).at(
                    a,
                    b,
                ),
    ;

    /// The cell at `c` for writing; `None` outside the grid.
    fn get_coord_mut(&mut self, c: Coord) -> (r: Option<&mut Self::Item>)
        requires
            old(self).wf(),
        ensures
            final(self).wf(),
            final(self).spec_width() == old(self).spec_width(),
            final(self).spec_height() == old(self).spec_height(),
            match r {
                Some(v) => old(self).at(c.x as int, c.y as int) == Some(*v) && final(self).at(
                    c.x as int,
                    c.y as int,
                ) == Some(*final(v)),
                None => old(self).at(c.x as int, c.y as int) is None,
            },
            forall|a: int, b: int|
                (a != c.x || b != c.y || r is None) ==> #[trigger] final(self).at(a, b) == old(
                    self,
                ).at(a, b),
    {
        self.get_mut(c.x, c.y)
    }
}

/// The positions from `(x, y)` to the end of the rectangle of columns
/// `x0..=x1` and rows up to `y1`, row by row.
pub open spec fn coords_from(x0: int, x: int, y: int, x1: int, y1: int) -> Seq<Coord>
    decreases y1 + 1 - y, x1 + 1 - x,
{
    if y > y1 || x0 > x1 || x > x1 || x < x0 || y < 0 {
        Seq::empty()
    } else if x == x1 {
        seq![Coord { x: x as usize, y: y as usize }] + coords_from(x0, x0, y + 1, x1, y1)
    } else {
        seq![Coord { x: x as usize, y: y as usize }] + coords_from(x0, x + 1, y, x1, y1)
    }
}

/// An iterator over the positions of a rectangle, row by row.
pub struct CoordIterator {
    x0: usize,
    x1: usize,
    y1: usize,
    x: usize,
    y: usize,
}

impl CoordIterator {
    /// The current position lies in a row of the rectangle or just below it.
    pub closed spec fn wf(&self) -> bool {
        &&& self.x0 <= self.x <= self.x1
        &&& self.y1 < usize::MAX
        &&& self.y <= self.y1 + 1
    }

    /// The positions still to come.
    pub closed spec fn remaining(&self) -> Seq<Coord> {
        coords_from(
            self.x0 as int,
            self.x as int,
            self.y as int,
            self.x1 as int,
            self.y1 as int,
        )
    }

    /// An iterator over the columns `x0..=x1` of the rows `y0..=y1`.
    pub fn new(x0: usize, y0: usize, x1: usize, y1: usize) -> (r: Self)
        requires
            x0 <= x1,
            y0 <= y1,
            y1 < usize::MAX,
        ensures
            r.wf(),
            r.remaining() == coords_from(x0 as int, x0 as int, y0 as int, x1 as int, y1 as int),
    {
        Self { x0, x1, y1, x: x0, y: y0 }
    }

    /// The next position, if any is left.
    pub fn next(&mut self) -> (r: Option<Coord>)
        requires
            old(self).wf(),
        ensures
            final(self).wf(),
            match r {
                Some(c) => old(self).remaining().len() > 0 && c == old(self).remaining().first()
                    && final(self).remaining() == old(self).remaining().drop_first(),
                None => old(self).remaining().len() == 0 && final(self).remaining() == old(self).remaining(),
            },
    {
        if self.y > self.y1 {
            return None;
        }
        let res = Some(Coord { x: self.x, y: self.y });
        if self.x >= self.x1 {
            self.x = self.x0;
            self.y += 1;
        } else {
            self.x += 1;
        }
        proof {
            assert(self.remaining() =~= old(self).remaining().drop_first());
        }
        res
    }
}


/// An iterator over the cells of one row, left to right.
pub struct LineIterator<'a, G: Grid> {
    pub grid: &'a G,
    pub line: usize,
    pub x: usize,
}

impl<'a, G: Grid> LineIterator<'a, G> {
    pub fn new(grid: &'a G, line: usize) -> (r: LineIterator<'a, G>)
        ensures
            r.grid == grid,
            r.line == line,
            r.x == 0,
    {
        Self { grid, line, x: 0 }
    }

    /// The next cell of the row; `None` from the row's end on.
    pub fn next(&mut self) -> (r: Option<&'a G::Item>)
        requires
            old(self).grid.wf(),
            old(self).x < usize::MAX,
        ensures
            final(self).grid == old(self).grid,
            final(self).line == old(self).line,
            final(self).x == old(self).x + 1,
            match r {
                Some(c) => old(self).grid.at(old(self).x as int, old(self).line as int)
                    == Some(*c),
                None => old(self).grid.at(old(self).x as int, old(self).line as int)
                     is None,
            },
    {
        let elem = self.grid.get(self.x, self.line);
        self.x += 1;
        elem
    }
}

/// An iterator over the rows of a grid, each as an iterator of its own.
pub struct Lines<'a, G: Grid> {
    pub grid: &'a G,
    pub line: usize,
}

impl<'a, G: Grid> Lines<'a, G> {
    pub fn new(grid: &'a G) -> (r: Lines<'a, G>)
        ensures
            r.grid == grid,
            r.line == 0,
    {
        Self { grid, line: 0 }
    }

    /// An iterator over the next row, until the rows are used up.
    pub fn next(&mut self) -> (r: Option<LineIterator<'a, G>>)
        requires
            old(self).grid.wf(),
            old(self).grid.spec_height() > 0,
            old(self).line <= old(self).grid.spec_height(),
        ensures
            final(self).grid == old(self).grid,
            match r {
                Some(it) => old(self).line < old(self).grid.spec_height() && it.grid == old(self).grid && it.line == old(self).line && it.x == 0 && final(self).line
                    == old(self).line + 1,
                None => old(self).line == old(self).grid.spec_height() && final(self).line
                    == old(self).line,
            },
    {
        if self.line == self.grid.height() {
            return None;
        }
        let iter = LineIterator::new(self.grid, self.line);
        self.line += 1;
        Some(iter)
    }
}

/// An iterator over the cells of one column, top to bottom.
pub struct ColumnIterator<'a, G: Grid> {
    pub grid: &'a G,
    pub column: usize,
    pub y: usize,
}

impl<'a, G: Grid> ColumnIterator<'a, G> {
    pub fn new(grid: &'a G, column: usize) -> (r: ColumnIterator<'a, G>)
        ensures
            r.grid == grid,
            r.column == column,
            r.y == 0,
    {
        Self { grid, column, y: 0 }
    }

    /// The next cell of the column; `None` from the column's end on.
    pub fn next(&mut self) -> (r: Option<&'a G::Item>)
        requires
            old(self).grid.wf(),
            old(self).y < usize::MAX,
        ensures
            final(self).grid == old(self).grid,
            final(self).column == old(self).column,
            final(self).y == old(self).y + 1,
            match r {
                Some(c) => old(self).grid.at(old(self).column as int, old(self).y as int)
                    == Some(*c),
                None => old(self).grid.at(old(self).column as int, old(self).y as int)
                     is None,
            },
    {
        let elem = self.grid.get(self.column, self.y);
        self.y += 1;
        elem
    }
}

/// An iterator over the columns of a grid, each as an iterator of its own.
pub struct Columns<'a, G: Grid> {
    pub grid: &'a G,
    pub column: usize,
}

impl<'a, G: Grid> Columns<'a, G> {
    pub fn new(grid: &'a G) -> (r: Columns<'a, G>)
        ensures
            r.grid == grid,
            r.column == 0,
    {
        Self { grid, column: 0 }
    }

    /// An iterator over the next column, until the columns are used up.
    pub fn next(&mut self) -> (r: Option<ColumnIterator<'a, G>>)
        requires
            old(self).grid.wf(),
            old(self).grid.spec_width() > 0,
            old(self).column <= old(self).grid.spec_width(),
        ensures
            final(self).grid == old(self).grid,
            match r {
                Some(it) => old(self).column < old(self).grid.spec_width() && it.grid == old(self).grid && it.column == old(self).column && it.y == 0 && final(self).column == old(self).column + 1,
                None => old(self).column == old(self).grid.spec_width() && final(self).column
                    == old(self).column,
            },
    {
        if self.column == self.grid.width() {
            return None;
        }
        let iter = ColumnIterator::new(self.grid, self.column);
        self.column += 1;
        Some(iter)
    }
}


/// A grid over a buffer of `width * height` cells, row by row.
#[derive(Debug, Clone, PartialEq, Eq)]
pub struct VecGrid<T> {
    pub width: usize,
    pub height: usize,
    pub grid_raw: Vec<T>,
}

impl<T: Clone> VecGrid<T> {
    /// A grid of `width` by `height` clones of `default`.
    pub fn new(width: usize, height: usize, default: T) -> (r: Self)
        requires
            width * height <= usize::MAX,
        ensures
            r.width == width,
            r.height == height,
            r.grid_raw.len() == width * height,
            forall|i: int| 0 <= i < width * height ==> cloned(default, #[trigger] r.grid_raw@[i]),
            width > 0 && height > 0 ==> r.wf(),
    {
        let grid_raw = vec![default; width * height];
        Self { width, height, grid_raw }
    }
}

/// The index of the cell `(x, y)` in a row-major buffer of rows of `w`.
pub open spec fn cell_index(w: int, x: int, y: int) -> int {
    y * w + x
}

impl<T> VecGrid<T> {
    /// The row-major index of a cell inside the grid lies inside the buffer.
    pub proof fn lemma_index(&self, x: int, y: int)
        requires
            self.wf(),
            0 <= x < self.width,
            0 <= y < self.height,
        ensures
            0 <= y * self.width + x < self.grid_raw.len(),
    {
        assert(0 <= y * self.width && y * self.width + self.width <= self.width * self.height)
            by (nonlinear_arith)
            requires
                0 <= y < self.height,
                0 <= self.width,
        ;
    }
}

impl<T> Grid for VecGrid<T> {
    type Item = T;

    open spec fn wf(&self) -> bool {
        &&& self.width > 0
        &&& self.height > 0
        &&& self.width * self.height == self.grid_raw.len()
    }

    open spec fn spec_width(&self) -> nat {
        self.width as nat
    }

    open spec fn spec_height(&self) -> nat {
        self.height as nat
    }

    open spec fn at(&self, x: int, y: int) -> Option<T> {
        if 0 <= x < self.width && 0 <= y < self.height {
            Some(self.grid_raw@[cell_index(self.width as int, x, y)])
        } else {
            None
        }
    }

    proof fn lemma_at_inside(&self, x: int, y: int) {
    }

    fn x0(&self) -> (r: usize) {
        0
    }

    fn y0(&self) -> (r: usize) {
        0
    }

    fn x1(&self) -> (r: usize) {
        self.width - 1
    }

    fn y1(&self) -> (r: usize) {
        self.height - 1
    }

    fn get(&self, x: usize, y: usize) -> (r: Option<&Self::Item>) {
        if !self.in_bounds(x, y) {
            None
        } else {
            proof {
                self.lemma_index(x as int, y as int);
            }
            Some(&self.grid_raw[y * self.width + x])
        }
    }
}

impl<T> MutGrid for VecGrid<T> {
    fn get_mut(&mut self, x: usize, y: usize) -> (r: Option<&mut Self::Item>) {
        if !self.in_bounds(x, y) {
            None
        } else {
            proof {
                self.lemma_index(x as int, y as int);
                assert forall|a: int, b: int| 0 <= a < self.width && 0 <= b < self.height implies 0
                    <= #[trigger] cell_index(self.width as int, a, b) < self.grid_raw.len() && ((a
                    != x || b != y) ==> cell_index(self.width as int, a, b) != y * self.width
                    + x) by {
                    self.lemma_index(a, b);
                    if b != y {
                        assert(b * self.width + a != y * self.width + x) by (nonlinear_arith)
                            requires
                                0 <= a < self.width,
                                0 <= x < self.width,
                                b != y,
                        ;
                    }
                }
            }
            Some(&mut self.grid_raw[y * self.width + x])
        }
    }
}

/// What a grid of bytes shows, as a value of mathematics: its cells by
/// column and row, `None` outside, and its sides.
pub struct Picture {
    pub cell: spec_fn(int, int) -> Option<u8>,
    pub width: nat,
    pub height: nat,
}

/// What the grid `g` shows.
pub open spec fn picture_in<G: Grid<Item = u8>>(g: &G) -> Picture {
    Picture { cell: |x: int, y: int| g.at(x, y), width: g.spec_width(), height: g.spec_height() }
}

/// What the block of text `s` shows.
pub open spec fn picture_of(s: Seq<u8>) -> Picture {
    let rows = crate::text::split_on(s, seq![10u8]);
    Picture {
        cell: |x: int, y: int|
            if 0 <= x < block_width(s) && 0 <= y < block_height(s) {
                Some(rows[y][x])
            } else {
                None
            },
        width: block_width(s),
        height: block_height(s),
    }
}

/// A grid over a block of text: rows of `width` bytes, one line feed after
/// each.
pub struct AsciiGrid<'a> {
    ascii: &'a [u8],
    width: usize,
    height: usize,
}

/// The text is a block: every line but the last is as long as the first.
pub open spec fn is_block(s: Seq<u8>) -> bool {
    let p = crate::text::split_on(s, seq![10u8]);
    forall|k: int| 0 <= k < p.len() - 1 ==> (#[trigger] p[k]).len() == p[0].len()
}

/// The number of columns of the block `s`: the length of its first line.
pub open spec fn block_width(s: Seq<u8>) -> nat {
    crate::text::split_on(s, seq![10u8])[0].len()
}

/// The number of rows of the block `s`: its lines, the last one only if it
/// is as long as the others.
pub open spec fn block_height(s: Seq<u8>) -> nat {
    let p = crate::text::split_on(s, seq![10u8]);
    if p.last().len() == p[0].len() {
        p.len()
    } else {
        (p.len() - 1) as nat
    }
}

impl<'a> AsciiGrid<'a> {
    /// The text under the grid.
    pub closed spec fn bytes(&self) -> Seq<u8> {
        self.ascii@
    }

    /// The index of the cell `(x, y)` in the text.
    pub closed spec fn index_of(&self, x: int, y: int) -> int {
        y * (self.width + 1) + x
    }

    /// The index of a cell inside the grid lies inside the text.
    pub proof fn lemma_index(&self, x: int, y: int)
        requires
            self.wf(),
            0 <= x < self.spec_width(),
            0 <= y < self.spec_height(),
        ensures
            0 <= self.index_of(x, y) < self.bytes().len(),
            self.index_of(x, y) == y * (self.spec_width() + 1) + x,
            self.at(x, y) == Some(self.bytes()[self.index_of(x, y)]),
    {
        let w = self.width as int;
        let h = self.height as int;
        assert(0 <= y * (w + 1) && y * (w + 1) + (w + 1) <= h * (w + 1)) by (nonlinear_arith)
            requires
                0 <= y < h,
                0 <= w,
        ;
    }

    /// The number of columns, which may be 0.
    pub fn count_columns(&self) -> (r: usize)
        ensures
            r == self.spec_width(),
    {
        self.width
    }

    /// The number of rows, which may be 0.
    pub fn count_rows(&self) -> (r: usize)
        ensures
            r == self.spec_height(),
    {
        self.height
    }

    /// The two sides of a grid with cells together are not longer than
    /// the text and one more.
    pub proof fn lemma_sides(&self)
        requires
            self.wf(),
            self.spec_height() > 0,
        ensures
            self.spec_width() + self.spec_height() <= self.bytes().len() + 1,
            self.bytes().len() < usize::MAX,
    {
        let w = self.width as int;
        let h = self.height as int;
        assert(w + h <= h * (w + 1)) by (nonlinear_arith)
            requires
                h >= 1,
                w >= 0,
        ;
    }

    /// The grid over the block of text `ascii`.
    pub fn from_ascii(ascii: &'a [u8]) -> (r: AsciiGrid<'a>)
        requires
            is_block(ascii@),
            ascii@.len() < usize::MAX,
        ensures
            r.wf(),
            r.bytes() == ascii@,
            r.spec_width() == block_width(ascii@),
            r.spec_height() == block_height(ascii@),
            forall|x: int, y: int|
                0 <= x < r.spec_width() && 0 <= y < r.spec_height() ==> #[trigger] r.at(x, y)
                    == Some(crate::text::split_on(ascii@, seq![10u8])[y][x]),
            picture_in(&r) == picture_of(ascii@),
            r.spec_width() * r.spec_height() <= ascii@.len(),
    {
        let ghost nl = seq![10u8];
        let ghost p = crate::text::split_on(ascii@, nl);
        let width = crate::text::find_newline(ascii, 0);
        let mut height: usize = 0;
        let mut pos: usize = 0;
        let ghost mut acc: Seq<Seq<u8>> = Seq::empty();
        proof {
            crate::text::lemma_first_match_bounds(ascii@, nl, 0);
            assert(p =~= acc + crate::text::split_from(ascii@, nl, 0));
            assert(p[0].len() == width);
        }
        loop
            invariant_except_break
                pos <= ascii.len(),
                pos == height * (width + 1),
                height <= pos,
                acc.len() == height,
                p == acc + crate::text::split_from(ascii@, nl, pos as int),
                forall|k: int|
                    0 <= k < height ==> #[trigger] acc[k] == ascii@.subrange(
                        k * (width + 1),
                        k * (width + 1) + width,
                    ),
            invariant
                nl == seq![10u8],
                p == crate::text::split_on(ascii@, nl),
                is_block(ascii@),
                p.len() > 0,
                p[0].len() == width,
                ascii.len() < usize::MAX,
                width <= ascii.len(),
            ensures
                height * (width + 1) <= ascii.len() + 1,
                height == block_height(ascii@),
                forall|k: int|
                    0 <= k < height ==> #[trigger] p[k] == ascii@.subrange(
                        k * (width + 1),
                        k * (width + 1) + width,
                    ),
            decreases ascii.len() - pos,
        {
            let e = crate::text::find_newline(ascii, pos);
            proof {
                crate::text::lemma_first_match_bounds(ascii@, nl, pos as int);
            }
            if e < ascii.len() {
                proof {
                    let piece = ascii@.subrange(pos as int, e as int);
                    let rest = crate::text::split_from(ascii@, nl, e + 1);
                    assert(crate::text::split_from(ascii@, nl, pos as int) == seq![piece] + rest);
                    assert(rest.len() > 0);
                    assert(p[height as int] == piece);
                    assert(height < p.len() - 1);
                    assert(piece.len() == width);
                    assert((height + 1) * (width + 1) == height * (width + 1) + width + 1)
                        by (nonlinear_arith);
                    assert(acc + (seq![piece] + rest) =~= acc.push(piece) + rest);
                    acc = acc.push(piece);
                }
                height += 1;
                pos = e + 1;
            } else {
                proof {
                    let piece = ascii@.subrange(pos as int, ascii@.len() as int);
                    assert(crate::text::split_from(ascii@, nl, pos as int) == seq![piece]);
                    assert(p =~= acc.push(piece));
                    assert(p.last() == piece);
                    assert((height + 1) * (width + 1) == height * (width + 1) + width + 1)
                        by (nonlinear_arith);
                }
                if ascii.len() - pos == width {
                    height += 1;
                }
                break;
            }
        }
        let r = Self { ascii, width, height };
        proof {
            assert(width * height <= height * (width + 1)) by (nonlinear_arith)
                requires
                    0 <= width,
                    0 <= height,
            ;
            if height > 0 && width > 0 {
                r.lemma_index(width - 1, height - 1);
                assert((height - 1) * (width + 1) + (width - 1) + 1 == height * width + height - 1)
                    by (nonlinear_arith);
                assert(width * height == height * width) by (nonlinear_arith);
            } else {
                assert(width * height == 0) by (nonlinear_arith)
                    requires
                        width == 0 || height == 0,
                ;
            }
            assert forall|x: int, y: int|
                0 <= x < r.spec_width() && 0 <= y < r.spec_height() implies #[trigger] r.at(x, y)
                == Some(p[y][x]) by {
                r.lemma_index(x, y);
                r.lemma_index(width - 1, y);
                assert(p[y] == ascii@.subrange(y * (width + 1), y * (width + 1) + width));
                assert(0 <= y * (width + 1)) by (nonlinear_arith)
                    requires
                        0 <= y,
                        0 <= width,
                ;
                assert(p[y][x] == ascii@[y * (width + 1) + x]);
            }
            let a = picture_in(&r);
            let b = picture_of(ascii@);
            assert forall|x: int, y: int| #[trigger] (a.cell)(x, y) == (b.cell)(x, y) by {}
            assert(a.cell =~= b.cell);
        }
        r
    }

    /// The row and column of the first byte of the text that `pred`
    /// accepts, line feeds included: they stand in column `width`.
    pub fn find_coord<P>(&self, pred: P) -> (r: Option<Coord>) where P: Fn(&u8) -> bool
        requires
            self.wf(),
            forall|i: int|
                0 <= i < self.bytes().len() ==> call_requires(pred, (&#[trigger] self.bytes()[i],)),
        ensures
            match r {
                Some(c) => {
                    let pos = c.y * (self.spec_width() + 1) + c.x;
                    &&& c.x <= self.spec_width()
                    &&& 0 <= pos < self.bytes().len()
                    &&& call_ensures(pred, (&self.bytes()[pos],), true)
                    &&& forall|j: int|
                        0 <= j < pos ==> call_ensures(pred, (&#[trigger] self.bytes()[j],), false)
                },
                None => forall|j: int|
                    0 <= j < self.bytes().len() ==> call_ensures(
                        pred,
                        (&#[trigger] self.bytes()[j],),
                        false,
                    ),
            },
    {
        let mut pos: usize = 0;
        while pos < self.ascii.len()
            invariant
                pos <= self.ascii.len(),
                self.wf(),
                forall|i: int|
                    0 <= i < self.bytes().len() ==> call_requires(
                        pred,
                        (&#[trigger] self.bytes()[i],),
                    ),
                forall|j: int|
                    0 <= j < pos ==> call_ensures(pred, (&#[trigger] self.bytes()[j],), false),
            decreases self.ascii.len() - pos,
        {
            let b = &self.ascii[pos];
            assert(*b == self.bytes()[pos as int]);
            if pred(b) {
                let (y, x) = crate::arith::div_rem(pos, self.width + 1);
                proof {
                    vstd::arithmetic::div_mod::lemma_fundamental_div_mod(
                        pos as int,
                        self.width + 1,
                    );
                    assert(y * (self.width + 1) == (self.width + 1) * y) by (nonlinear_arith);
                }
                return Some(Coord { x, y });
            }
            pos += 1;
        }
        None
    }

    /// The bytes `x0..x1` of row `line`.
    pub fn range(&self, line: usize, x0: usize, x1: usize) -> (r: &[u8])
        requires
            self.wf(),
            x0 <= x1,
            line * (self.spec_width() + 1) + x1 <= self.bytes().len(),
        ensures
            r@ == self.bytes().subrange(
                line * (self.spec_width() + 1) + x0,
                line * (self.spec_width() + 1) + x1,
            ),
    {
        proof {
            assert(0 <= line * (self.width + 1)) by (nonlinear_arith);
        }
        let line_gap: usize = line * (self.width + 1);
        vstd::slice::slice_subrange(self.ascii, line_gap + x0, line_gap + x1)
    }
}

impl<'a> Grid for AsciiGrid<'a> {
    type Item = u8;

    closed spec fn wf(&self) -> bool {
        &&& self.height * (self.width + 1) <= self.ascii@.len() + 1
        &&& self.width <= self.ascii@.len() < usize::MAX
    }

    closed spec fn spec_width(&self) -> nat {
        self.width as nat
    }

    closed spec fn spec_height(&self) -> nat {
        self.height as nat
    }

    closed spec fn at(&self, x: int, y: int) -> Option<u8> {
        if 0 <= x < self.width && 0 <= y < self.height {
            Some(self.ascii@[y * (self.width + 1) + x])
        } else {
            None
        }
    }

    proof fn lemma_at_inside(&self, x: int, y: int) {
    }

    fn x0(&self) -> (r: usize) {
        0
    }

    fn y0(&self) -> (r: usize) {
        0
    }

    fn x1(&self) -> (r: usize) {
        self.width - 1
    }

    fn y1(&self) -> (r: usize) {
        self.height - 1
    }

    fn width(&self) -> (r: usize) {
        self.width
    }

    fn height(&self) -> (r: usize) {
        self.height
    }

    fn get(&self, x: usize, y: usize) -> (r: Option<&Self::Item>) {
        if x >= self.width || y >= self.height {
            None
        } else {
            proof {
                self.lemma_index(x as int, y as int);
            }
            Some(&self.ascii[y * (self.width + 1) + x])
        }
    }
}

/// A grid gives back the cell of its buffer at every position inside it,
/// and nothing at any position outside.
pub proof fn lemma_vec_grid_get<T>(g: VecGrid<T>, x: int, y: int)
    requires
        g.wf(),
        0 <= x,
        0 <= y,
    ensures
        x < g.width && y < g.height ==> 0 <= y * g.width + x < g.grid_raw.len() && g.at(x, y)
            == Some(g.grid_raw@[y * g.width + x]),
        x >= g.width || y >= g.height ==> g.at(x, y) is None,
{
    if x < g.width && y < g.height {
        g.lemma_index(x, y);
    }
}

} // verus!
