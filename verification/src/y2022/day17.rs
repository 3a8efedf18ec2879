//! Falling rocks in a shaft seven cells wide, and the height of the tower
//! they build; for very many rocks, a repeating state lets whole cycles be
//! skipped.

use crate::text::trimmed;
use crate::y2022::grid::{filled, lemma_cell_of_index, Grid};
use vstd::prelude::*;
use vstd::string::*;

verus! {

/// A rock: the cells that it fills, row 0 being its lowest.
#[derive(Debug)]
pub struct Rock {
    pub shape: Grid<bool>,
}

/// The shape of a rock, as a value of mathematics.
pub struct Shape {
    pub width: int,
    pub height: int,
    pub cells: Seq<bool>,
}

impl Shape {
    /// Whether `(x, y)` lies inside the shape's rectangle.
    pub open spec fn inside(self, x: int, y: int) -> bool {
        0 <= x < self.width && 0 <= y < self.height
    }

    /// Whether the shape fills its cell `(x, y)`.
    pub open spec fn cell(self, x: int, y: int) -> bool {
        self.cells[y * self.width + x]
    }
}

/// The shape that the grid `g` holds.
pub open spec fn shape_of(g: &Grid<bool>) -> Shape {
    Shape { width: g.width as int, height: g.height as int, cells: g.grid_raw@ }
}

/// The shapes of the rocks `rocks`.
pub open spec fn shapes_of(rocks: Seq<Rock>) -> Seq<Shape> {
    Seq::new(rocks.len(), |i: int| shape_of(&rocks[i].shape))
}

/// The five shapes that fall in turn: a bar lying, a cross, an angle, a bar
/// standing, a square.
pub open spec fn standard_shapes() -> Seq<Shape> {
    seq![
        Shape { width: 4, height: 1, cells: seq![true, true, true, true] },
        Shape {
            width: 3,
            height: 3,
            cells: seq![false, true, false, true, true, true, false, true, false],
        },
        Shape {
            width: 3,
            height: 3,
            cells: seq![true, true, true, false, false, true, false, false, true],
        },
        Shape { width: 1, height: 4, cells: seq![true, true, true, true] },
        Shape { width: 2, height: 2, cells: seq![true, true, true, true] },
    ]
}

/// A push to one side.
#[derive(Debug, Clone, Copy, PartialEq, Eq, Structural)]
pub enum Wind {
    Left,
    Right,
}

impl Rock {
    /// Whether the rock fits the shaft where rocks appear, two cells from
    /// the left wall.
    pub open spec fn fits(&self) -> bool {
        &&& self.shape.wf()
        &&& 1 <= self.shape.width <= 5
        &&& 1 <= self.shape.height
    }

    pub fn new_dash() -> (r: Self)
        ensures
            r.fits(),
            r.shape.width == 4,
            r.shape.height == 1,
            r.shape.grid_raw@ == seq![true, true, true, true],
    {
        let shape = Grid::from_vec(4, 1, vec![true, true, true, true]);
        Self { shape }
    }

    pub fn new_plus() -> (r: Self)
        ensures
            r.fits(),
            r.shape.width == 3,
            r.shape.height == 3,
            r.shape.grid_raw@ == seq![false, true, false, true, true, true, false, true, false],
    {
        let shape = Grid::from_vec(
            3,
            3,
            vec![false, true, false, true, true, true, false, true, false],
        );
        Self { shape }
    }

    pub fn new_l() -> (r: Self)
        ensures
            r.fits(),
            r.shape.width == 3,
            r.shape.height == 3,
            r.shape.grid_raw@ == seq![true, true, true, false, false, true, false, false, true],
    {
        let shape = Grid::from_vec(
            3,
            3,
            vec![true, true, true, false, false, true, false, false, true],
        );
        Self { shape }
    }

    pub fn new_i() -> (r: Self)
        ensures
            r.fits(),
            r.shape.width == 1,
            r.shape.height == 4,
            r.shape.grid_raw@ == seq![true, true, true, true],
    {
        let shape = Grid::from_vec(1, 4, vec![true, true, true, true]);
        Self { shape }
    }

    pub fn new_square() -> (r: Self)
        ensures
            r.fits(),
            r.shape.width == 2,
            r.shape.height == 2,
            r.shape.grid_raw@ == seq![true, true, true, true],
    {
        let shape = Grid::from_vec(2, 2, vec![true, true, true, true]);
        Self { shape }
    }
}

/// The five rocks, in the order in which they fall.
pub fn field_rocks() -> (r: Vec<Rock>)
    ensures
        r.len() == 5,
        forall|i: int| 0 <= i < 5 ==> (#[trigger] r@[i]).fits() && r@[i].shape.height <= 4,
        shapes_of(r@) == standard_shapes(),
{
    let mut v: Vec<Rock> = Vec::new();
    v.push(Rock::new_dash());
    v.push(Rock::new_plus());
    v.push(Rock::new_l());
    v.push(Rock::new_i());
    v.push(Rock::new_square());
    proof {
        assert(shapes_of(v@) =~= standard_shapes());
    }
    v
}

/// A list that is read round and round.
pub struct Cycler<'a, T> {
    pub content: &'a [T],
    pub index: usize,
}

impl<'a, T> Cycler<'a, T> {
    /// The index points at an item.
    pub open spec fn wf(&self) -> bool {
        self.index < self.content@.len()
    }

    pub fn new(content: &'a [T]) -> (r: Self)
        ensures
            r.content == content,
            r.index == 0,
    {
        Self { content, index: 0 }
    }

    /// The item at the index, which then moves on, from the last item back
    /// to the first.
    pub fn next(&mut self) -> (r: &'a T)
        requires
            old(self).wf(),
        ensures
            *r == old(self).content@[old(self).index as int],
            final(self).content == old(self).content,
            final(self).index == (old(self).index + 1) % (old(self).content@.len() as int),
            final(self).wf(),
    {
        let res = &self.content[self.index];
        self.index = (self.index + 1) % self.content.len();
        res
    }
}

/// Whether the cell `(x, y)` of a shaft with the cells `cells` is filled.
pub open spec fn is_filled(cells: Seq<bool>, x: int, y: int) -> bool {
    cells[y * 7 + x]
}

/// Whether row `y` holds no rock.
pub open spec fn row_empty(cells: Seq<bool>, y: int) -> bool {
    forall|x: int| 0 <= x < 7 ==> !#[trigger] is_filled(cells, x, y)
}

/// The first empty row at or above `y` in a shaft of `rows` rows; `rows`
/// when there is none.
pub open spec fn top_from(cells: Seq<bool>, rows: int, y: int) -> int
    decreases rows - y,
{
    if y >= rows {
        rows
    } else if row_empty(cells, y) {
        y
    } else {
        top_from(cells, rows, y + 1)
    }
}

/// The first empty row at or above `y` is not below `y`.
pub proof fn lemma_top_bounds(cells: Seq<bool>, rows: int, y: int)
    requires
        y <= rows,
    ensures
        y <= top_from(cells, rows, y) <= rows,
        top_from(cells, rows, y) < rows ==> row_empty(cells, top_from(cells, rows, y)),
    decreases rows - y,
{
    if y < rows && !row_empty(cells, y) {
        lemma_top_bounds(cells, rows, y + 1);
    }
}

/// Whether a rock of shape `shape` with its lower left corner at `(x, y)`
/// would stand in the wall or in a filled cell.
pub open spec fn hits(cells: Seq<bool>, shape: Shape, x: int, y: int) -> bool {
    x + shape.width > 7 || exists|xi: int, yi: int|
        shape.inside(xi, yi) && #[trigger] shape.cell(xi, yi) && is_filled(cells, x + xi, y + yi)
}

/// The cells of the shaft with a rock of shape `shape` added at `(x, y)`.
pub open spec fn with_rock(cells: Seq<bool>, shape: Shape, x: int, y: int) -> Seq<bool> {
    Seq::new(
        cells.len(),
        |i: int| cells[i] || (shape.inside(i % 7 - x, i / 7 - y) && shape.cell(i % 7 - x, i / 7 - y)),
    )
}

/// Where the wind `w` would push a rock at column `x`.
pub open spec fn pushed(w: Wind, x: int) -> int {
    match w {
        Wind::Left => if x > 0 {
            x - 1
        } else {
            0
        },
        Wind::Right => x + 1,
    }
}

/// Where a rock at `(x, y)` comes to rest, and the index of the wind that
/// blows next: in turn the wind pushes the rock, if nothing is in the way,
/// and the rock falls one row, until something is in the way of that.
pub open spec fn rest(
    cells: Seq<bool>,
    shape: Shape,
    winds: Seq<Wind>,
    wi: int,
    x: int,
    y: int,
) -> (int, int, int)
    decreases y,
{
    let nx = pushed(winds[wi], x);
    let x2 = if hits(cells, shape, nx, y) {
        x
    } else {
        nx
    };
    let wi2 = (wi + 1) % (winds.len() as int);
    if y <= 0 || hits(cells, shape, x2, y - 1) {
        (x2, y, wi2)
    } else {
        rest(cells, shape, winds, wi2, x2, y - 1)
    }
}

/// The state of the shaft: its cells, the row at which the last rock came
/// to rest, and the indices of the next rock and the next wind.
pub struct Tower {
    pub cells: Seq<bool>,
    pub rows: int,
    pub aprox: int,
    pub rock: int,
    pub wind: int,
}

impl Tower {
    /// The height of the tower: the first empty row at or above the last
    /// rock.
    pub open spec fn top(self) -> int {
        top_from(self.cells, self.rows, self.aprox)
    }

    /// Whether the next rock has room to appear, three rows above the
    /// tower.
    pub open spec fn can_drop(self, shapes: Seq<Shape>) -> bool {
        self.top() + 3 + shapes[self.rock].height <= self.rows
    }

    /// The state after the next rock has fallen.
    pub open spec fn drop(self, shapes: Seq<Shape>, winds: Seq<Wind>) -> Tower {
        let shape = shapes[self.rock];
        let r = rest(self.cells, shape, winds, self.wind, 2, self.top() + 3);
        Tower {
            cells: with_rock(self.cells, shape, r.0, r.1),
            rows: self.rows,
            aprox: r.1,
            rock: (self.rock + 1) % (shapes.len() as int),
            wind: r.2,
        }
    }

    /// The state after `n` more rocks have fallen.
    pub open spec fn after(self, shapes: Seq<Shape>, winds: Seq<Wind>, n: nat) -> Tower
        decreases n,
    {
        if n == 0 {
            self
        } else {
            self.after(shapes, winds, (n - 1) as nat).drop(shapes, winds)
        }
    }
}

/// The empty shaft of `rows` rows.
pub open spec fn empty_tower(rows: int) -> Tower {
    Tower { cells: Seq::new((7 * rows) as nat, |i: int| false), rows, aprox: 0, rock: 0, wind: 0 }
}

/// The shaft with its rocks and winds.
pub struct Field<'a> {
    pub rock_cycle: Cycler<'a, Rock>,
    pub wind_cycle: Cycler<'a, Wind>,
    pub field: Grid<bool>,
    pub aprox_height: usize,
}

impl<'a> Field<'a> {
    /// The shaft is seven cells wide, and there are rocks that fit it and
    /// winds.
    pub open spec fn wf(&self) -> bool {
        &&& self.field.wf()
        &&& self.field.width == 7
        &&& self.rock_cycle.wf()
        &&& self.wind_cycle.wf()
        &&& self.aprox_height <= self.field.height
        &&& forall|i: int|
            0 <= i < self.rock_cycle.content@.len() ==> (#[trigger] self.rock_cycle.content@[i]).fits()
    }

    /// The state of the shaft.
    pub open spec fn tower(&self) -> Tower {
        Tower {
            cells: self.field.grid_raw@,
            rows: self.field.height as int,
            aprox: self.aprox_height as int,
            rock: self.rock_cycle.index as int,
            wind: self.wind_cycle.index as int,
        }
    }

    /// The shapes of the rocks that fall, in their order.
    pub open spec fn shapes(&self) -> Seq<Shape> {
        shapes_of(self.rock_cycle.content@)
    }

    /// The winds that blow, in their order.
    pub open spec fn winds(&self) -> Seq<Wind> {
        self.wind_cycle.content@
    }

    /// The empty shaft of 10000 rows.
    pub fn new(rocks: &'a [Rock], wind: &'a [Wind]) -> (r: Self)
        requires
            rocks@.len() > 0,
            wind@.len() > 0,
            forall|i: int| 0 <= i < rocks@.len() ==> (#[trigger] rocks@[i]).fits(),
        ensures
            r.wf(),
            r.tower() == empty_tower(10000),
            r.shapes() == shapes_of(rocks@),
            r.winds() == wind@,
    {
        let field = Grid::from_vec(7, 10000, filled(70000, false));
        let r = Self {
            rock_cycle: Cycler::new(rocks),
            wind_cycle: Cycler::new(wind),
            field,
            aprox_height: 0,
        };
        proof {
            assert(r.tower().cells =~= empty_tower(10000).cells);
        }
        r
    }

    /// The height of the tower.
    pub fn height(&self) -> (r: usize)
        requires
            self.wf(),
            self.tower().top() < self.field.height,
        ensures
            r == self.tower().top(),
    {
        let mut y: usize = self.aprox_height;
        loop
            invariant
                self.wf(),
                self.aprox_height <= y < self.field.height,
                self.tower().top() == top_from(
                    self.field.grid_raw@,
                    self.field.height as int,
                    y as int,
                ),
                self.tower().top() < self.field.height,
            decreases self.field.height - y,
        {
            let line = self.field.get_line(y);
            let mut empty = true;
            let mut x: usize = 0;
            proof {
                crate::y2022::grid::lemma_row_in_bounds(y as int, 7, self.field.height as int);
            }
            while x < 7
                invariant
                    x <= 7,
                    line@.len() == 7,
                    empty == forall|k: int| 0 <= k < x ==> !#[trigger] line@[k],
                decreases 7 - x,
            {
                if line[x] {
                    empty = false;
                }
                x += 1;
            }
            proof {
                assert forall|k: int| 0 <= k < 7 implies line@[k] == #[trigger] is_filled(
                    self.field.grid_raw@,
                    k,
                    y as int,
                ) by {}
                if empty {
                    assert(row_empty(self.field.grid_raw@, y as int));
                } else {
                    let k = choose|k: int| 0 <= k < 7 && #[trigger] line@[k];
                    assert(is_filled(self.field.grid_raw@, k, y as int));
                }
            }
            if empty {
                return y;
            }
            proof {
                lemma_top_bounds(self.field.grid_raw@, self.field.height as int, y + 1);
            }
            y += 1;
        }
    }

    /// Whether a rock of shape `shape` at `(x, y)` would stand in the wall
    /// or in a filled cell.
    pub fn overlaps(&self, shape: &Grid<bool>, x: usize, y: usize) -> (r: bool)
        requires
            self.wf(),
            shape.wf(),
            x <= 7,
            shape.width <= 7,
            y + shape.height <= self.field.height,
        ensures
            r == hits(self.field.grid_raw@, shape_of(shape), x as int, y as int),
    {
        if x + shape.width > 7 {
            return true;
        }
        let mut xi: usize = 0;
        while xi < shape.width
            invariant
                self.wf(),
                shape.wf(),
                xi <= shape.width,
                x + shape.width <= 7,
                y + shape.height <= self.field.height,
                forall|a: int, b: int|
                    0 <= a < xi && 0 <= b < shape.height && #[trigger] shape_of(shape).cell(a, b)
                        ==> !is_filled(self.field.grid_raw@, x + a, y + b),
            decreases shape.width - xi,
        {
            let mut yi: usize = 0;
            while yi < shape.height
                invariant
                    self.wf(),
                    shape.wf(),
                    xi < shape.width,
                    yi <= shape.height,
                    x + shape.width <= 7,
                    y + shape.height <= self.field.height,
                    forall|a: int, b: int|
                        0 <= a < shape.width && 0 <= b < shape.height && (a < xi || (a == xi && b
                            < yi)) && #[trigger] shape_of(shape).cell(a, b) ==> !is_filled(
                            self.field.grid_raw@,
                            x + a,
                            y + b,
                        ),
                decreases shape.height - yi,
            {
                if *shape.get_unchecked(xi, yi) && *self.field.get_unchecked(x + xi, y + yi) {
                    proof {
                        assert(shape_of(shape).inside(xi as int, yi as int) && shape_of(shape).cell(
                            xi as int,
                            yi as int,
                        ) && is_filled(self.field.grid_raw@, x + xi, y + yi));
                    }
                    return true;
                }
                yi += 1;
            }
            xi += 1;
        }
        false
    }

    /// Fills the cells of a rock of shape `shape` at `(x, y)`.
    pub fn record(&mut self, shape: &Grid<bool>, x: usize, y: usize)
        requires
            old(self).wf(),
            shape.wf(),
            x + shape.width <= 7,
            y + shape.height <= old(self).field.height,
        ensures
            final(self).wf(),
            final(self).field.height == old(self).field.height,
            final(self).field.grid_raw@ == with_rock(
                old(self).field.grid_raw@,
                shape_of(shape),
                x as int,
                y as int,
            ),
            final(self).rock_cycle == old(self).rock_cycle,
            final(self).wind_cycle == old(self).wind_cycle,
            final(self).aprox_height == old(self).aprox_height,
    {
        let mut xi: usize = 0;
        while xi < shape.width
            invariant
                self.wf(),
                shape.wf(),
                xi <= shape.width,
                x + shape.width <= 7,
                y + shape.height <= self.field.height,
                self.field.height == old(self).field.height,
                self.rock_cycle == old(self).rock_cycle,
                self.wind_cycle == old(self).wind_cycle,
                self.aprox_height == old(self).aprox_height,
                forall|a: int, b: int|
                    self.field.inside(a, b) ==> #[trigger] self.field.cell(a, b) == (old(
                        self,
                    ).field.cell(a, b) || (shape.inside(a - x, b - y) && a - x < xi && shape.cell(
                        a - x,
                        b - y,
                    ))),
            decreases shape.width - xi,
        {
            let mut yi: usize = 0;
            while yi < shape.height
                invariant
                    self.wf(),
                    shape.wf(),
                    xi < shape.width,
                    yi <= shape.height,
                    x + shape.width <= 7,
                    y + shape.height <= self.field.height,
                    self.field.height == old(self).field.height,
                    self.rock_cycle == old(self).rock_cycle,
                    self.wind_cycle == old(self).wind_cycle,
                    self.aprox_height == old(self).aprox_height,
                    forall|a: int, b: int|
                        self.field.inside(a, b) ==> #[trigger] self.field.cell(a, b) == (old(
                            self,
                        ).field.cell(a, b) || (shape.inside(a - x, b - y) && (a - x < xi || (a - x
                            == xi && b - y < yi)) && shape.cell(a - x, b - y))),
                decreases shape.height - yi,
            {
                if *shape.get_unchecked(xi, yi) {
                    self.field.set(x + xi, y + yi, true);
                }
                yi += 1;
            }
            xi += 1;
        }
        proof {
            let before = old(self).field.grid_raw@;
            let now = self.field.grid_raw@;
            assert forall|i: int| 0 <= i < now.len() implies now[i] == with_rock(
                before,
                shape_of(shape),
                x as int,
                y as int,
            )[i] by {
                lemma_cell_of_index(&self.field, i);
                lemma_cell_of_index(&old(self).field, i);
            }
            assert(now =~= with_rock(before, shape_of(shape), x as int, y as int));
        }
    }
}


/// How far below the top row `top - 1` the first filled cell of column `x`
/// lies, searching from depth `d` on; `top` when the column is empty.
pub open spec fn depth_from(cells: Seq<bool>, x: int, top: int, d: int) -> int
    decreases top - d,
{
    if d >= top {
        top
    } else if is_filled(cells, x, top - 1 - d) {
        d
    } else {
        depth_from(cells, x, top, d + 1)
    }
}

/// The skyline of the tower: for each column the depth of its first filled
/// cell below the top row, cut to eight bits.
pub open spec fn skyline(cells: Seq<bool>, top: int) -> Seq<u8> {
    Seq::new(7, |x: int| (depth_from(cells, x, top, 0) % 256) as u8)
}

/// What of the state decides how the tower grows on, as far as the skyline
/// tells: the next rock, the next wind, and the skyline.
#[derive(Debug, PartialEq, Eq, Hash)]
pub struct FieldState {
    pub rock_index: usize,
    pub wind_index: usize,
    pub height_line: [u8; 7],
}

/// The fingerprint of the state `t`.
pub open spec fn fingerprint(t: Tower) -> (int, int, Seq<u8>) {
    (t.rock, t.wind, skyline(t.cells, t.top()))
}

impl FieldState {
    /// The fingerprint that the state holds.
    pub open spec fn view(&self) -> (int, int, Seq<u8>) {
        (self.rock_index as int, self.wind_index as int, self.height_line@)
    }

    pub fn new(field: &Field) -> (r: Self)
        requires
            field.wf(),
            0 < field.tower().top() < field.field.height,
        ensures
            r@ == fingerprint(field.tower()),
    {
        Self {
            rock_index: field.rock_cycle.index,
            wind_index: field.wind_cycle.index,
            height_line: field.height_line(),
        }
    }

    /// Whether two states hold the same fingerprint.
    pub fn same(&self, other: &FieldState) -> (r: bool)
        ensures
            r == (self@ == other@),
    {
        if self.rock_index != other.rock_index || self.wind_index != other.wind_index {
            return false;
        }
        let mut i: usize = 0;
        while i < 7
            invariant
                i <= 7,
                forall|k: int| 0 <= k < i ==> self.height_line@[k] == other.height_line@[k],
            decreases 7 - i,
        {
            if self.height_line[i] != other.height_line[i] {
                return false;
            }
            i += 1;
        }
        proof {
            assert(self.height_line@ =~= other.height_line@);
        }
        true
    }
}

impl<'a> Field<'a> {
    /// Lets the next rock fall: it appears two cells from the left wall and
    /// three rows above the tower, and comes to rest as `rest` says.
    pub fn drop_rock(&mut self)
        requires
            old(self).wf(),
            old(self).tower().can_drop(old(self).shapes()),
        ensures
            final(self).wf(),
            final(self).tower() == old(self).tower().drop(old(self).shapes(), old(self).winds()),
            final(self).shapes() == old(self).shapes(),
            final(self).winds() == old(self).winds(),
            final(self).rock_cycle.content == old(self).rock_cycle.content,
            final(self).wind_cycle.content == old(self).wind_cycle.content,
    {
        let ghost start = self.tower();
        let ghost shapes = self.shapes();
        let ghost winds = self.winds();
        proof {
            lemma_top_bounds(self.field.grid_raw@, self.field.height as int, self.aprox_height as int);
            assert(self.rock_cycle.content@[self.rock_cycle.index as int].fits());
        }
        let mut x: usize = 2;
        let mut y: usize = self.height() + 3;
        let rock = self.rock_cycle.next();
        let ghost shape = shape_of(&rock.shape);
        loop
            invariant_except_break
                self.field == old(self).field,
                rest(start.cells, shape, winds, start.wind, 2, start.top() + 3) == rest(
                    start.cells,
                    shape,
                    winds,
                    self.wind_cycle.index as int,
                    x as int,
                    y as int,
                ),
            invariant
                self.wf(),
                rock.fits(),
                start == old(self).tower(),
                shape == shape_of(&rock.shape),
                shape == shapes[start.rock],
                shapes == shapes_of(self.rock_cycle.content@),
                winds == self.wind_cycle.content@,
                self.rock_cycle.content == old(self).rock_cycle.content,
                self.wind_cycle.content == old(self).wind_cycle.content,
                self.rock_cycle.index == (start.rock + 1) % (shapes.len() as int),
                self.field.height == old(self).field.height,
                x + rock.shape.width <= 7,
                y + rock.shape.height <= self.field.height,
            ensures
                self.wf(),
                self.tower() == start.drop(shapes, winds),
                self.rock_cycle.content == old(self).rock_cycle.content,
                self.wind_cycle.content == old(self).wind_cycle.content,
            decreases y,
        {
            let w = self.wind_cycle.next();
            let nx: usize = match w {
                Wind::Left => if x > 0 {
                    (x - 1) as usize
                } else {
                    0
                },
                Wind::Right => x + 1,
            };
            if !self.overlaps(&rock.shape, nx, y) {
                x = nx;
            }
            if y == 0 || self.overlaps(&rock.shape, x, y - 1) {
                self.aprox_height = y;
                self.record(&rock.shape, x, y);
                break ;
            } else {
                y -= 1;
            }
        }
    }

    /// The skyline of the tower.
    pub fn height_line(&self) -> (r: [u8; 7])
        requires
            self.wf(),
            0 < self.tower().top() < self.field.height,
        ensures
            r@ == skyline(self.tower().cells, self.tower().top()),
    {
        let top = self.height();
        let mut depths: Vec<u8> = Vec::new();
        let mut x: usize = 0;
        while x < 7
            invariant
                self.wf(),
                x <= 7,
                top == self.tower().top(),
                0 < top < self.field.height,
                depths.len() == x,
                forall|k: int|
                    0 <= k < x ==> #[trigger] depths@[k] == (depth_from(
                        self.field.grid_raw@,
                        k,
                        top as int,
                        0,
                    ) % 256) as u8,
            decreases 7 - x,
        {
            let mut d: usize = 0;
            while d < top && !*self.field.get_unchecked(x, top - 1 - d)
                invariant
                    self.wf(),
                    x < 7,
                    d <= top < self.field.height,
                    depth_from(self.field.grid_raw@, x as int, top as int, 0) == depth_from(
                        self.field.grid_raw@,
                        x as int,
                        top as int,
                        d as int,
                    ),
                decreases top - d,
            {
                d += 1;
            }
            depths.push((d % 256) as u8);
            x += 1;
        }
        let r = [depths[0], depths[1], depths[2], depths[3], depths[4], depths[5], depths[6]];
        proof {
            assert(r@ =~= skyline(self.tower().cells, self.tower().top()));
        }
        r
    }

    /// The fingerprint of the state.
    pub fn state(&self) -> (r: FieldState)
        requires
            self.wf(),
            0 < self.tower().top() < self.field.height,
        ensures
            r@ == fingerprint(self.tower()),
    {
        FieldState::new(self)
    }
}

/// The winds that the text spells: `<` to the left, `>` to the right.
pub open spec fn winds_of(s: Seq<u8>) -> Seq<Wind> {
    Seq::new(
        s.len(),
        |i: int|
            if s[i] == 62 {
                Wind::Right
            } else {
                Wind::Left
            },
    )
}

/// Whether the text, white space at its ends apart, is a list of winds
/// that is not empty.
pub open spec fn is_wind_list(s: Seq<u8>) -> bool {
    let t = trimmed(s);
    &&& t.len() > 0
    &&& forall|i: int| 0 <= i < t.len() ==> #[trigger] t[i] == 60 || t[i] == 62
}

/// The winds of the text.
pub fn parse_input(input: &str) -> (r: Vec<Wind>)
    requires
        is_wind_list(input.spec_bytes()),
    ensures
        r@ == winds_of(trimmed(input.spec_bytes())),
{
    let t = crate::text::trim(input.as_bytes());
    let mut out: Vec<Wind> = Vec::new();
    let mut i: usize = 0;
    while i < t.len()
        invariant
            i <= t.len(),
            out@ == winds_of(t@.subrange(0, i as int)),
        decreases t.len() - i,
    {
        let w = if t[i] == 62 {
            Wind::Right
        } else {
            Wind::Left
        };
        out.push(w);
        i += 1;
        proof {
            assert(out@ =~= winds_of(t@.subrange(0, i as int)));
        }
    }
    proof {
        assert(t@.subrange(0, i as int) =~= t@);
    }
    out
}

/// Whether `n` rocks can fall one after another into the empty shaft of
/// 10000 rows, and the height of the tower can be read after each.
pub open spec fn can_run(winds: Seq<Wind>, n: nat) -> bool {
    forall|k: nat|
        k <= n ==> {
            let t = #[trigger] empty_tower(10000).after(standard_shapes(), winds, k);
            t.top() < 10000 && (k < n ==> t.can_drop(standard_shapes()))
        }
}

/// The height of the tower after `count` rocks have fallen, each dropped
/// in turn.
pub fn height_after(input: &str, count: u64) -> (r: usize)
    requires
        is_wind_list(input.spec_bytes()),
        can_run(winds_of(trimmed(input.spec_bytes())), count as nat),
    ensures
        r == empty_tower(10000).after(
            standard_shapes(),
            winds_of(trimmed(input.spec_bytes())),
            count as nat,
        ).top(),
{
    let wind = parse_input(input);
    let rocks = field_rocks();
    let mut field = Field::new(rocks.as_slice(), wind.as_slice());
    let ghost winds = winds_of(trimmed(input.spec_bytes()));
    let mut i: u64 = 0;
    while i < count
        invariant
            i <= count,
            field.wf(),
            field.field.height == 10000,
            field.shapes() == standard_shapes(),
            field.winds() == winds,
            can_run(winds, count as nat),
            field.tower() == empty_tower(10000).after(standard_shapes(), winds, i as nat),
        decreases count - i,
    {
        proof {
            let t = empty_tower(10000).after(standard_shapes(), winds, i as nat);
            assert(t.can_drop(standard_shapes()));
        }
        field.drop_rock();
        i += 1;
    }
    proof {
        let t = empty_tower(10000).after(standard_shapes(), winds, count as nat);
        assert(t.top() < 10000);
    }
    field.height()
}

/// The height of the tower after 2022 rocks.
pub fn day17_1(input: &str) -> (r: usize)
    requires
        is_wind_list(input.spec_bytes()),
        can_run(winds_of(trimmed(input.spec_bytes())), 2022),
    ensures
        r == empty_tower(10000).after(
            standard_shapes(),
            winds_of(trimmed(input.spec_bytes())),
            2022,
        ).top(),
{
    height_after(input, 2022)
}


/// Whether the fingerprint after rock `i2` (the rocks counted from 0) is
/// the one after rock `i1`, and no fingerprint occurred twice before.
pub open spec fn repeats_at(
    t0: Tower,
    shapes: Seq<Shape>,
    winds: Seq<Wind>,
    i1: nat,
    i2: nat,
) -> bool {
    &&& i1 < i2
    &&& fingerprint(t0.after(shapes, winds, i1 + 1)) == fingerprint(
        t0.after(shapes, winds, i2 + 1),
    )
    &&& forall|a: nat, b: nat|
        a < b < i2 ==> fingerprint(#[trigger] t0.after(shapes, winds, a + 1)) != fingerprint(
            #[trigger] t0.after(shapes, winds, b + 1),
        )
}

/// Whether the rocks up to rock `last` can fall, each leaving a tower
/// whose skyline can be read.
pub open spec fn can_watch(t0: Tower, shapes: Seq<Shape>, winds: Seq<Wind>, last: nat) -> bool {
    forall|k: nat|
        k <= last ==> (#[trigger] t0.after(shapes, winds, k)).can_drop(shapes) && 0 < t0.after(
            shapes,
            winds,
            k + 1,
        ).top() < t0.rows
}

/// The height noted for rock `i1` when the repetition is found at rock
/// `i2`: the row where rock `i1` came to rest, raised by as much as the
/// tower stands above the row where rock `i2` came to rest.
pub open spec fn noted_height(
    t0: Tower,
    shapes: Seq<Shape>,
    winds: Seq<Wind>,
    i1: nat,
    i2: nat,
) -> int {
    let t2 = t0.after(shapes, winds, i2 + 1);
    t0.after(shapes, winds, i1 + 1).aprox + (t2.top() - t2.aprox)
}

/// The number of rows of a state does not change.
pub proof fn lemma_rows(t0: Tower, shapes: Seq<Shape>, winds: Seq<Wind>, n: nat)
    ensures
        t0.after(shapes, winds, n).rows == t0.rows,
    decreases n,
{
    if n > 0 {
        lemma_rows(t0, shapes, winds, (n - 1) as nat);
    }
}

/// Rocks falling one after another: `m` more after `n`.
pub proof fn lemma_after_add(t0: Tower, shapes: Seq<Shape>, winds: Seq<Wind>, n: nat, m: nat)
    ensures
        t0.after(shapes, winds, n).after(shapes, winds, m) == t0.after(shapes, winds, n + m),
    decreases m,
{
    if m > 0 {
        lemma_after_add(t0, shapes, winds, n, (m - 1) as nat);
    }
}

/// Lets rocks fall until a fingerprint occurs for the second time. Gives
/// the numbers of the two rocks after which it occurred, counted from 0,
/// each with a height: for the second the height of the tower, for the
/// first its noted height.
pub fn get_first_repetition(field: &mut Field) -> (r: ((usize, usize), (usize, usize)))
    requires
        old(field).wf(),
        exists|i1: nat, i2: nat|
            i2 < usize::MAX && #[trigger] repeats_at(
                old(field).tower(),
                old(field).shapes(),
                old(field).winds(),
                i1,
                i2,
            ) && can_watch(old(field).tower(), old(field).shapes(), old(field).winds(), i2),
    ensures
        final(field).wf(),
        final(field).shapes() == old(field).shapes(),
        final(field).winds() == old(field).winds(),
        final(field).field.height == old(field).field.height,
        repeats_at(
            old(field).tower(),
            old(field).shapes(),
            old(field).winds(),
            r.0.0 as nat,
            r.1.0 as nat,
        ),
        final(field).tower() == old(field).tower().after(
            old(field).shapes(),
            old(field).winds(),
            (r.1.0 + 1) as nat,
        ),
        r.1.1 == final(field).tower().top(),
        r.0.1 == noted_height(
            old(field).tower(),
            old(field).shapes(),
            old(field).winds(),
            r.0.0 as nat,
            r.1.0 as nat,
        ),
{
    let ghost t0 = field.tower();
    let ghost shapes = field.shapes();
    let ghost winds = field.winds();
    let ghost (w1, w2) = choose|i1: nat, i2: nat|
        i2 < usize::MAX && #[trigger] repeats_at(t0, shapes, winds, i1, i2) && can_watch(
            t0,
            shapes,
            winds,
            i2,
        );
    let mut seen: Vec<(FieldState, usize)> = Vec::new();
    let mut i: usize = 0;
    loop
        invariant
            field.wf(),
            field.shapes() == shapes,
            field.winds() == winds,
            field.field.height == old(field).field.height,
            t0 == old(field).tower(),
            shapes == old(field).shapes(),
            winds == old(field).winds(),
            t0.rows == field.field.height,
            w2 < usize::MAX,
            repeats_at(t0, shapes, winds, w1, w2),
            can_watch(t0, shapes, winds, w2),
            i <= w2,
            seen.len() == i,
            field.tower() == t0.after(shapes, winds, i as nat),
            forall|j: int|
                0 <= j < i ==> (#[trigger] seen@[j]).0@ == fingerprint(
                    t0.after(shapes, winds, (j + 1) as nat),
                ) && seen@[j].1 == t0.after(shapes, winds, (j + 1) as nat).aprox && seen@[j].1
                    <= field.field.height,
            forall|a: nat, b: nat|
                a < b < i ==> fingerprint(#[trigger] t0.after(shapes, winds, a + 1)) != fingerprint(
                    #[trigger] t0.after(shapes, winds, b + 1),
                ),
        decreases w2 - i,
    {
        proof {
            assert(t0.after(shapes, winds, i as nat).can_drop(shapes));
            lemma_rows(t0, shapes, winds, (i + 1) as nat);
        }
        field.drop_rock();
        let st = field.state();
        let ghost here = t0.after(shapes, winds, (i + 1) as nat);
        let mut j: usize = 0;
        while j < i
            invariant
                j <= i,
                seen.len() == i,
                st@ == fingerprint(here),
                forall|k: int|
                    0 <= k < i ==> (#[trigger] seen@[k]).0@ == fingerprint(
                        t0.after(shapes, winds, (k + 1) as nat),
                    ),
                forall|k: nat|
                    k < j ==> fingerprint(#[trigger] t0.after(shapes, winds, k + 1)) != fingerprint(
                        here,
                    ),
            ensures
                j <= i,
                j < i ==> seen@[j as int].0@ == st@,
                forall|k: nat|
                    k < j ==> fingerprint(#[trigger] t0.after(shapes, winds, k + 1)) != fingerprint(
                        here,
                    ),
            decreases i - j,
        {
            if seen[j].0.same(&st) {
                break ;
            }
            proof {
                assert(seen@[j as int].0@ == fingerprint(t0.after(shapes, winds, (j + 1) as nat)));
            }
            j += 1;
        }
        if j < i {
            let h1 = seen[j].1;
            let h2 = field.aprox_height;
            let top = field.height();
            proof {
                lemma_top_bounds(field.field.grid_raw@, field.field.height as int, h2 as int);
                assert(seen@[j as int].0@ == fingerprint(t0.after(shapes, winds, (j + 1) as nat)));
                assert(field.field.height * 7 <= usize::MAX) by (nonlinear_arith)
                    requires
                        field.field.width * field.field.height <= usize::MAX,
                        field.field.width == 7,
                ;
            }
            let adjust = top - h2;
            return ((j, h1 + adjust), (i, h2 + adjust));
        }
        proof {
            if i == w2 {
                assert(fingerprint(t0.after(shapes, winds, w1 + 1)) == fingerprint(here));
                assert(false);
            }
            assert forall|a: nat, b: nat| a < b < i + 1 implies fingerprint(
                #[trigger] t0.after(shapes, winds, a + 1),
            ) != fingerprint(#[trigger] t0.after(shapes, winds, b + 1)) by {}
        }
        seen.push((st, field.aprox_height));
        i += 1;
    }
}

/// The height that skipping whole cycles gives for `target` rocks, when
/// the fingerprint after rock `i2` repeats the one after rock `i1`: of the
/// rocks still to fall, as many cycles of `i2 - i1` rocks as fit are not
/// dropped but counted with the height that one cycle added, and the rocks
/// then still missing are dropped.
pub open spec fn skipped_height(
    t0: Tower,
    shapes: Seq<Shape>,
    winds: Seq<Wind>,
    target: int,
    i1: nat,
    i2: nat,
) -> int {
    let t2 = t0.after(shapes, winds, i2 + 1);
    let gain = t2.top() - noted_height(t0, shapes, winds, i1, i2);
    t2.after(shapes, winds, missing_after(target, i1, i2) as nat).top() + cycles_after(
        target,
        i1,
        i2,
    ) * gain
}

/// Whether the height for `target` rocks can be found by skipping cycles:
/// a fingerprint repeats before `target` rocks have fallen and while there
/// is room in the shaft, the tower has not sunk between the two
/// occurrences, and there is room for the rocks that are dropped after the
/// skip.
pub open spec fn can_skip(winds: Seq<Wind>, target: int, i1: nat, i2: nat) -> bool {
    let t0 = empty_tower(10000);
    let shapes = standard_shapes();
    let t2 = t0.after(shapes, winds, i2 + 1);
    &&& i2 < usize::MAX
    &&& i2 < target
    &&& repeats_at(t0, shapes, winds, i1, i2)
    &&& can_watch(t0, shapes, winds, i2)
    &&& noted_height(t0, shapes, winds, i1, i2) <= t2.top()
    &&& can_go_on(t2, shapes, winds, missing_after(target, i1, i2) as nat)
    &&& skipped_height(t0, shapes, winds, target, i1, i2) <= usize::MAX
}

/// How many whole cycles fit into the rocks that are still to fall after
/// rock `i2`.
pub open spec fn cycles_after(target: int, i1: nat, i2: nat) -> int {
    (target - i2 - 1) / (i2 - i1)
}

/// How many rocks are still to be dropped after the skip.
pub open spec fn missing_after(target: int, i1: nat, i2: nat) -> int {
    (target - i2 - 1) % (i2 - i1)
}

/// Whether `count` more rocks can fall into the shaft of 10000 rows, and
/// the height of the tower can be read after each.
pub open spec fn can_go_on(t: Tower, shapes: Seq<Shape>, winds: Seq<Wind>, count: nat) -> bool {
    forall|k: nat|
        k <= count ==> {
            let u = #[trigger] t.after(shapes, winds, k);
            u.top() < 10000 && (k < count ==> u.can_drop(shapes))
        }
}

/// Lets `count` more rocks fall.
pub fn drop_more(field: &mut Field, count: u64)
    requires
        old(field).wf(),
        old(field).field.height == 10000,
        can_go_on(old(field).tower(), old(field).shapes(), old(field).winds(), count as nat),
    ensures
        final(field).wf(),
        final(field).field.height == 10000,
        final(field).shapes() == old(field).shapes(),
        final(field).winds() == old(field).winds(),
        final(field).tower() == old(field).tower().after(
            old(field).shapes(),
            old(field).winds(),
            count as nat,
        ),
        final(field).tower().top() < 10000,
{
    let ghost t = field.tower();
    let ghost shapes = field.shapes();
    let ghost winds = field.winds();
    let mut n: u64 = 0;
    while n < count
        invariant
            n <= count,
            field.wf(),
            field.field.height == 10000,
            field.shapes() == shapes,
            field.winds() == winds,
            can_go_on(t, shapes, winds, count as nat),
            field.tower() == t.after(shapes, winds, n as nat),
        decreases count - n,
    {
        proof {
            let u = t.after(shapes, winds, n as nat);
            assert(u.can_drop(shapes));
        }
        field.drop_rock();
        n += 1;
    }
    proof {
        let u = t.after(shapes, winds, count as nat);
        assert(u.top() < 10000);
    }
}

/// The height of the tower after `target` rocks, found by skipping the
/// cycles between two occurrences of one fingerprint.
pub fn height_after_skipping(input: &str, target: u64) -> (r: usize)
    requires
        is_wind_list(input.spec_bytes()),
        exists|i1: nat, i2: nat| #[trigger]
            can_skip(winds_of(trimmed(input.spec_bytes())), target as int, i1, i2),
    ensures
        exists|i1: nat, i2: nat|
            #[trigger] can_skip(winds_of(trimmed(input.spec_bytes())), target as int, i1, i2) && r
                == skipped_height(
                empty_tower(10000),
                standard_shapes(),
                winds_of(trimmed(input.spec_bytes())),
                target as int,
                i1,
                i2,
            ),
{
    let wind = parse_input(input);
    let rocks = field_rocks();
    let mut field = Field::new(rocks.as_slice(), wind.as_slice());
    let ghost winds = winds_of(trimmed(input.spec_bytes()));
    let ghost (w1, w2) = choose|i1: nat, i2: nat| #[trigger]
        can_skip(winds, target as int, i1, i2);
    skip_run(&mut field, target, Ghost(w1), Ghost(w2))
}

/// From the empty shaft: finds the first repetition and skips from it.
fn skip_run(field: &mut Field, target: u64, Ghost(w1): Ghost<nat>, Ghost(w2): Ghost<nat>) -> (r:
    usize)
    requires
        old(field).wf(),
        old(field).tower() == empty_tower(10000),
        old(field).shapes() == standard_shapes(),
        can_skip(old(field).winds(), target as int, w1, w2),
    ensures
        r == skipped_height(
            empty_tower(10000),
            standard_shapes(),
            old(field).winds(),
            target as int,
            w1,
            w2,
        ),
{
    let ghost winds = field.winds();
    let ghost t0 = empty_tower(10000);
    let ghost shapes = standard_shapes();
    proof {
        assert(repeats_at(t0, shapes, winds, w1, w2) && can_watch(t0, shapes, winds, w2));
    }
    let ((i1, h1), (i2, h2)) = get_first_repetition(field);
    proof {
        lemma_same_repeat(t0, shapes, winds, w1, w2, i1 as nat, i2 as nat);
    }
    finish_skip(field, i1, h1, i2, h2, target, Ghost(t0))
}

/// After the repetition is found: skips the cycles that fit, drops the
/// rocks still missing, and gives the height with what the skipped cycles
/// add.
fn finish_skip(
    field: &mut Field,
    i1: usize,
    h1: usize,
    i2: usize,
    h2: usize,
    target: u64,
    Ghost(t0): Ghost<Tower>,
) -> (r: usize)
    requires
        old(field).wf(),
        old(field).field.height == 10000,
        i1 < i2 < target,
        i2 < usize::MAX,
        h1 <= h2,
        old(field).tower() == t0.after(old(field).shapes(), old(field).winds(), (i2 + 1) as nat),
        h2 == old(field).tower().top(),
        h1 == noted_height(t0, old(field).shapes(), old(field).winds(), i1 as nat, i2 as nat),
        can_go_on(
            old(field).tower(),
            old(field).shapes(),
            old(field).winds(),
            missing_after(target as int, i1 as nat, i2 as nat) as nat,
        ),
        skipped_height(
            t0,
            old(field).shapes(),
            old(field).winds(),
            target as int,
            i1 as nat,
            i2 as nat,
        ) <= usize::MAX,
    ensures
        r == skipped_height(
            t0,
            old(field).shapes(),
            old(field).winds(),
            target as int,
            i1 as nat,
            i2 as nat,
        ),
{
    let span: u64 = (i2 - i1) as u64;
    let remaining: u64 = target - (i2 as u64 + 1);
    let cycles_remaining: u64 = remaining / span;
    let gain: u64 = (h2 - h1) as u64;
    proof {
        assert(cycles_remaining * gain >= 0) by (nonlinear_arith)
            requires
                cycles_remaining >= 0,
                gain >= 0,
        ;
    }
    let missing: u64 = remaining % span;
    drop_more(field, missing);
    let top = field.height();
    proof {
        lemma_top_bounds(field.field.grid_raw@, 10000, field.aprox_height as int);
    }
    let height_skip: u64 = cycles_remaining * gain;
    top + height_skip as usize
}

/// Two first repetitions of one run are the same.
pub proof fn lemma_same_repeat(
    t0: Tower,
    shapes: Seq<Shape>,
    winds: Seq<Wind>,
    a1: nat,
    a2: nat,
    b1: nat,
    b2: nat,
)
    requires
        repeats_at(t0, shapes, winds, a1, a2),
        repeats_at(t0, shapes, winds, b1, b2),
    ensures
        a1 == b1,
        a2 == b2,
{
    if a2 < b2 {
        assert(fingerprint(t0.after(shapes, winds, a1 + 1)) != fingerprint(
            t0.after(shapes, winds, a2 + 1),
        ));
    }
    if b2 < a2 {
        assert(fingerprint(t0.after(shapes, winds, b1 + 1)) != fingerprint(
            t0.after(shapes, winds, b2 + 1),
        ));
    }
    if a1 < b1 {
        assert(fingerprint(t0.after(shapes, winds, a1 + 1)) != fingerprint(
            t0.after(shapes, winds, b1 + 1),
        ));
    }
    if b1 < a1 {
        assert(fingerprint(t0.after(shapes, winds, b1 + 1)) != fingerprint(
            t0.after(shapes, winds, a1 + 1),
        ));
    }
}

/// Whether the tower is `gain` rows higher after `n + period` rocks than
/// after `n`.
pub open spec fn grows_by(
    t0: Tower,
    shapes: Seq<Shape>,
    winds: Seq<Wind>,
    n: nat,
    period: nat,
    gain: int,
) -> bool {
    t0.after(shapes, winds, n + period).top() == t0.after(shapes, winds, n).top() + gain
}

/// A tower that gains the same rows with every `period` rocks from rock
/// `from` on has gained them `cycles` times after `cycles` periods.
pub proof fn lemma_grows_on(
    t0: Tower,
    shapes: Seq<Shape>,
    winds: Seq<Wind>,
    from: nat,
    period: nat,
    gain: int,
    n: nat,
    cycles: nat,
)
    requires
        n >= from,
        forall|k: nat| k >= from ==> #[trigger] grows_by(t0, shapes, winds, k, period, gain),
    ensures
        t0.after(shapes, winds, n + cycles * period).top() == t0.after(shapes, winds, n).top()
            + cycles * gain,
    decreases cycles,
{
    if cycles > 0 {
        let before = (cycles - 1) as nat;
        lemma_grows_on(t0, shapes, winds, from, period, gain, n, before);
        assert(cycles * period == before * period + period) by (nonlinear_arith)
            requires
                before == cycles - 1,
        ;
        assert(cycles * gain == before * gain + gain) by (nonlinear_arith)
            requires
                before == cycles - 1,
        ;
        let m = n + before * period;
        assert(grows_by(t0, shapes, winds, m, period, gain));
        assert(m + period == n + cycles * period);
    } else {
        assert(cycles * period == 0) by (nonlinear_arith)
            requires
                cycles == 0,
        ;
        assert(cycles * gain == 0) by (nonlinear_arith)
            requires
                cycles == 0,
        ;
    }
}

/// Skipping cycles changes nothing where the tower truly repeats itself:
/// if from the rock after rock `i1` on the tower gains with every
/// `i2 - i1` rocks the rows that one cycle is counted with, the height
/// found by skipping is the height after `target` rocks have fallen one
/// by one.
pub proof fn lemma_skip_exact(
    t0: Tower,
    shapes: Seq<Shape>,
    winds: Seq<Wind>,
    target: int,
    i1: nat,
    i2: nat,
)
    requires
        i1 < i2 < target,
        forall|k: nat|
            k >= i1 + 1 ==> #[trigger] grows_by(
                t0,
                shapes,
                winds,
                k,
                (i2 - i1) as nat,
                t0.after(shapes, winds, i2 + 1).top() - noted_height(t0, shapes, winds, i1, i2),
            ),
    ensures
        skipped_height(t0, shapes, winds, target, i1, i2) == t0.after(
            shapes,
            winds,
            target as nat,
        ).top(),
{
    let period = (i2 - i1) as nat;
    let left = target - i2 - 1;
    let cycles = left / (period as int);
    let missing = left % (period as int);
    let gain = t0.after(shapes, winds, i2 + 1).top() - noted_height(t0, shapes, winds, i1, i2);
    vstd::arithmetic::div_mod::lemma_fundamental_div_mod(left, period as int);
    vstd::arithmetic::div_mod::lemma_mod_bound(left, period as int);
    vstd::arithmetic::div_mod::lemma_div_pos_is_pos(left, period as int);
    assert(period * cycles == cycles * period) by (nonlinear_arith);
    lemma_after_add(t0, shapes, winds, i2 + 1, missing as nat);
    lemma_grows_on(
        t0,
        shapes,
        winds,
        i1 + 1,
        period,
        gain,
        (i2 + 1 + missing) as nat,
        cycles as nat,
    );
    assert(target as nat == (i2 + 1 + missing) as nat + (cycles as nat) * period);
}

/// The height of the tower after a million million rocks.
pub fn day17_2(input: &str) -> (r: usize)
    requires
        is_wind_list(input.spec_bytes()),
        exists|i1: nat, i2: nat| #[trigger]
            can_skip(winds_of(trimmed(input.spec_bytes())), 1_000_000_000_000, i1, i2),
    ensures
        exists|i1: nat, i2: nat|
            #[trigger] can_skip(winds_of(trimmed(input.spec_bytes())), 1_000_000_000_000, i1, i2)
                && r == skipped_height(
                empty_tower(10000),
                standard_shapes(),
                winds_of(trimmed(input.spec_bytes())),
                1_000_000_000_000,
                i1,
                i2,
            ),
{
    height_after_skipping(input, 1_000_000_000_000)
}

} // verus!
