//! Elves that spread out over a field.

use crate::text::{is_rect, lines, lines_of, views};
use crate::y2022::grid::{filled, lemma_cell_of_index, lemma_index_in_bounds, Grid};
use vstd::prelude::*;
use vstd::string::*;

verus! {

pub type Coord = (usize, usize);

/// A direction on the field; north is towards row 0.
#[derive(Debug, PartialEq, Eq, Clone, Copy, Hash, Structural)]
pub enum Dir {
    North,
    South,
    West,
    East,
}

/// Whether all eight cells round `c` can be named.
pub open spec fn has_room(c: Coord) -> bool {
    0 < c.0 < usize::MAX && 0 < c.1 < usize::MAX
}

impl Dir {
    /// The cell one step from `c`.
    pub open spec fn spec_move_coord(self, c: Coord) -> Coord {
        match self {
            Dir::North => (c.0, (c.1 - 1) as usize),
            Dir::South => (c.0, (c.1 + 1) as usize),
            Dir::West => ((c.0 - 1) as usize, c.1),
            Dir::East => ((c.0 + 1) as usize, c.1),
        }
    }

    /// The three cells on the side of `c` that faces the direction.
    pub open spec fn spec_possible_coords(self, c: Coord) -> Seq<Coord> {
        let x = c.0;
        let y = c.1;
        match self {
            Dir::North => seq![
                ((x - 1) as usize, (y - 1) as usize),
                (x, (y - 1) as usize),
                ((x + 1) as usize, (y - 1) as usize),
            ],
            Dir::South => seq![
                ((x - 1) as usize, (y + 1) as usize),
                (x, (y + 1) as usize),
                ((x + 1) as usize, (y + 1) as usize),
            ],
            Dir::West => seq![
                ((x - 1) as usize, (y - 1) as usize),
                ((x - 1) as usize, y),
                ((x - 1) as usize, (y + 1) as usize),
            ],
            Dir::East => seq![
                ((x + 1) as usize, (y - 1) as usize),
                ((x + 1) as usize, y),
                ((x + 1) as usize, (y + 1) as usize),
            ],
        }
    }

    pub fn possible_coords(&self, c: Coord) -> (r: [Coord; 3])
        requires
            has_room(c),
        ensures
            r@ == self.spec_possible_coords(c),
    {
        let (x, y) = c;
        let r = match self {
            Dir::North => [(x - 1, y - 1), (x, y - 1), (x + 1, y - 1)],
            Dir::South => [(x - 1, y + 1), (x, y + 1), (x + 1, y + 1)],
            Dir::West => [(x - 1, y - 1), (x - 1, y), (x - 1, y + 1)],
            Dir::East => [(x + 1, y - 1), (x + 1, y), (x + 1, y + 1)],
        };
        proof {
            assert(r@ =~= self.spec_possible_coords(c));
        }
        r
    }

    pub fn move_coord(&self, c: Coord) -> (r: Coord)
        requires
            has_room(c),
        ensures
            r == self.spec_move_coord(c),
    {
        let (x, y) = c;
        match self {
            Dir::North => (x, y - 1),
            Dir::South => (x, y + 1),
            Dir::West => (x - 1, y),
            Dir::East => (x + 1, y),
        }
    }
}

/// The eight cells round `c`, column by column.
pub open spec fn around(c: Coord) -> Seq<Coord> {
    let x = c.0;
    let y = c.1;
    seq![
        ((x - 1) as usize, (y - 1) as usize),
        ((x - 1) as usize, y),
        ((x - 1) as usize, (y + 1) as usize),
        (x, (y - 1) as usize),
        (x, (y + 1) as usize),
        ((x + 1) as usize, (y - 1) as usize),
        ((x + 1) as usize, y),
        ((x + 1) as usize, (y + 1) as usize),
    ]
}

/// The eight cells round `c`.
pub fn around_coord(c: Coord) -> (r: [Coord; 8])
    requires
        has_room(c),
    ensures
        r@ == around(c),
{
    let (x, y) = c;
    let r = [
        (x - 1, y - 1),
        (x - 1, y),
        (x - 1, y + 1),
        (x, y - 1),
        (x, y + 1),
        (x + 1, y - 1),
        (x + 1, y),
        (x + 1, y + 1),
    ];
    proof {
        assert(r@ =~= around(c));
    }
    r
}

/// Where an elf wants to go, noted at that place: the elf's own place, or
/// that more than one elf wants to go there.
#[derive(Debug, PartialEq, Eq, Clone, Copy, Hash)]
pub enum Proposal {
    Propose(Coord),
    Overlaped,
}

/// A field of elves, as a value of mathematics.
pub struct Field {
    pub width: int,
    pub height: int,
    pub cells: Seq<bool>,
}

/// The field that the grid holds.
pub open spec fn field_of(g: &Grid<bool>) -> Field {
    Field { width: g.width as int, height: g.height as int, cells: g.grid_raw@ }
}

/// The direction with the number `k` among the sources of a place: the
/// direction in which an elf must walk to come to a place from its
/// neighbour number `k`.
pub open spec fn source_dir(k: int) -> Dir {
    if k == 0 {
        Dir::North
    } else if k == 1 {
        Dir::South
    } else if k == 2 {
        Dir::West
    } else {
        Dir::East
    }
}

/// The place from which a step in direction `d` leads to `t`.
pub open spec fn source_of(d: Dir, t: (int, int)) -> (int, int) {
    match d {
        Dir::North => (t.0, t.1 + 1),
        Dir::South => (t.0, t.1 - 1),
        Dir::West => (t.0 + 1, t.1),
        Dir::East => (t.0 - 1, t.1),
    }
}

/// The place to which a step in direction `d` leads from `c`.
pub open spec fn target_of(d: Dir, c: (int, int)) -> (int, int) {
    match d {
        Dir::North => (c.0, c.1 - 1),
        Dir::South => (c.0, c.1 + 1),
        Dir::West => (c.0 - 1, c.1),
        Dir::East => (c.0 + 1, c.1),
    }
}

impl Field {
    /// Whether `(x, y)` lies on the field.
    pub open spec fn inside(self, x: int, y: int) -> bool {
        0 <= x < self.width && 0 <= y < self.height
    }

    /// Whether an elf stands at `(x, y)`.
    pub open spec fn elf(self, x: int, y: int) -> bool {
        self.inside(x, y) && self.cells[y * self.width + x]
    }

    /// Whether an elf stands on one of the eight places round `(x, y)`.
    pub open spec fn crowded(self, x: int, y: int) -> bool {
        self.elf(x - 1, y - 1) || self.elf(x - 1, y) || self.elf(x - 1, y + 1) || self.elf(
            x,
            y - 1,
        ) || self.elf(x, y + 1) || self.elf(x + 1, y - 1) || self.elf(x + 1, y) || self.elf(
            x + 1,
            y + 1,
        )
    }

    /// Whether no elf stands on the three places on the side of `(x, y)`
    /// that faces `d`.
    pub open spec fn side_free(self, d: Dir, x: int, y: int) -> bool {
        match d {
            Dir::North => !self.elf(x - 1, y - 1) && !self.elf(x, y - 1) && !self.elf(x + 1, y - 1),
            Dir::South => !self.elf(x - 1, y + 1) && !self.elf(x, y + 1) && !self.elf(x + 1, y + 1),
            Dir::West => !self.elf(x - 1, y - 1) && !self.elf(x - 1, y) && !self.elf(x - 1, y + 1),
            Dir::East => !self.elf(x + 1, y - 1) && !self.elf(x + 1, y) && !self.elf(x + 1, y + 1),
        }
    }

    /// The first of the directions from number `k` on whose side of
    /// `(x, y)` is free.
    pub open spec fn first_free(self, dirs: Seq<Dir>, x: int, y: int, k: int) -> Option<Dir>
        decreases 4 - k,
    {
        if k < 0 || k >= 4 {
            None
        } else if self.side_free(dirs[k], x, y) {
            Some(dirs[k])
        } else {
            self.first_free(dirs, x, y, k + 1)
        }
    }

    /// Where the elf at `(x, y)` wants to go: nowhere if no elf stands
    /// round it, else one step in the first direction whose side is free.
    pub open spec fn wish(self, dirs: Seq<Dir>, x: int, y: int) -> Option<(int, int)> {
        if self.elf(x, y) && self.crowded(x, y) {
            match self.first_free(dirs, x, y, 0) {
                Some(d) => Some(target_of(d, (x, y))),
                None => None,
            }
        } else {
            None
        }
    }

    /// Whether the elf beside `t` from which direction `d` leads to `t`
    /// wants to go there.
    pub open spec fn claims(self, dirs: Seq<Dir>, t: (int, int), d: Dir) -> bool {
        let s = source_of(d, t);
        self.wish(dirs, s.0, s.1) == Some(t)
    }

    /// How many elves want to go to `t`.
    pub open spec fn claim_count(self, dirs: Seq<Dir>, t: (int, int)) -> int {
        (if self.claims(dirs, t, Dir::North) {
            1int
        } else {
            0int
        }) + (if self.claims(dirs, t, Dir::South) {
            1int
        } else {
            0int
        }) + (if self.claims(dirs, t, Dir::West) {
            1int
        } else {
            0int
        }) + (if self.claims(dirs, t, Dir::East) {
            1int
        } else {
            0int
        })
    }

    /// Whether an elf stands at `(x, y)` after a round: the elves that
    /// alone want to go to a place go there, the others stay.
    pub open spec fn elf_after(self, dirs: Seq<Dir>, x: int, y: int) -> bool {
        if self.elf(x, y) {
            match self.wish(dirs, x, y) {
                Some(t) => self.claim_count(dirs, t) != 1,
                None => true,
            }
        } else {
            self.inside(x, y) && self.claim_count(dirs, (x, y)) == 1
        }
    }

    /// The field after a round.
    pub open spec fn round(self, dirs: Seq<Dir>) -> Field {
        Field {
            width: self.width,
            height: self.height,
            cells: Seq::new(
                self.cells.len(),
                |i: int| self.elf_after(dirs, i % self.width, i / self.width),
            ),
        }
    }

    /// Whether an elf moves in a round.
    pub open spec fn any_moves(self, dirs: Seq<Dir>) -> bool {
        exists|x: int, y: int|
            self.inside(x, y) && !self.elf(x, y) && #[trigger] self.claim_count(dirs, (x, y)) == 1
    }

    /// Whether every elf stands on the field with room round it.
    pub open spec fn roomy(self) -> bool {
        &&& self.width >= 0
        &&& self.height >= 0
        &&& self.cells.len() == self.width * self.height
        &&& forall|x: int, y: int| #[trigger]
            self.elf(x, y) ==> 1 <= x < self.width - 1 && 1 <= y < self.height - 1
    }
}

/// The directions in the order of round `k`, counted from 0: north, south,
/// west, east, and with each round the first goes to the end.
pub open spec fn dirs_of_round(k: int) -> Seq<Dir> {
    Seq::new(4, |i: int| source_dir((i + k) % 4))
}

/// The field after `k` rounds.
pub open spec fn after_rounds(f: Field, k: nat) -> Field
    decreases k,
{
    if k == 0 {
        f
    } else {
        after_rounds(f, (k - 1) as nat).round(dirs_of_round(k - 1))
    }
}


impl Field {
    /// Whether the elf from which direction `d` leads to `t` wants to go
    /// there and stands before `(x, y)`, row by row.
    pub open spec fn early_claim(self, dirs: Seq<Dir>, t: (int, int), d: Dir, x: int, y: int) -> bool {
        let s = source_of(d, t);
        self.claims(dirs, t, d) && (s.1 < y || (s.1 == y && s.0 < x))
    }

    /// What is noted at `t` when the elves before `(x, y)` have made their
    /// wishes known.
    pub open spec fn noted(self, dirs: Seq<Dir>, t: (int, int), x: int, y: int) -> Option<Proposal> {
        let n = self.early_claim(dirs, t, Dir::North, x, y);
        let s = self.early_claim(dirs, t, Dir::South, x, y);
        let w = self.early_claim(dirs, t, Dir::West, x, y);
        let e = self.early_claim(dirs, t, Dir::East, x, y);
        let count = (if n {
            1int
        } else {
            0int
        }) + (if s {
            1int
        } else {
            0int
        }) + (if w {
            1int
        } else {
            0int
        }) + (if e {
            1int
        } else {
            0int
        });
        let from = if n {
            source_of(Dir::North, t)
        } else if s {
            source_of(Dir::South, t)
        } else if w {
            source_of(Dir::West, t)
        } else {
            source_of(Dir::East, t)
        };
        if count == 0 {
            None
        } else if count == 1 {
            Some(Proposal::Propose((from.0 as usize, from.1 as usize)))
        } else {
            Some(Proposal::Overlaped)
        }
    }

    /// What is noted at `t` when all elves have made their wishes known.
    pub open spec fn slot(self, dirs: Seq<Dir>, t: (int, int)) -> Option<Proposal> {
        self.noted(dirs, t, 0, self.height)
    }
}

/// Whether the area lies on the field and holds every elf of it.
pub open spec fn covers(f: Field, area: (Coord, Coord)) -> bool {
    &&& hi_x(area) < f.width
    &&& hi_y(area) < f.height
    &&& forall|x: int, y: int| #[trigger]
        f.elf(x, y) ==> lo_x(area) <= x <= hi_x(area) && lo_y(area) <= y <= hi_y(area)
}

/// The first column of the area.
pub open spec fn lo_x(area: (Coord, Coord)) -> int {
    let a = area.0;
    a.0 as int
}

/// The first row of the area.
pub open spec fn lo_y(area: (Coord, Coord)) -> int {
    let a = area.0;
    a.1 as int
}

/// The last column of the area.
pub open spec fn hi_x(area: (Coord, Coord)) -> int {
    let b = area.1;
    b.0 as int
}

/// The last row of the area.
pub open spec fn hi_y(area: (Coord, Coord)) -> int {
    let b = area.1;
    b.1 as int
}

/// Whether an elf stands on one of the eight places round `c`.
fn is_crowded(elves: &Grid<bool>, c: Coord) -> (r: bool)
    requires
        elves.wf(),
        1 <= c.0 < elves.width - 1,
        1 <= c.1 < elves.height - 1,
    ensures
        r == field_of(elves).crowded(c.0 as int, c.1 as int),
{
    let cells = around_coord(c);
    let mut k: usize = 0;
    let ghost f = field_of(elves);
    while k < 8
        invariant
            k <= 8,
            elves.wf(),
            f == field_of(elves),
            1 <= c.0 < elves.width - 1,
            1 <= c.1 < elves.height - 1,
            cells@ == around(c),
            forall|j: int| 0 <= j < k ==> !f.elf((#[trigger] cells@[j]).0 as int, cells@[j].1 as int),
        decreases 8 - k,
    {
        let (dx, dy) = cells[k];
        if *elves.get_unchecked(dx, dy) {
            return true;
        }
        k += 1;
    }
    proof {
        assert(!f.elf(cells@[0].0 as int, cells@[0].1 as int));
        assert(!f.elf(cells@[1].0 as int, cells@[1].1 as int));
        assert(!f.elf(cells@[2].0 as int, cells@[2].1 as int));
        assert(!f.elf(cells@[3].0 as int, cells@[3].1 as int));
        assert(!f.elf(cells@[4].0 as int, cells@[4].1 as int));
        assert(!f.elf(cells@[5].0 as int, cells@[5].1 as int));
        assert(!f.elf(cells@[6].0 as int, cells@[6].1 as int));
        assert(!f.elf(cells@[7].0 as int, cells@[7].1 as int));
    }
    false
}

/// Whether no elf stands on the side of `c` that faces `d`.
fn is_side_free(elves: &Grid<bool>, d: Dir, c: Coord) -> (r: bool)
    requires
        elves.wf(),
        1 <= c.0 < elves.width - 1,
        1 <= c.1 < elves.height - 1,
    ensures
        r == field_of(elves).side_free(d, c.0 as int, c.1 as int),
{
    let cells = d.possible_coords(c);
    let a = cells[0];
    let b = cells[1];
    let e = cells[2];
    proof {
        assert(cells@[0] == d.spec_possible_coords(c)[0]);
        assert(cells@[1] == d.spec_possible_coords(c)[1]);
        assert(cells@[2] == d.spec_possible_coords(c)[2]);
    }
    !*elves.get_unchecked(a.0, a.1) && !*elves.get_unchecked(b.0, b.1) && !*elves.get_unchecked(e.0, e.1)
}

/// Where the elf at `c` wants to go.
fn wish_of(elves: &Grid<bool>, directions: &[Dir; 4], c: Coord) -> (r: Option<Coord>)
    requires
        elves.wf(),
        1 <= c.0 < elves.width - 1,
        1 <= c.1 < elves.height - 1,
        elves.cell(c.0 as int, c.1 as int),
    ensures
        match r {
            Some(t) => field_of(elves).wish(directions@, c.0 as int, c.1 as int) == Some(
                (t.0 as int, t.1 as int),
            ) && t.0 < elves.width && t.1 < elves.height,
            None => field_of(elves).wish(directions@, c.0 as int, c.1 as int) is None,
        },
{
    let ghost f = field_of(elves);
    if !is_crowded(elves, c) {
        return None;
    }
    let mut k: usize = 0;
    while k < 4
        invariant
            k <= 4,
            elves.wf(),
            f == field_of(elves),
            1 <= c.0 < elves.width - 1,
            1 <= c.1 < elves.height - 1,
            f.elf(c.0 as int, c.1 as int),
            f.crowded(c.0 as int, c.1 as int),
            f.first_free(directions@, c.0 as int, c.1 as int, 0) == f.first_free(
                directions@,
                c.0 as int,
                c.1 as int,
                k as int,
            ),
        decreases 4 - k,
    {
        let d = directions[k];
        if is_side_free(elves, d, c) {
            return Some(d.move_coord(c));
        }
        k += 1;
    }
    None
}

/// An elf that does not want to go to `t` has no say in what is noted at
/// `t`.
pub proof fn lemma_noted_same(f: Field, dirs: Seq<Dir>, t: (int, int), x: int, y: int)
    requires
        f.wish(dirs, x, y) != Some(t),
    ensures
        f.noted(dirs, t, x + 1, y) == f.noted(dirs, t, x, y),
{
}

/// When the elf at `(x, y)` wants to go to `t`, its place is noted at `t`,
/// or, if something was noted there already, that more than one elf wants
/// to go there.
pub proof fn lemma_noted_more(f: Field, dirs: Seq<Dir>, t: (int, int), x: int, y: int)
    requires
        f.wish(dirs, x, y) == Some(t),
        0 <= x,
        0 <= y,
    ensures
        f.noted(dirs, t, x + 1, y) == match f.noted(dirs, t, x, y) {
            None => Some(Proposal::Propose((x as usize, y as usize))),
            Some(_) => Some(Proposal::Overlaped),
        },
{
    lemma_wish_is_step(f, dirs, x, y);
}

/// The place where an elf wants to go is one step from it.
pub proof fn lemma_wish_is_step(f: Field, dirs: Seq<Dir>, x: int, y: int)
    requires
        f.wish(dirs, x, y) is Some,
    ensures
        ({
            let t = f.wish(dirs, x, y)->0;
            t == target_of(Dir::North, (x, y)) || t == target_of(Dir::South, (x, y)) || t
                == target_of(Dir::West, (x, y)) || t == target_of(Dir::East, (x, y))
        }),
{
}

/// Only elves have a say in what is noted: places without elf can be left
/// out, whole rows and the ends of rows.
pub proof fn lemma_noted_skip(f: Field, dirs: Seq<Dir>, t: (int, int), x1: int, x2: int, y: int)
    requires
        x1 <= x2,
        forall|a: int| x1 <= a < x2 ==> !#[trigger] f.elf(a, y),
    ensures
        f.noted(dirs, t, x1, y) == f.noted(dirs, t, x2, y),
{
}

/// What is noted before the first place of a row is what is noted behind
/// the last place of the row before.
pub proof fn lemma_noted_next_row(f: Field, dirs: Seq<Dir>, t: (int, int), x: int, y: int)
    requires
        forall|a: int| a >= x ==> !#[trigger] f.elf(a, y),
        forall|a: int| a < 0 ==> !#[trigger] f.elf(a, y + 1),
    ensures
        f.noted(dirs, t, x, y) == f.noted(dirs, t, 0, y + 1),
{
}

/// What is noted when the elves of all rows with elves have made their
/// wishes known is what all elves want.
pub proof fn lemma_noted_all(f: Field, dirs: Seq<Dir>, t: (int, int), y: int)
    requires
        forall|a: int, b: int| b >= y ==> !#[trigger] f.elf(a, b),
    ensures
        f.noted(dirs, t, 0, y) == f.slot(dirs, t),
{
}

/// Notes on `proposes` where the elves of the area want to go, and gives
/// the least rectangle round the elves, made one place wider on each
/// side: it holds every elf after the round too.
pub fn first_half(
    elves: &Grid<bool>,
    proposes: &mut Grid<Option<Proposal>>,
    directions: &[Dir; 4],
    area: (Coord, Coord),
) -> (r: (Coord, Coord))
    requires
        elves.wf(),
        elves.width >= 2,
        elves.height >= 2,
        field_of(elves).roomy(),
        covers(field_of(elves), area),
        old(proposes).wf(),
        old(proposes).width == elves.width,
        old(proposes).height == elves.height,
        forall|x: int, y: int| old(proposes).inside(x, y) ==> #[trigger] old(proposes).cell(x, y) is None,
    ensures
        final(proposes).wf(),
        final(proposes).width == elves.width,
        final(proposes).height == elves.height,
        forall|x: int, y: int|
            elves.inside(x, y) ==> #[trigger] final(proposes).cell(x, y) == field_of(elves).slot(
                directions@,
                (x, y),
            ),
        covers(field_of(elves).round(directions@), r),
        lo_x(r) == least_x(field_of(elves), elves.grid_raw@.len()) - 1,
        lo_y(r) == least_y(field_of(elves), elves.grid_raw@.len()) - 1,
        hi_x(r) == most_x(field_of(elves), elves.grid_raw@.len()) + 1,
        hi_y(r) == most_y(field_of(elves), elves.grid_raw@.len()) + 1,
{
    let ((x1, y1), (x2, y2)) = area;
    let ghost f = field_of(elves);
    let ghost dirs = directions@;
    let mut min_x: usize = usize::MAX;
    let mut min_y: usize = usize::MAX;
    let mut max_x: usize = 0;
    let mut max_y: usize = 0;
    let mut y: usize = y1;
    proof {
        assert forall|a: int, b: int| elves.inside(a, b) implies #[trigger] proposes.cell(a, b)
            == f.noted(dirs, (a, b), 0, y1 as int) by {
            lemma_noted_none(f, dirs, (a, b), y1 as int);
        }
    }
    while y <= y2
        invariant
            elves.wf(),
            f == field_of(elves),
            dirs == directions@,
            f.roomy(),
            covers(f, area),
            area == ((x1, y1), (x2, y2)),
            proposes.wf(),
            proposes.width == elves.width,
            proposes.height == elves.height,
            y1 <= y,
            forall|a: int, b: int|
                elves.inside(a, b) ==> #[trigger] proposes.cell(a, b) == f.noted(
                    dirs,
                    (a, b),
                    0,
                    y as int,
                ),
            forall|a: int, b: int| #[trigger]
                f.elf(a, b) && b < y ==> min_x <= a <= max_x && min_y <= b <= max_y,
            min_x >= 1,
            min_y >= 1,
            max_x < elves.width - 1 || max_x == 0,
            max_y < elves.height - 1 || max_y == 0,
            reached(f, min_x as int, max_x as int, min_y as int, max_y as int),
        decreases y2 + 1 - y,
    {
        let mut x: usize = x1;
        proof {
            assert forall|a: int, b: int| elves.inside(a, b) implies f.noted(
                dirs,
                (a, b),
                0,
                y as int,
            ) == f.noted(dirs, (a, b), x1 as int, y as int) by {
                lemma_noted_skip(f, dirs, (a, b), 0, x1 as int, y as int);
            }
        }
        while x <= x2
            invariant
                elves.wf(),
                f == field_of(elves),
                dirs == directions@,
                f.roomy(),
                covers(f, area),
                area == ((x1, y1), (x2, y2)),
                proposes.wf(),
                proposes.width == elves.width,
                proposes.height == elves.height,
                y1 <= y <= y2,
                x1 <= x,
                forall|a: int, b: int|
                    elves.inside(a, b) ==> #[trigger] proposes.cell(a, b) == f.noted(
                        dirs,
                        (a, b),
                        x as int,
                        y as int,
                    ),
                forall|a: int, b: int| #[trigger]
                    f.elf(a, b) && (b < y || (b == y && a < x)) ==> min_x <= a <= max_x && min_y
                        <= b <= max_y,
                min_x >= 1,
                min_y >= 1,
                max_x < elves.width - 1 || max_x == 0,
                max_y < elves.height - 1 || max_y == 0,
                reached(f, min_x as int, max_x as int, min_y as int, max_y as int),
            decreases x2 + 1 - x,
        {
            let ghost before = *proposes;
            let mut wished: Option<Coord> = None;
            if *elves.get_unchecked(x, y) {
                if x < min_x {
                    min_x = x;
                }
                if x > max_x {
                    max_x = x;
                }
                if y < min_y {
                    min_y = y;
                }
                if y > max_y {
                    max_y = y;
                }
                proof {
                    assert(f.elf(x as int, y as int));
                }
                wished = wish_of(elves, directions, (x, y));
                match wished {
                    Some(pc) => {
                        let now = match proposes.get_unchecked(pc.0, pc.1) {
                            Some(_) => Some(Proposal::Overlaped),
                            None => Some(Proposal::Propose((x, y))),
                        };
                        proposes.set(pc.0, pc.1, now);
                    },
                    None => {},
                }
            }
            proof {
                assert forall|a: int, b: int| elves.inside(a, b) implies #[trigger] proposes.cell(
                    a,
                    b,
                ) == f.noted(dirs, (a, b), x + 1, y as int) by {
                    assert(before.cell(a, b) == f.noted(dirs, (a, b), x as int, y as int));
                    if f.wish(dirs, x as int, y as int) == Some((a, b)) {
                        lemma_noted_more(f, dirs, (a, b), x as int, y as int);
                    } else {
                        lemma_noted_same(f, dirs, (a, b), x as int, y as int);
                    }
                }
            }
            x += 1;
        }
        proof {
            assert forall|a: int, b: int| elves.inside(a, b) implies f.noted(
                dirs,
                (a, b),
                x as int,
                y as int,
            ) == f.noted(dirs, (a, b), 0, y + 1) by {
                lemma_noted_next_row(f, dirs, (a, b), x as int, y as int);
            }
        }
        y += 1;
    }
    proof {
        assert forall|a: int, b: int| elves.inside(a, b) implies f.noted(dirs, (a, b), 0, y as int)
            == f.slot(dirs, (a, b)) by {
            lemma_noted_all(f, dirs, (a, b), y as int);
        }
        lemma_round_covered(f, dirs, min_x, min_y, max_x, max_y);
        lemma_box(f, min_x as int, max_x as int, min_y as int, max_y as int);
    }
    ((min_x - 1, min_y - 1), (max_x + 1, max_y + 1))
}

/// Nothing is noted before any elf has made its wish known.
pub proof fn lemma_noted_none(f: Field, dirs: Seq<Dir>, t: (int, int), y: int)
    requires
        forall|a: int, b: int| b < y ==> !#[trigger] f.elf(a, b),
    ensures
        f.noted(dirs, t, 0, y) is None,
{
}

/// An area with room round all elves holds them after the round too.
pub proof fn lemma_round_covered(
    f: Field,
    dirs: Seq<Dir>,
    min_x: usize,
    min_y: usize,
    max_x: usize,
    max_y: usize,
)
    requires
        f.roomy(),
        forall|a: int, b: int| #[trigger] f.elf(a, b) ==> min_x <= a <= max_x && min_y <= b <= max_y,
        min_x >= 1,
        min_y >= 1,
        max_x < f.width - 1 || max_x == 0,
        max_y < f.height - 1 || max_y == 0,
        max_x < usize::MAX,
        max_y < usize::MAX,
        f.width >= 2,
        f.height >= 2,
    ensures
        covers(
            f.round(dirs),
            (((min_x - 1) as usize, (min_y - 1) as usize), ((max_x + 1) as usize, (max_y + 1) as usize)),
        ),
{
    let r = f.round(dirs);
    let area = (
        ((min_x - 1) as usize, (min_y - 1) as usize),
        ((max_x + 1) as usize, (max_y + 1) as usize),
    );
    assert forall|x: int, y: int| #[trigger] r.elf(x, y) implies lo_x(area) <= x <= hi_x(area)
        && lo_y(area) <= y <= hi_y(area) by {
        let i = y * r.width + x;
        assert(0 <= y * r.width && y * r.width + r.width <= r.width * r.height)
            by (nonlinear_arith)
            requires
                0 <= y < r.height,
                0 <= r.width,
        ;
        vstd::arithmetic::div_mod::lemma_fundamental_div_mod_converse(i, r.width, y, x);
        assert(r.cells[i] == f.elf_after(dirs, i % f.width, i / f.width));
        assert(f.elf_after(dirs, x, y));
        if !f.elf(x, y) {
            assert(f.claim_count(dirs, (x, y)) == 1);
            if f.claims(dirs, (x, y), Dir::North) {
                assert(f.elf(x, y + 1));
            } else if f.claims(dirs, (x, y), Dir::South) {
                assert(f.elf(x, y - 1));
            } else if f.claims(dirs, (x, y), Dir::West) {
                assert(f.elf(x + 1, y));
            } else {
                assert(f.claims(dirs, (x, y), Dir::East));
                assert(f.elf(x - 1, y));
            }
        }
    }
}


/// Whether the elf at `c` is named in a note on one of the four places
/// beside it.
pub open spec fn named(notes: &Grid<Option<Proposal>>, c: Coord) -> bool {
    exists|x: int, y: int|
        notes.inside(x, y) && #[trigger] notes.cell(x, y) == Some(Proposal::Propose(c))
}

/// Whether an elf is named at `(x, y)`.
pub open spec fn is_goal(notes: &Grid<Option<Proposal>>, x: int, y: int) -> bool {
    match notes.cell(x, y) {
        Some(Proposal::Propose(_)) => true,
        _ => false,
    }
}

/// Whether every elf named in a note stands on the grid, and the place of
/// the note is free.
pub open spec fn notes_sound(elves: &Grid<bool>, notes: &Grid<Option<Proposal>>) -> bool {
    &&& notes.wf()
    &&& notes.width == elves.width
    &&& notes.height == elves.height
    &&& forall|x: int, y: int| notes.inside(x, y) ==> #[trigger] note_ok(elves, notes, x, y)
}

/// Whether the elf named in the note at `(x, y)`, if one is, stands on the
/// grid, and the place of the note is free.
pub open spec fn note_ok(elves: &Grid<bool>, notes: &Grid<Option<Proposal>>, x: int, y: int) -> bool {
    match notes.cell(x, y) {
        Some(Proposal::Propose(c)) => elves.inside(c.0 as int, c.1 as int) && elves.cell(
            c.0 as int,
            c.1 as int,
        ) && !elves.cell(x, y),
        _ => true,
    }
}

/// Lets every elf that is named in a note go to the place of the note.
/// Says whether any elf went.
pub fn second_half(elves: &mut Grid<bool>, proposes: &Grid<Option<Proposal>>) -> (elf_moved: bool)
    requires
        old(elves).wf(),
        notes_sound(old(elves), proposes),
    ensures
        final(elves).wf(),
        final(elves).width == old(elves).width,
        final(elves).height == old(elves).height,
        forall|x: int, y: int|
            old(elves).inside(x, y) ==> #[trigger] final(elves).cell(x, y) == ((old(elves).cell(x, y)
                && !named(proposes, (x as usize, y as usize))) || is_goal(proposes, x, y)),
        elf_moved == exists|x: int, y: int| proposes.inside(x, y) && #[trigger] is_goal(proposes, x, y),
{
    let ghost g0 = *elves;
    let mut elf_moved = false;
    let w = proposes.width;
    let h = proposes.height;
    let mut y: usize = 0;
    while y < h
        invariant
            elves.wf(),
            g0 == *old(elves),
            g0.wf(),
            notes_sound(&g0, proposes),
            elves.width == g0.width,
            elves.height == g0.height,
            w == proposes.width,
            h == proposes.height,
            y <= h,
            forall|a: int, b: int|
                g0.inside(a, b) ==> #[trigger] elves.cell(a, b) == ((g0.cell(a, b) && !named_before(
                    proposes,
                    (a as usize, b as usize),
                    0,
                    y as int,
                )) || (is_goal(proposes, a, b) && b < y)),
            elf_moved == exists|a: int, b: int|
                proposes.inside(a, b) && b < y && #[trigger] is_goal(proposes, a, b),
        decreases h - y,
    {
        let mut x: usize = 0;
        while x < w
            invariant
                elves.wf(),
                g0 == *old(elves),
                g0.wf(),
                notes_sound(&g0, proposes),
                elves.width == g0.width,
                elves.height == g0.height,
                w == proposes.width,
                h == proposes.height,
                y < h,
                x <= w,
                forall|a: int, b: int|
                    g0.inside(a, b) ==> #[trigger] elves.cell(a, b) == ((g0.cell(a, b)
                        && !named_before(proposes, (a as usize, b as usize), x as int, y as int))
                        || (is_goal(proposes, a, b) && (b < y || (b == y && a < x)))),
                elf_moved == exists|a: int, b: int|
                    proposes.inside(a, b) && (b < y || (b == y && a < x)) && #[trigger] is_goal(
                        proposes,
                        a,
                        b,
                    ),
            decreases w - x,
        {
            let ghost before = *elves;
            let ghost moved_before = elf_moved;
            assert(note_ok(&g0, proposes, x as int, y as int));
            match proposes.get_unchecked(x, y) {
                Some(Proposal::Propose(p)) => {
                    elf_moved = true;
                    elves.set(p.0, p.1, false);
                    elves.set(x, y, true);
                    proof {
                        assert(is_goal(proposes, x as int, y as int));
                        assert forall|a: int, b: int| g0.inside(a, b) implies #[trigger] elves.cell(
                            a,
                            b,
                        ) == ((g0.cell(a, b) && !named_before(
                            proposes,
                            (a as usize, b as usize),
                            x + 1,
                            y as int,
                        )) || (is_goal(proposes, a, b) && (b < y || (b == y && a < x + 1)))) by {
                            lemma_named_step(proposes, (a as usize, b as usize), x as int, y as int);
                            if (a, b) == (p.0 as int, p.1 as int) {
                                assert(proposes.cell(x as int, y as int) == Some(
                                    Proposal::Propose((a as usize, b as usize)),
                                ));
                                lemma_not_goal(&g0, proposes, a, b);
                            }
                        }
                    }
                },
                _ => {
                    proof {
                        assert(!is_goal(proposes, x as int, y as int));
                        assert forall|a: int, b: int| g0.inside(a, b) implies #[trigger] elves.cell(
                            a,
                            b,
                        ) == ((g0.cell(a, b) && !named_before(
                            proposes,
                            (a as usize, b as usize),
                            x + 1,
                            y as int,
                        )) || (is_goal(proposes, a, b) && (b < y || (b == y && a < x + 1)))) by {
                            lemma_named_step(proposes, (a as usize, b as usize), x as int, y as int);
                        }
                    }
                },
            }
            x += 1;
        }
        proof {
            assert forall|a: int, b: int| g0.inside(a, b) implies named_before(
                proposes,
                (a as usize, b as usize),
                w as int,
                y as int,
            ) == named_before(proposes, (a as usize, b as usize), 0, y + 1) by {
                lemma_named_row(proposes, (a as usize, b as usize), y as int);
            }
        }
        y += 1;
    }
    proof {
        assert forall|a: int, b: int| g0.inside(a, b) implies named_before(
            proposes,
            (a as usize, b as usize),
            0,
            h as int,
        ) == named(proposes, (a as usize, b as usize)) by {
            lemma_named_all(proposes, (a as usize, b as usize));
        }
    }
    elf_moved
}

/// Whether the elf at `c` is named in a note before `(x, y)`, row by row.
pub open spec fn named_before(notes: &Grid<Option<Proposal>>, c: Coord, x: int, y: int) -> bool {
    exists|a: int, b: int|
        notes.inside(a, b) && (b < y || (b == y && a < x)) && #[trigger] notes.cell(a, b) == Some(
            Proposal::Propose(c),
        )
}

proof fn lemma_named_step(notes: &Grid<Option<Proposal>>, c: Coord, x: int, y: int)
    requires
        notes.inside(x, y),
    ensures
        named_before(notes, c, x + 1, y) == (named_before(notes, c, x, y) || notes.cell(x, y)
            == Some(Proposal::Propose(c))),
{
    if named_before(notes, c, x + 1, y) {
        let (a, b) = choose|a: int, b: int|
            notes.inside(a, b) && (b < y || (b == y && a < x + 1)) && #[trigger] notes.cell(a, b)
                == Some(Proposal::Propose(c));
        if (a, b) != (x, y) {
            assert(notes.inside(a, b) && (b < y || (b == y && a < x)) && notes.cell(a, b) == Some(
                Proposal::Propose(c),
            ));
        }
    }
    if named_before(notes, c, x, y) {
        let (a, b) = choose|a: int, b: int|
            notes.inside(a, b) && (b < y || (b == y && a < x)) && #[trigger] notes.cell(a, b)
                == Some(Proposal::Propose(c));
        assert(notes.inside(a, b) && (b < y || (b == y && a < x + 1)) && notes.cell(a, b) == Some(
            Proposal::Propose(c),
        ));
    }
    if notes.cell(x, y) == Some(Proposal::Propose(c)) {
        assert(notes.inside(x, y) && (y < y || (y == y && x < x + 1)) && notes.cell(x, y) == Some(
            Proposal::Propose(c),
        ));
    }
}

proof fn lemma_named_row(notes: &Grid<Option<Proposal>>, c: Coord, y: int)
    ensures
        named_before(notes, c, notes.width as int, y) == named_before(notes, c, 0, y + 1),
{
    if named_before(notes, c, notes.width as int, y) {
        let (a, b) = choose|a: int, b: int|
            notes.inside(a, b) && (b < y || (b == y && a < notes.width)) && #[trigger] notes.cell(
                a,
                b,
            ) == Some(Proposal::Propose(c));
        assert(notes.inside(a, b) && (b < y + 1 || (b == y + 1 && a < 0)) && notes.cell(a, b)
            == Some(Proposal::Propose(c)));
    }
    if named_before(notes, c, 0, y + 1) {
        let (a, b) = choose|a: int, b: int|
            notes.inside(a, b) && (b < y + 1 || (b == y + 1 && a < 0)) && #[trigger] notes.cell(
                a,
                b,
            ) == Some(Proposal::Propose(c));
        assert(notes.inside(a, b) && (b < y || (b == y && a < notes.width)) && notes.cell(a, b)
            == Some(Proposal::Propose(c)));
    }
}

proof fn lemma_named_all(notes: &Grid<Option<Proposal>>, c: Coord)
    ensures
        named_before(notes, c, 0, notes.height as int) == named(notes, c),
{
    if named(notes, c) {
        let (a, b) = choose|a: int, b: int|
            notes.inside(a, b) && #[trigger] notes.cell(a, b) == Some(Proposal::Propose(c));
        assert(notes.inside(a, b) && (b < notes.height || (b == notes.height && a < 0))
            && notes.cell(a, b) == Some(Proposal::Propose(c)));
    }
}

/// The place of an elf that is named in a note is no goal itself.
proof fn lemma_not_goal(elves: &Grid<bool>, notes: &Grid<Option<Proposal>>, a: int, b: int)
    requires
        notes_sound(elves, notes),
        elves.inside(a, b),
        elves.cell(a, b),
    ensures
        !is_goal(notes, a, b),
{
    assert(note_ok(elves, notes, a, b));
}


/// The side that the first free direction faces is free.
pub proof fn lemma_first_free_side(f: Field, dirs: Seq<Dir>, x: int, y: int, k: int)
    requires
        f.first_free(dirs, x, y, k) is Some,
    ensures
        f.side_free(f.first_free(dirs, x, y, k)->0, x, y),
    decreases 4 - k,
{
    if 0 <= k < 4 && !f.side_free(dirs[k], x, y) {
        lemma_first_free_side(f, dirs, x, y, k + 1);
    }
}

/// An elf that wants to go to `t` from the side of direction `d` stands
/// beside `t`, and `t` is free.
pub proof fn lemma_claim(f: Field, dirs: Seq<Dir>, t: (int, int), d: Dir)
    requires
        f.claims(dirs, t, d),
    ensures
        f.elf(source_of(d, t).0, source_of(d, t).1),
        !f.elf(t.0, t.1),
{
    let s = source_of(d, t);
    lemma_first_free_side(f, dirs, s.0, s.1, 0);
    lemma_wish_is_step(f, dirs, s.0, s.1);
}

/// The elf whose place is noted at `t` when one elf alone wants to go
/// there.
pub open spec fn sole_claimant(f: Field, dirs: Seq<Dir>, t: (int, int)) -> (int, int) {
    if f.claims(dirs, t, Dir::North) {
        source_of(Dir::North, t)
    } else if f.claims(dirs, t, Dir::South) {
        source_of(Dir::South, t)
    } else if f.claims(dirs, t, Dir::West) {
        source_of(Dir::West, t)
    } else {
        source_of(Dir::East, t)
    }
}

/// What is noted at a place when all elves have made their wishes known:
/// nothing if no elf wants to go there, the one elf if one does, and else
/// that more than one do.
pub proof fn lemma_slot(f: Field, dirs: Seq<Dir>, t: (int, int))
    requires
        f.roomy(),
    ensures
        f.slot(dirs, t) == if f.claim_count(dirs, t) == 0 {
            None
        } else if f.claim_count(dirs, t) == 1 {
            Some(
                Proposal::Propose(
                    (sole_claimant(f, dirs, t).0 as usize, sole_claimant(f, dirs, t).1 as usize),
                ),
            )
        } else {
            Some(Proposal::Overlaped)
        },
{
    if f.claims(dirs, t, Dir::North) {
        lemma_claim(f, dirs, t, Dir::North);
    }
    if f.claims(dirs, t, Dir::South) {
        lemma_claim(f, dirs, t, Dir::South);
    }
    if f.claims(dirs, t, Dir::West) {
        lemma_claim(f, dirs, t, Dir::West);
    }
    if f.claims(dirs, t, Dir::East) {
        lemma_claim(f, dirs, t, Dir::East);
    }
}

/// An elf wants to go where it claims to go.
pub proof fn lemma_wish_claims(f: Field, dirs: Seq<Dir>, x: int, y: int)
    requires
        f.wish(dirs, x, y) is Some,
    ensures
        ({
            let t = f.wish(dirs, x, y)->0;
            &&& f.claim_count(dirs, t) >= 1
            &&& f.claim_count(dirs, t) == 1 ==> sole_claimant(f, dirs, t) == (x, y)
        }),
{
    lemma_wish_is_step(f, dirs, x, y);
    let t = f.wish(dirs, x, y)->0;
    if t == target_of(Dir::North, (x, y)) {
        assert(source_of(Dir::North, t) == (x, y));
        assert(f.claims(dirs, t, Dir::North));
    } else if t == target_of(Dir::South, (x, y)) {
        assert(source_of(Dir::South, t) == (x, y));
        assert(f.claims(dirs, t, Dir::South));
    } else if t == target_of(Dir::West, (x, y)) {
        assert(source_of(Dir::West, t) == (x, y));
        assert(f.claims(dirs, t, Dir::West));
    } else {
        assert(source_of(Dir::East, t) == (x, y));
        assert(f.claims(dirs, t, Dir::East));
    }
}

/// The one elf that wants to go to a place wants to go there.
pub proof fn lemma_sole_claims(f: Field, dirs: Seq<Dir>, t: (int, int))
    requires
        f.claim_count(dirs, t) == 1,
    ensures
        f.wish(dirs, sole_claimant(f, dirs, t).0, sole_claimant(f, dirs, t).1) == Some(t),
        f.elf(sole_claimant(f, dirs, t).0, sole_claimant(f, dirs, t).1),
        !f.elf(t.0, t.1),
{
    if f.claims(dirs, t, Dir::North) {
        lemma_claim(f, dirs, t, Dir::North);
    } else if f.claims(dirs, t, Dir::South) {
        lemma_claim(f, dirs, t, Dir::South);
    } else if f.claims(dirs, t, Dir::West) {
        lemma_claim(f, dirs, t, Dir::West);
    } else {
        lemma_claim(f, dirs, t, Dir::East);
    }
}

/// What is noted when all elves of a field with room round them have made
/// their wishes known tells who goes where in the round.
pub proof fn lemma_notes_tell_round(
    elves: &Grid<bool>,
    notes: &Grid<Option<Proposal>>,
    dirs: Seq<Dir>,
    x: int,
    y: int,
)
    requires
        elves.wf(),
        field_of(elves).roomy(),
        notes.wf(),
        notes.width == elves.width,
        notes.height == elves.height,
        forall|a: int, b: int|
            elves.inside(a, b) ==> #[trigger] notes.cell(a, b) == field_of(elves).slot(dirs, (a, b)),
        elves.inside(x, y),
    ensures
        note_ok(elves, notes, x, y),
        field_of(elves).elf(x, y) == elves.cell(x, y),
        field_of(elves).elf_after(dirs, x, y) == ((elves.cell(x, y) && !named(
            notes,
            (x as usize, y as usize),
        )) || is_goal(notes, x, y)),
        is_goal(notes, x, y) == (!field_of(elves).elf(x, y) && field_of(elves).claim_count(
            dirs,
            (x, y),
        ) == 1),
{
    let f = field_of(elves);
    let c = (x as usize, y as usize);
    assert(notes.cell(x, y) == f.slot(dirs, (x, y)));
    lemma_slot(f, dirs, (x, y));
    if f.claim_count(dirs, (x, y)) == 1 {
        lemma_sole_claims(f, dirs, (x, y));
        let s = sole_claimant(f, dirs, (x, y));
        assert(f.elf(s.0, s.1));
        assert(elves.inside(s.0, s.1));
        assert(elves.cell(s.0, s.1));
    }
    if f.elf(x, y) {
        match f.wish(dirs, x, y) {
            Some(t) => {
                lemma_wish_claims(f, dirs, x, y);
                lemma_slot(f, dirs, t);
                lemma_wish_is_step(f, dirs, x, y);
                assert(notes.inside(t.0, t.1));
                assert(notes.cell(t.0, t.1) == f.slot(dirs, t));
                if f.claim_count(dirs, t) == 1 {
                    assert(notes.inside(t.0, t.1) && notes.cell(t.0, t.1) == Some(
                        Proposal::Propose(c),
                    ));
                }
            },
            None => {},
        }
        if named(notes, c) {
            let (a, b) = choose|a: int, b: int|
                notes.inside(a, b) && #[trigger] notes.cell(a, b) == Some(Proposal::Propose(c));
            assert(notes.cell(a, b) == f.slot(dirs, (a, b)));
            lemma_slot(f, dirs, (a, b));
            lemma_sole_claims(f, dirs, (a, b));
        }
    }
}

/// One round: the elves make their wishes known, and those that alone
/// want to go to a place go there.
pub fn round_once(elves: &mut Grid<bool>, directions: &[Dir; 4], area: (Coord, Coord)) -> (r: (
    (Coord, Coord),
    bool,
))
    requires
        old(elves).wf(),
        old(elves).width >= 2,
        old(elves).height >= 2,
        field_of(old(elves)).roomy(),
        covers(field_of(old(elves)), area),
    ensures
        final(elves).wf(),
        final(elves).width == old(elves).width,
        final(elves).height == old(elves).height,
        field_of(final(elves)) == field_of(old(elves)).round(directions@),
        covers(field_of(final(elves)), r.0),
        r.1 == field_of(old(elves)).any_moves(directions@),
{
    let ghost g0 = *elves;
    let ghost f = field_of(elves);
    let ghost dirs = directions@;
    let mut proposes: Grid<Option<Proposal>> = Grid::from_vec(
        elves.width,
        elves.height,
        filled(elves.grid_raw.len(), None),
    );
    proof {
        assert forall|x: int, y: int| proposes.inside(x, y) implies #[trigger] proposes.cell(x, y)
             is None by {
            lemma_index_in_bounds(x, y, elves.width as int, elves.height as int);
        }
    }
    let search_area = first_half(elves, &mut proposes, directions, area);
    proof {
        assert forall|x: int, y: int| proposes.inside(x, y) implies #[trigger] note_ok(
            &g0,
            &proposes,
            x,
            y,
        ) by {
            lemma_notes_tell_round(&g0, &proposes, dirs, x, y);
        }
    }
    let elf_moved = second_half(elves, &proposes);
    proof {
        let want = f.round(dirs);
        assert forall|i: int| 0 <= i < elves.grid_raw@.len() implies elves.grid_raw@[i]
            == want.cells[i] by {
            lemma_cell_of_index(elves, i);
            lemma_cell_of_index(&g0, i);
            let x = i % (g0.width as int);
            let y = i / (g0.width as int);
            lemma_notes_tell_round(&g0, &proposes, dirs, x, y);
        }
        assert(elves.grid_raw@ =~= want.cells);
        if elf_moved {
            let (a, b) = choose|a: int, b: int|
                proposes.inside(a, b) && #[trigger] is_goal(&proposes, a, b);
            lemma_notes_tell_round(&g0, &proposes, dirs, a, b);
            assert(f.inside(a, b) && !f.elf(a, b) && f.claim_count(dirs, (a, b)) == 1);
        }
        if f.any_moves(dirs) {
            let (a, b) = choose|a: int, b: int|
                f.inside(a, b) && !f.elf(a, b) && #[trigger] f.claim_count(dirs, (a, b)) == 1;
            lemma_notes_tell_round(&g0, &proposes, dirs, a, b);
            assert(proposes.inside(a, b) && is_goal(&proposes, a, b));
        }
    }
    (search_area, elf_moved)
}


/// Whether the text is a map of elves: a rectangle of the bytes `.` and
/// `#` that ends with a line feed, small enough for a field three times
/// as wide and high.
pub open spec fn is_elf_map(s: Seq<u8>) -> bool {
    let ls = lines_of(s);
    &&& s.len() > 0
    &&& s.last() == 10
    &&& forall|i: int| 0 <= i < s.len() ==> #[trigger] s[i] != 13
    &&& is_rect(ls)
    &&& ls[0].len() >= 1
    &&& 9 * ls[0].len() * ls.len() <= usize::MAX
    &&& forall|y: int, x: int|
        0 <= y < ls.len() && 0 <= x < ls[y].len() ==> {
            let b = #[trigger] ls[y][x];
            b == 46 || b == 35
        }
}

/// The field of the map: three times as wide and high as the map, which
/// lies in its middle.
pub open spec fn start_field(s: Seq<u8>) -> Field {
    let ls = lines_of(s);
    let w: int = 3 * (ls[0].len() as int);
    let h: int = 3 * (ls.len() as int);
    Field {
        width: w,
        height: h,
        cells: Seq::new(
            (w * h) as nat,
            |i: int|
                {
                    let x = i % w - ls[0].len();
                    let y = i / w - ls.len();
                    0 <= y < ls.len() && 0 <= x < ls[y].len() && ls[y][x] == 35
                },
        ),
    }
}

/// The field of the map, and the area of the map in it.
pub fn parse_input(input: &str) -> (r: (Grid<bool>, (Coord, Coord)))
    requires
        is_elf_map(input.spec_bytes()),
    ensures
        r.0.wf(),
        field_of(&r.0) == start_field(input.spec_bytes()),
        lo_x(r.1) == r.0.width / 3,
        lo_y(r.1) == r.0.height / 3,
        hi_x(r.1) == 2 * r.0.width / 3,
        hi_y(r.1) == 2 * r.0.height / 3,
        covers(field_of(&r.0), r.1),
        field_of(&r.0).roomy(),
        r.0.width >= 3,
        r.0.height >= 3,
{
    let ls = lines(input.as_bytes());
    let ghost lv = lines_of(input.spec_bytes());
    assert(ls@[0]@ == lv[0]);
    let n = ls[0].len();
    let m = ls.len();
    proof {
        assert(3 * n * (3 * m) == 9 * n * m) by (nonlinear_arith);
        assert(3 * n <= 9 * n * m && 3 * m <= 9 * n * m) by (nonlinear_arith)
            requires
                n >= 1,
                m >= 1,
        ;
    }
    let width: usize = n * 3;
    let height: usize = m * 3;
    let mut grid = Grid::from_vec(width, height, filled(width * height, false));
    proof {
        assert forall|a: int, b: int| grid.inside(a, b) implies !#[trigger] grid.cell(a, b) by {
            lemma_index_in_bounds(a, b, width as int, height as int);
        }
    }
    let mut y: usize = 0;
    while y < m
        invariant
            y <= m,
            lv == views(ls@),
            lv == lines_of(input.spec_bytes()),
            is_elf_map(input.spec_bytes()),
            n == lv[0].len(),
            m == lv.len(),
            n >= 1,
            m >= 1,
            width == 3 * n,
            height == 3 * m,
            grid.wf(),
            grid.width == width,
            grid.height == height,
            forall|a: int, b: int|
                grid.inside(a, b) ==> #[trigger] grid.cell(a, b) == (0 <= b - m < y && 0 <= a - n
                    < n && lv[b - m][a - n] == 35),
        decreases m - y,
    {
        assert(ls@[y as int]@ == lv[y as int]);
        let line = &ls[y];
        let mut x: usize = 0;
        while x < line.len()
            invariant
                y < m,
                lv == views(ls@),
                is_elf_map(input.spec_bytes()),
                lv == lines_of(input.spec_bytes()),
                line@ == lv[y as int],
                line@.len() == n,
                n == lv[0].len(),
                m == lv.len(),
                width == 3 * n,
                height == 3 * m,
                x <= n,
                grid.wf(),
                grid.width == width,
                grid.height == height,
                forall|a: int, b: int|
                    grid.inside(a, b) ==> #[trigger] grid.cell(a, b) == ((0 <= b - m < y || (b - m
                        == y && a - n < x)) && 0 <= a - n < n && lv[b - m][a - n] == 35),
            decreases line.len() - x,
        {
            let c = line[x];
            assert(c == lv[y as int][x as int]);
            grid.set(x + width / 3, y + height / 3, c == 35);
            x += 1;
        }
        y += 1;
    }
    proof {
        assert(6 * n <= 9 * n * m && 6 * m <= 9 * n * m) by (nonlinear_arith)
            requires
                n >= 1,
                m >= 1,
        ;
    }
    let area = ((width / 3, height / 3), (2 * width / 3, 2 * height / 3));
    proof {
        let f = field_of(&grid);
        let want = start_field(input.spec_bytes());
        assert(width * height == 3 * n * (3 * m)) by (nonlinear_arith)
            requires
                width == 3 * n,
                height == 3 * m,
        ;
        assert forall|i: int| 0 <= i < grid.grid_raw@.len() implies grid.grid_raw@[i]
            == want.cells[i] by {
            lemma_cell_of_index(&grid, i);
        }
        assert(grid.grid_raw@ =~= want.cells);
        assert forall|a: int, b: int| #[trigger] f.elf(a, b) implies 1 <= a < f.width - 1 && 1 <= b
            < f.height - 1 && lo_x(area) <= a <= hi_x(area) && lo_y(area) <= b <= hi_y(area) by {
            lemma_index_in_bounds(a, b, width as int, height as int);
            assert(grid.cell(a, b));
        }
    }
    (grid, area)
}

/// The least column of an elf among the first `k` places, row by row; the
/// greatest number there is when no elf stands there.
pub open spec fn least_x(f: Field, k: nat) -> int
    decreases k,
{
    if k == 0 {
        usize::MAX as int
    } else if f.cells[k - 1] && (k - 1) % f.width < least_x(f, (k - 1) as nat) {
        (k - 1) % f.width
    } else {
        least_x(f, (k - 1) as nat)
    }
}

/// The least row of an elf among the first `k` places.
pub open spec fn least_y(f: Field, k: nat) -> int
    decreases k,
{
    if k == 0 {
        usize::MAX as int
    } else if f.cells[k - 1] && (k - 1) / f.width < least_y(f, (k - 1) as nat) {
        (k - 1) / f.width
    } else {
        least_y(f, (k - 1) as nat)
    }
}

/// The greatest column of an elf among the first `k` places; 0 when no
/// elf stands there.
pub open spec fn most_x(f: Field, k: nat) -> int
    decreases k,
{
    if k == 0 {
        0
    } else if f.cells[k - 1] && (k - 1) % f.width > most_x(f, (k - 1) as nat) {
        (k - 1) % f.width
    } else {
        most_x(f, (k - 1) as nat)
    }
}

/// The greatest row of an elf among the first `k` places.
pub open spec fn most_y(f: Field, k: nat) -> int
    decreases k,
{
    if k == 0 {
        0
    } else if f.cells[k - 1] && (k - 1) / f.width > most_y(f, (k - 1) as nat) {
        (k - 1) / f.width
    } else {
        most_y(f, (k - 1) as nat)
    }
}

/// Whether each of the four bounds is that of an elf, or is still what it
/// is before any elf is seen: the greatest number there is for a least
/// column or row, 0 for a greatest.
pub open spec fn reached(f: Field, min_x: int, max_x: int, min_y: int, max_y: int) -> bool {
    &&& min_x == usize::MAX || exists|a: int, b: int| #[trigger] f.elf(a, b) && a == min_x
    &&& max_x == 0 || exists|a: int, b: int| #[trigger] f.elf(a, b) && a == max_x
    &&& min_y == usize::MAX || exists|a: int, b: int| #[trigger] f.elf(a, b) && b == min_y
    &&& max_y == 0 || exists|a: int, b: int| #[trigger] f.elf(a, b) && b == max_y
}

/// The place with the number `i`, row by row, is the place of its column
/// and row, and the place `(a, b)` has the number `b * width + a`.
pub proof fn lemma_place_number(f: Field, a: int, b: int)
    requires
        0 <= a < f.width,
        0 <= b,
    ensures
        (b * f.width + a) % f.width == a,
        (b * f.width + a) / f.width == b,
        0 <= b * f.width + a,
        b < f.height ==> b * f.width + a < f.width * f.height,
{
    assert(0 <= b * f.width) by (nonlinear_arith)
        requires
            0 <= b,
            0 <= f.width,
    ;
    vstd::arithmetic::div_mod::lemma_fundamental_div_mod_converse(b * f.width + a, f.width, b, a);
    if b < f.height {
        assert(b * f.width + f.width <= f.width * f.height) by (nonlinear_arith)
            requires
                0 <= b < f.height,
                0 <= f.width,
        ;
    }
}

/// The bounds of the elves among the first `k` places bound each of
/// them, and each bound is that of an elf among them unless it is what
/// it is when there is none.
pub proof fn lemma_extremes(f: Field, k: nat)
    requires
        0 < f.width <= usize::MAX,
        0 <= f.height,
        f.cells.len() == f.width * f.height,
        k <= f.cells.len(),
    ensures
        forall|i: int|
            0 <= i < k && #[trigger] f.cells[i] ==> least_x(f, k) <= i % f.width <= most_x(f, k)
                && least_y(f, k) <= i / f.width <= most_y(f, k),
        least_x(f, k) == usize::MAX || exists|i: int|
            0 <= i < k && #[trigger] f.cells[i] && i % f.width == least_x(f, k),
        most_x(f, k) == 0 || exists|i: int|
            0 <= i < k && #[trigger] f.cells[i] && i % f.width == most_x(f, k),
        least_y(f, k) == usize::MAX || exists|i: int|
            0 <= i < k && #[trigger] f.cells[i] && i / f.width == least_y(f, k),
        most_y(f, k) == 0 || exists|i: int|
            0 <= i < k && #[trigger] f.cells[i] && i / f.width == most_y(f, k),
    decreases k,
{
    if k > 0 {
        lemma_extremes(f, (k - 1) as nat);
        let j = k - 1;
        vstd::arithmetic::div_mod::lemma_mod_bound(j, f.width);
        vstd::arithmetic::div_mod::lemma_div_pos_is_pos(j, f.width);
        if least_x(f, k) != usize::MAX {
            if f.cells[j] && j % f.width < least_x(f, (k - 1) as nat) {
                assert(f.cells[j] && j % f.width == least_x(f, k));
            } else {
                let i = choose|i: int|
                    0 <= i < k - 1 && #[trigger] f.cells[i] && i % f.width == least_x(
                        f,
                        (k - 1) as nat,
                    );
                assert(f.cells[i] && i % f.width == least_x(f, k));
            }
        }
        if most_x(f, k) != 0 {
            if f.cells[j] && j % f.width > most_x(f, (k - 1) as nat) {
                assert(f.cells[j] && j % f.width == most_x(f, k));
            } else {
                let i = choose|i: int|
                    0 <= i < k - 1 && #[trigger] f.cells[i] && i % f.width == most_x(
                        f,
                        (k - 1) as nat,
                    );
                assert(f.cells[i] && i % f.width == most_x(f, k));
            }
        }
        if least_y(f, k) != usize::MAX {
            if f.cells[j] && j / f.width < least_y(f, (k - 1) as nat) {
                assert(f.cells[j] && j / f.width == least_y(f, k));
            } else {
                let i = choose|i: int|
                    0 <= i < k - 1 && #[trigger] f.cells[i] && i / f.width == least_y(
                        f,
                        (k - 1) as nat,
                    );
                assert(f.cells[i] && i / f.width == least_y(f, k));
            }
        }
        if most_y(f, k) != 0 {
            if f.cells[j] && j / f.width > most_y(f, (k - 1) as nat) {
                assert(f.cells[j] && j / f.width == most_y(f, k));
            } else {
                let i = choose|i: int|
                    0 <= i < k - 1 && #[trigger] f.cells[i] && i / f.width == most_y(
                        f,
                        (k - 1) as nat,
                    );
                assert(f.cells[i] && i / f.width == most_y(f, k));
            }
        }
    }
}

/// Bounds that hold every elf and are reached by elves are the least
/// and the greatest columns and rows of the elves.
pub proof fn lemma_box(f: Field, min_x: int, max_x: int, min_y: int, max_y: int)
    requires
        0 < f.width <= usize::MAX,
        0 <= f.height <= usize::MAX,
        f.cells.len() == f.width * f.height,
        forall|a: int, b: int| #[trigger] f.elf(a, b) ==> min_x <= a <= max_x && min_y <= b <= max_y,
        reached(f, min_x, max_x, min_y, max_y),
    ensures
        min_x == least_x(f, f.cells.len()),
        max_x == most_x(f, f.cells.len()),
        min_y == least_y(f, f.cells.len()),
        max_y == most_y(f, f.cells.len()),
{
    let n = f.cells.len();
    lemma_extremes(f, n);
    // Every elf by its number, and every number of an elf by its place.
    assert forall|a: int, b: int| #[trigger] f.elf(a, b) implies least_x(f, n) <= a <= most_x(f, n)
        && least_y(f, n) <= b <= most_y(f, n) by {
        lemma_place_number(f, a, b);
        assert(f.cells[b * f.width + a]);
    }
    assert forall|i: int| 0 <= i < n && #[trigger] f.cells[i] implies f.elf(
        i % f.width,
        i / f.width,
    ) by {
        lemma_number_place(f, i);
    }
    if least_x(f, n) != usize::MAX {
        let i = choose|i: int| 0 <= i < n && #[trigger] f.cells[i] && i % f.width == least_x(f, n);
        assert(f.elf(i % f.width, i / f.width));
    }
    if most_x(f, n) != 0 {
        let i = choose|i: int| 0 <= i < n && #[trigger] f.cells[i] && i % f.width == most_x(f, n);
        assert(f.elf(i % f.width, i / f.width));
    }
    if least_y(f, n) != usize::MAX {
        let i = choose|i: int| 0 <= i < n && #[trigger] f.cells[i] && i / f.width == least_y(f, n);
        assert(f.elf(i % f.width, i / f.width));
    }
    if most_y(f, n) != 0 {
        let i = choose|i: int| 0 <= i < n && #[trigger] f.cells[i] && i / f.width == most_y(f, n);
        assert(f.elf(i % f.width, i / f.width));
    }
    if min_x != usize::MAX {
        let (a, b) = choose|a: int, b: int| #[trigger] f.elf(a, b) && a == min_x;
        assert(f.elf(a, b));
    }
    if max_x != 0 {
        let (a, b) = choose|a: int, b: int| #[trigger] f.elf(a, b) && a == max_x;
        assert(f.elf(a, b));
    }
    if min_y != usize::MAX {
        let (a, b) = choose|a: int, b: int| #[trigger] f.elf(a, b) && b == min_y;
        assert(f.elf(a, b));
    }
    if max_y != 0 {
        let (a, b) = choose|a: int, b: int| #[trigger] f.elf(a, b) && b == max_y;
        assert(f.elf(a, b));
    }
}

/// The place with the number `i` lies on the field, in the column and
/// row that the number gives.
pub proof fn lemma_number_place(f: Field, i: int)
    requires
        0 < f.width,
        0 <= f.height,
        0 <= i < f.width * f.height,
    ensures
        f.inside(i % f.width, i / f.width),
        (i / f.width) * f.width + i % f.width == i,
{
    vstd::arithmetic::div_mod::lemma_fundamental_div_mod(i, f.width);
    vstd::arithmetic::div_mod::lemma_mod_bound(i, f.width);
    assert(f.width * (i / f.width) == (i / f.width) * f.width) by (nonlinear_arith);
    assert(0 <= i / f.width < f.height) by (nonlinear_arith)
        requires
            0 <= i < f.width * f.height,
            f.width > 0,
            i == f.width * (i / f.width) + i % f.width,
            0 <= i % f.width < f.width,
    ;
}

/// The least rectangle that holds every elf.
pub fn smallest_rectangle(elves: &Grid<bool>) -> (r: (Coord, Coord))
    requires
        elves.wf(),
    ensures
        lo_x(r) == least_x(field_of(elves), elves.grid_raw@.len()),
        lo_y(r) == least_y(field_of(elves), elves.grid_raw@.len()),
        hi_x(r) == most_x(field_of(elves), elves.grid_raw@.len()),
        hi_y(r) == most_y(field_of(elves), elves.grid_raw@.len()),
{
    let ghost f = field_of(elves);
    let mut min_x: usize = usize::MAX;
    let mut min_y: usize = usize::MAX;
    let mut max_x: usize = 0;
    let mut max_y: usize = 0;
    let mut y: usize = 0;
    while y < elves.height
        invariant
            elves.wf(),
            f == field_of(elves),
            y <= elves.height,
            min_x == least_x(f, (y * elves.width) as nat),
            min_y == least_y(f, (y * elves.width) as nat),
            max_x == most_x(f, (y * elves.width) as nat),
            max_y == most_y(f, (y * elves.width) as nat),
        decreases elves.height - y,
    {
        let mut x: usize = 0;
        while x < elves.width
            invariant
                elves.wf(),
                f == field_of(elves),
                y < elves.height,
                x <= elves.width,
                min_x == least_x(f, (y * elves.width + x) as nat),
                min_y == least_y(f, (y * elves.width + x) as nat),
                max_x == most_x(f, (y * elves.width + x) as nat),
                max_y == most_y(f, (y * elves.width + x) as nat),
            decreases elves.width - x,
        {
            proof {
                assert(0 <= y * elves.width) by (nonlinear_arith)
                    requires
                        0 <= y,
                        0 <= elves.width,
                ;
                vstd::arithmetic::div_mod::lemma_fundamental_div_mod_converse(
                    y * elves.width + x,
                    elves.width as int,
                    y as int,
                    x as int,
                );
                lemma_index_in_bounds(x as int, y as int, elves.width as int, elves.height as int);
            }
            if *elves.get_unchecked(x, y) {
                if x < min_x {
                    min_x = x;
                }
                if x > max_x {
                    max_x = x;
                }
                if y < min_y {
                    min_y = y;
                }
                if y > max_y {
                    max_y = y;
                }
            }
            x += 1;
        }
        proof {
            assert((y + 1) * elves.width == y * elves.width + elves.width) by (nonlinear_arith);
        }
        y += 1;
    }
    proof {
        assert(elves.height * elves.width == elves.width * elves.height) by (nonlinear_arith);
    }
    ((min_x, min_y), (max_x, max_y))
}

/// How many of the first `k` places lie in the least rectangle round the
/// elves without holding one.
pub open spec fn empties(f: Field, k: nat) -> nat
    decreases k,
{
    if k == 0 {
        0
    } else {
        let x = (k - 1) % f.width;
        let y = (k - 1) / f.width;
        empties(f, (k - 1) as nat) + if !f.cells[k - 1] && least_x(f, f.cells.len()) <= x <= most_x(
            f,
            f.cells.len(),
        ) && least_y(f, f.cells.len()) <= y <= most_y(f, f.cells.len()) {
            1nat
        } else {
            0nat
        }
    }
}

/// Whether the elves have room round them in each of the first `n`
/// rounds.
pub open spec fn can_play(f: Field, n: nat) -> bool {
    forall|k: nat| k < n ==> (#[trigger] after_rounds(f, k)).roomy()
}

/// The rounds do not change the sides of the field.
pub proof fn lemma_rounds_sides(f: Field, k: nat)
    ensures
        after_rounds(f, k).width == f.width,
        after_rounds(f, k).height == f.height,
        after_rounds(f, k).cells.len() == f.cells.len(),
    decreases k,
{
    if k > 0 {
        lemma_rounds_sides(f, (k - 1) as nat);
    }
}

/// The directions after the first has gone to the end.
fn rotated(directions: &[Dir; 4], Ghost(k): Ghost<int>) -> (r: [Dir; 4])
    requires
        k >= 0,
        directions@ == dirs_of_round(k),
    ensures
        r@ == dirs_of_round(k + 1),
{
    let r = [directions[1], directions[2], directions[3], directions[0]];
    proof {
        assert(r@ =~= dirs_of_round(k + 1));
    }
    r
}

/// The free ground in the least rectangle round the elves after ten
/// rounds.
pub fn day23_1(input: &str) -> (r: usize)
    requires
        is_elf_map(input.spec_bytes()),
        can_play(start_field(input.spec_bytes()), 10),
    ensures
        r == empties(
            after_rounds(start_field(input.spec_bytes()), 10),
            start_field(input.spec_bytes()).cells.len(),
        ),
{
    let (mut elves, mut search_area) = parse_input(input);
    let ghost f0 = start_field(input.spec_bytes());
    let mut directions = [Dir::North, Dir::South, Dir::West, Dir::East];
    proof {
        assert(directions@ =~= dirs_of_round(0));
    }
    let mut round: usize = 0;
    while round < 10
        invariant
            round <= 10,
            elves.wf(),
            elves.width >= 3,
            elves.height >= 3,
            can_play(f0, 10),
            field_of(&elves) == after_rounds(f0, round as nat),
            directions@ == dirs_of_round(round as int),
            covers(field_of(&elves), search_area),
        decreases 10 - round,
    {
        proof {
            assert(after_rounds(f0, round as nat).roomy());
        }
        let (area, _) = round_once(&mut elves, &directions, search_area);
        search_area = area;
        directions = rotated(&directions, Ghost(round as int));
        round += 1;
    }
    let ghost f = field_of(&elves);
    proof {
        lemma_rounds_sides(f0, 10);
    }
    let ((x1, y1), (x2, y2)) = smallest_rectangle(&elves);
    let mut empty_groud: usize = 0;
    let mut y: usize = 0;
    while y < elves.height
        invariant
            elves.wf(),
            f == field_of(&elves),
            y <= elves.height,
            x1 == least_x(f, f.cells.len()),
            y1 == least_y(f, f.cells.len()),
            x2 == most_x(f, f.cells.len()),
            y2 == most_y(f, f.cells.len()),
            empty_groud == empties(f, (y * elves.width) as nat),
            empty_groud <= y * elves.width,
        decreases elves.height - y,
    {
        let mut x: usize = 0;
        while x < elves.width
            invariant
                elves.wf(),
                f == field_of(&elves),
                y < elves.height,
                x <= elves.width,
                x1 == least_x(f, f.cells.len()),
                y1 == least_y(f, f.cells.len()),
                x2 == most_x(f, f.cells.len()),
                y2 == most_y(f, f.cells.len()),
                empty_groud == empties(f, (y * elves.width + x) as nat),
                empty_groud <= y * elves.width + x,
            decreases elves.width - x,
        {
            proof {
                assert(0 <= y * elves.width) by (nonlinear_arith)
                    requires
                        0 <= y,
                        0 <= elves.width,
                ;
                vstd::arithmetic::div_mod::lemma_fundamental_div_mod_converse(
                    y * elves.width + x,
                    elves.width as int,
                    y as int,
                    x as int,
                );
                lemma_index_in_bounds(x as int, y as int, elves.width as int, elves.height as int);
            }
            if x1 <= x && x <= x2 && y1 <= y && y <= y2 && !*elves.get_unchecked(x, y) {
                empty_groud += 1;
            }
            x += 1;
        }
        proof {
            assert((y + 1) * elves.width == y * elves.width + elves.width) by (nonlinear_arith);
        }
        y += 1;
    }
    proof {
        assert(elves.height * elves.width == elves.width * elves.height) by (nonlinear_arith);
    }
    empty_groud
}

/// Whether round `k`, counted from 0, is the first in which no elf moves.
pub open spec fn is_first_still(f: Field, k: nat) -> bool {
    &&& !after_rounds(f, k).any_moves(dirs_of_round(k as int))
    &&& forall|j: nat| j < k ==> (#[trigger] after_rounds(f, j)).any_moves(dirs_of_round(j as int))
}

/// The number of the first round, counted from 1, in which no elf moves.
pub fn day23_2(input: &str) -> (r: usize)
    requires
        is_elf_map(input.spec_bytes()),
        exists|k: nat|
            k < usize::MAX && #[trigger] is_first_still(start_field(input.spec_bytes()), k)
                && can_play(start_field(input.spec_bytes()), k + 1),
    ensures
        r >= 1,
        is_first_still(start_field(input.spec_bytes()), (r - 1) as nat),
{
    let (mut elves, mut search_area) = parse_input(input);
    let ghost f0 = start_field(input.spec_bytes());
    let ghost last = choose|k: nat|
        k < usize::MAX && #[trigger] is_first_still(f0, k) && can_play(f0, k + 1);
    let mut directions = [Dir::North, Dir::South, Dir::West, Dir::East];
    proof {
        assert(directions@ =~= dirs_of_round(0));
    }
    let mut round: usize = 1;
    loop
        invariant
            1 <= round <= last + 1,
            last < usize::MAX,
            is_first_still(f0, last),
            can_play(f0, last + 1),
            f0 == start_field(input.spec_bytes()),
            elves.wf(),
            elves.width >= 3,
            elves.height >= 3,
            field_of(&elves) == after_rounds(f0, (round - 1) as nat),
            directions@ == dirs_of_round(round - 1),
            covers(field_of(&elves), search_area),
            forall|j: nat| j < round - 1 ==> (#[trigger] after_rounds(f0, j)).any_moves(
                dirs_of_round(j as int),
            ),
        decreases last + 1 - round,
    {
        proof {
            assert(after_rounds(f0, (round - 1) as nat).roomy());
        }
        let (area, elf_moved) = round_once(&mut elves, &directions, search_area);
        if !elf_moved {
            return round;
        }
        proof {
            if round - 1 == last {
                assert(false);
            }
        }
        search_area = area;
        directions = rotated(&directions, Ghost(round - 1));
        round += 1;
    }
}

} // verus!
