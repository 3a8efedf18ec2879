//! Lava droplets: cubes in a box, and the area of their surface.

use crate::text::{lines, lines_of, parse_int, parse_usize, split, split_on, views};
use crate::y2022::grid::filled;
use vstd::prelude::*;
use vstd::string::*;

verus! {

/// A cell of the box.
#[derive(Debug, PartialEq, Eq, Hash, Clone)]
pub struct Coord3d {
    pub x: usize,
    pub y: usize,
    pub z: usize,
}

impl Coord3d {
    pub fn new(x: usize, y: usize, z: usize) -> (r: Self)
        ensures
            r.x == x,
            r.y == y,
            r.z == z,
    {
        Self { x, y, z }
    }
}

/// A box of `width * height * depth` cells in one buffer; the cell
/// `(x, y, z)` is stored at `(z * height + y) * width + x`.
#[derive(Debug)]
pub struct Grid3d<T> {
    pub width: usize,
    pub height: usize,
    pub depth: usize,
    pub grid_raw: Vec<T>,
}

/// The index of the cell `(x, y, z)` in a box of `w` by `h` cells a layer.
pub open spec fn index3(w: int, h: int, x: int, y: int, z: int) -> int {
    z * w * h + y * w + x
}

/// A cell inside the box has its index inside the buffer, and different
/// cells have different indices.
pub proof fn lemma_index3(w: int, h: int, d: int, x: int, y: int, z: int)
    requires
        0 <= x < w,
        0 <= y < h,
        0 <= z < d,
    ensures
        0 <= z * w <= z * w * h,
        0 <= y * w,
        0 <= index3(w, h, x, y, z) < w * h * d,
{
    assert(0 <= z * w <= z * w * h) by (nonlinear_arith)
        requires
            0 <= z,
            0 < w,
            0 < h,
    ;
    assert(0 <= y * w && y * w + w <= w * h) by (nonlinear_arith)
        requires
            0 <= y < h,
            0 < w,
    ;
    assert(0 <= z * w * h && z * w * h + w * h <= w * h * d) by (nonlinear_arith)
        requires
            0 <= z < d,
            0 < w,
            0 < h,
    ;
}

impl<T> Grid3d<T> {
    /// The buffer holds exactly the cells of the box.
    pub open spec fn wf(&self) -> bool {
        self.width * self.height * self.depth == self.grid_raw.len()
    }

    /// Whether `c` lies inside the box.
    pub open spec fn inside(&self, c: Coord3d) -> bool {
        c.x < self.width && c.y < self.height && c.z < self.depth
    }

    /// The cell at `c`.
    pub open spec fn cell(&self, c: Coord3d) -> T {
        self.grid_raw@[index3(
            self.width as int,
            self.height as int,
            c.x as int,
            c.y as int,
            c.z as int,
        )]
    }

    /// A box over `grid_raw`, which must hold `width * height * depth`
    /// cells.
    pub fn from_vec(width: usize, height: usize, depth: usize, grid_raw: Vec<T>) -> (g: Self)
        requires
            width * height * depth == grid_raw.len(),
        ensures
            g.wf(),
            g.width == width,
            g.height == height,
            g.depth == depth,
            g.grid_raw == grid_raw,
    {
        Self { width, height, depth, grid_raw }
    }

    /// The cell at `c`, which must lie inside the box.
    pub fn get_unchecked(&self, c: &Coord3d) -> (r: &T)
        requires
            self.wf(),
            self.inside(*c),
        ensures
            *r == self.cell(*c),
    {
        proof {
            lemma_index3(
                self.width as int,
                self.height as int,
                self.depth as int,
                c.x as int,
                c.y as int,
                c.z as int,
            );
        }
        &self.grid_raw[c.z * self.width * self.height + c.y * self.width + c.x]
    }

    /// The cell at `c`, which must lie inside the box, for writing.
    pub fn get_mut_unchecked(&mut self, c: &Coord3d) -> (r: &mut T)
        requires
            old(self).wf(),
            old(self).inside(*c),
        ensures
            *r == old(self).cell(*c),
            final(self).width == old(self).width,
            final(self).height == old(self).height,
            final(self).depth == old(self).depth,
            final(self).grid_raw@ == old(self).grid_raw@.update(
                index3(
                    old(self).width as int,
                    old(self).height as int,
                    c.x as int,
                    c.y as int,
                    c.z as int,
                ),
                *final(r),
            ),
    {
        proof {
            lemma_index3(
                self.width as int,
                self.height as int,
                self.depth as int,
                c.x as int,
                c.y as int,
                c.z as int,
            );
        }
        &mut self.grid_raw[c.z * self.width * self.height + c.y * self.width + c.x]
    }
}


/// A cell, as a value of mathematics.
pub type Cell = (int, int, int);

/// The cell that a line names: three numbers with commas between them,
/// each raised by one, so that no cube touches the sides of the box. What
/// follows a third comma does not count.
pub open spec fn cell_of_line(line: Seq<u8>) -> Option<Cell> {
    let parts = split_on(line, seq![44u8]);
    if parts.len() < 3 {
        None
    } else {
        match (
            parse_int(parts[0], 0, usize::MAX as int),
            parse_int(parts[1], 0, usize::MAX as int),
            parse_int(parts[2], 0, usize::MAX as int),
        ) {
            (Some(x), Some(y), Some(z)) => Some((x + 1, y + 1, z + 1)),
            _ => None,
        }
    }
}

/// Whether the cell lies inside the box of 22 cells a side without
/// touching its sides.
pub open spec fn is_inner(c: Cell) -> bool {
    1 <= c.0 <= 20 && 1 <= c.1 <= 20 && 1 <= c.2 <= 20
}

/// Whether every line names a cell that lies inside the box without
/// touching its sides.
pub open spec fn is_scan(s: Seq<u8>) -> bool {
    forall|i: int|
        0 <= i < lines_of(s).len() ==> cell_of_line(#[trigger] lines_of(s)[i]) is Some && is_inner(
            cell_of_line(lines_of(s)[i])->0,
        )
}

/// The cells that the lines name.
pub open spec fn cells_of(ls: Seq<Seq<u8>>) -> Seq<Cell> {
    Seq::new(ls.len(), |i: int| cell_of_line(ls[i])->0)
}

impl Coord3d {
    /// The cell as a value of mathematics.
    pub open spec fn view(&self) -> Cell {
        (self.x as int, self.y as int, self.z as int)
    }
}

/// The cells of `v`, as values of mathematics.
pub open spec fn cell_views(v: Seq<Coord3d>) -> Seq<Cell> {
    Seq::new(v.len(), |i: int| v[i]@)
}

/// The cells that the lines of the text name.
pub fn parse_input(input: &str) -> (r: Vec<Coord3d>)
    requires
        is_scan(input.spec_bytes()),
    ensures
        cell_views(r@) == cells_of(lines_of(input.spec_bytes())),
{
    let ls = lines(input.as_bytes());
    let ghost lv = lines_of(input.spec_bytes());
    let comma: [u8; 1] = [44];
    proof {
        assert(comma@ =~= seq![44u8]);
    }
    let mut out: Vec<Coord3d> = Vec::new();
    let mut i: usize = 0;
    while i < ls.len()
        invariant
            i <= ls.len(),
            lv == views(ls@),
            lv == lines_of(input.spec_bytes()),
            is_scan(input.spec_bytes()),
            comma@ == seq![44u8],
            out@.len() == i,
            forall|k: int| 0 <= k < i ==> (#[trigger] out@[k])@ == cell_of_line(lv[k])->0,
        decreases ls.len() - i,
    {
        assert(ls@[i as int]@ == lv[i as int]);
        assert(cell_of_line(lv[i as int]) is Some && is_inner(cell_of_line(lv[i as int])->0));
        let parts = split(ls[i].as_slice(), comma.as_slice());
        proof {
            assert(views(parts@).len() == parts@.len());
            assert(parts@[0]@ == views(parts@)[0]);
            assert(parts@[1]@ == views(parts@)[1]);
            assert(parts@[2]@ == views(parts@)[2]);
        }
        let x = parse_usize(parts[0].as_slice());
        let y = parse_usize(parts[1].as_slice());
        let z = parse_usize(parts[2].as_slice());
        match (x, y, z) {
            (Some(x), Some(y), Some(z)) => {
                out.push(Coord3d::new(x + 1, y + 1, z + 1));
            },
            _ => {
                assert(false);
            },
        }
        i += 1;
    }
    proof {
        assert(cell_views(out@) =~= cells_of(lv));
    }
    out
}

/// The six cells that share a side with `c`.
pub open spec fn neighbours(c: Cell) -> Seq<Cell> {
    seq![
        (c.0 - 1, c.1, c.2),
        (c.0 + 1, c.1, c.2),
        (c.0, c.1 - 1, c.2),
        (c.0, c.1 + 1, c.2),
        (c.0, c.1, c.2 - 1),
        (c.0, c.1, c.2 + 1),
    ]
}

/// How many of the first `k` neighbours of `c` are in `lava`.
pub open spec fn lava_beside(lava: Set<Cell>, c: Cell, k: nat) -> nat
    decreases k,
{
    if k == 0 {
        0
    } else {
        lava_beside(lava, c, (k - 1) as nat) + if lava.contains(neighbours(c)[k - 1]) {
            1nat
        } else {
            0nat
        }
    }
}

/// The cells among the first `k` of `cs`.
pub open spec fn dropped(cs: Seq<Cell>, k: nat) -> Set<Cell>
    decreases k,
{
    if k == 0 {
        Set::empty()
    } else {
        dropped(cs, (k - 1) as nat).insert(cs[k - 1])
    }
}

/// The area counted after the first `k` cubes have been put down: each
/// adds its six sides and takes away two for every cube already beside
/// it.
pub open spec fn area_after(cs: Seq<Cell>, k: nat) -> int
    decreases k,
{
    if k == 0 {
        0
    } else {
        area_after(cs, (k - 1) as nat) + 6 - 2 * lava_beside(
            dropped(cs, (k - 1) as nat),
            cs[k - 1],
            6,
        )
    }
}

/// Whether the grid is the box of 22 cells a side and holds exactly the
/// cells of `lava`.
#[verifier::opaque]
pub open spec fn holds(field: &Grid3d<bool>, lava: Set<Cell>) -> bool {
    &&& field.wf()
    &&& field.width == 22
    &&& field.height == 22
    &&& field.depth == 22
    &&& forall|x: int, y: int, z: int|
        0 <= x < 22 && 0 <= y < 22 && 0 <= z < 22 ==> #[trigger] field.grid_raw@[index3(
            22,
            22,
            x,
            y,
            z,
        )] == lava.contains((x, y, z))
}

/// Whether `(x, y, z)` of the box is set.
fn is_set(field: &Grid3d<bool>, x: usize, y: usize, z: usize, Ghost(lava): Ghost<Set<Cell>>) -> (r:
    bool)
    requires
        holds(field, lava),
        x < 22,
        y < 22,
        z < 22,
    ensures
        r == lava.contains((x as int, y as int, z as int)),
{
    proof {
        reveal(holds);
    }
    let c = Coord3d { x, y, z };
    *field.get_unchecked(&c)
}

/// Sets the cell `c` of the box.
fn put(field: &mut Grid3d<bool>, c: &Coord3d, Ghost(lava): Ghost<Set<Cell>>)
    requires
        holds(old(field), lava),
        c.x < 22,
        c.y < 22,
        c.z < 22,
    ensures
        holds(final(field), lava.insert(c@)),
{
    proof {
        reveal(holds);
    }
    let cell = field.get_mut_unchecked(c);
    *cell = true;
    proof {
        assert forall|x: int, y: int, z: int|
            0 <= x < 22 && 0 <= y < 22 && 0 <= z < 22 implies #[trigger] field.grid_raw@[index3(
            22,
            22,
            x,
            y,
            z,
        )] == lava.insert(c@).contains((x, y, z)) by {
            assert(index3(22, 22, x, y, z) == z * 484 + y * 22 + x);
            assert(index3(22, 22, c.x as int, c.y as int, c.z as int) == c.z * 484 + c.y * 22
                + c.x);
        }
    }
}

/// The box of 22 cells a side with nothing in it.
fn empty_box() -> (r: Grid3d<bool>)
    ensures
        holds(&r, Set::empty()),
{
    proof {
        reveal(holds);
    }
    Grid3d::from_vec(22, 22, 22, filled(10648, false))
}

/// How many of the six cells beside `c` are set.
fn count_beside(field: &Grid3d<bool>, c: &Coord3d, Ghost(lava): Ghost<Set<Cell>>) -> (r: usize)
    requires
        holds(field, lava),
        is_inner(c@),
    ensures
        r == lava_beside(lava, c@, 6),
        r <= 6,
{
    proof {
        reveal_with_fuel(lava_beside, 7);
    }
    let mut n: usize = 0;
    if is_set(field, c.x - 1, c.y, c.z, Ghost(lava)) {
        n += 1;
    }
    if is_set(field, c.x + 1, c.y, c.z, Ghost(lava)) {
        n += 1;
    }
    if is_set(field, c.x, c.y - 1, c.z, Ghost(lava)) {
        n += 1;
    }
    if is_set(field, c.x, c.y + 1, c.z, Ghost(lava)) {
        n += 1;
    }
    if is_set(field, c.x, c.y, c.z - 1, Ghost(lava)) {
        n += 1;
    }
    if is_set(field, c.x, c.y, c.z + 1, Ghost(lava)) {
        n += 1;
    }
    n
}

/// The area of the sides of the cubes that no other cube covers, counted
/// cube by cube.
pub fn day18_1(input: &str) -> (r: usize)
    requires
        is_scan(input.spec_bytes()),
        forall|k: nat|
            k <= lines_of(input.spec_bytes()).len() ==> 0 <= #[trigger] area_after(
                cells_of(lines_of(input.spec_bytes())),
                k,
            ) <= usize::MAX - 6,
    ensures
        r == area_after(
            cells_of(lines_of(input.spec_bytes())),
            lines_of(input.spec_bytes()).len(),
        ),
{
    let coords = parse_input(input);
    let ghost cs = cells_of(lines_of(input.spec_bytes()));
    let mut field = empty_box();
    let mut surface_area: usize = 0;
    let mut i: usize = 0;
    while i < coords.len()
        invariant
            i <= coords.len(),
            cell_views(coords@) == cs,
            cs.len() == coords.len(),
            forall|k: int| 0 <= k < cs.len() ==> is_inner(#[trigger] cs[k]),
            holds(&field, dropped(cs, i as nat)),
            surface_area == area_after(cs, i as nat),
            forall|k: nat| k <= cs.len() ==> 0 <= #[trigger] area_after(cs, k) <= usize::MAX - 6,
        decreases coords.len() - i,
    {
        let c = &coords[i];
        proof {
            assert(cell_views(coords@)[i as int] == c@);
            assert(is_inner(cs[i as int]));
            assert(0 <= area_after(cs, (i + 1) as nat));
        }
        let beside = count_beside(&field, c, Ghost(dropped(cs, i as nat)));
        put(&mut field, c, Ghost(dropped(cs, i as nat)));
        surface_area = surface_area + 6 - 2 * beside;
        i += 1;
    }
    surface_area
}


/// Whether the cell lies inside the box of 22 cells a side.
pub open spec fn in_box(c: Cell) -> bool {
    0 <= c.0 < 22 && 0 <= c.1 < 22 && 0 <= c.2 < 22
}

/// Whether the two cells share a side.
pub open spec fn beside(a: Cell, b: Cell) -> bool {
    ||| (a.1 == b.1 && a.2 == b.2 && (a.0 == b.0 + 1 || b.0 == a.0 + 1))
    ||| (a.0 == b.0 && a.2 == b.2 && (a.1 == b.1 + 1 || b.1 == a.1 + 1))
    ||| (a.0 == b.0 && a.1 == b.1 && (a.2 == b.2 + 1 || b.2 == a.2 + 1))
}

/// Whether `p` is a way of the steam: from the corner of the box, through
/// cells of the box without lava, each beside the one before it.
pub open spec fn is_steam_way(lava: Set<Cell>, p: Seq<Cell>) -> bool {
    &&& p.len() > 0
    &&& p[0] == (0int, 0int, 0int)
    &&& forall|i: int| 0 <= i < p.len() ==> in_box(#[trigger] p[i]) && !lava.contains(p[i])
    &&& forall|i: int| 0 <= i < p.len() - 1 ==> beside(#[trigger] p[i], p[i + 1])
}

/// Whether the steam reaches the cell.
#[verifier::opaque]
pub open spec fn steam_reaches(lava: Set<Cell>, c: Cell) -> bool {
    exists|p: Seq<Cell>| is_steam_way(lava, p) && #[trigger] p.last() == c
}

/// The cell with the index `i` in the box.
pub open spec fn cell_at(i: int) -> Cell {
    (i % 22, (i / 22) % 22, i / 484)
}

/// The area of the sides of lava that the first `k` of the cells in
/// `steam` touch.
pub open spec fn touched(steam: Set<Cell>, lava: Set<Cell>, k: nat) -> nat
    decreases k,
{
    if k == 0 {
        0
    } else {
        touched(steam, lava, (k - 1) as nat) + if steam.contains(cell_at(k - 1)) {
            lava_beside(lava, cell_at(k - 1), 6)
        } else {
            0
        }
    }
}

/// How many of the first `k` cells of the box are in `steam`.
pub open spec fn count_in(steam: Set<Cell>, k: nat) -> nat
    decreases k,
{
    if k == 0 {
        0
    } else {
        count_in(steam, (k - 1) as nat) + if steam.contains(cell_at(k - 1)) {
            1nat
        } else {
            0nat
        }
    }
}

/// The cells that the steam reaches.
pub open spec fn steam_of(lava: Set<Cell>) -> Set<Cell> {
    Set::new(|c: Cell| steam_reaches(lava, c))
}

/// The area of the sides of lava that the steam touches.
pub open spec fn outer_area(lava: Set<Cell>) -> nat {
    touched(steam_of(lava), lava, 10648)
}

/// One more cell of steam touches the lava beside it.
pub proof fn lemma_touched_more(steam: Set<Cell>, lava: Set<Cell>, c: Cell, k: nat)
    requires
        in_box(c),
        !steam.contains(c),
        k <= 10648,
    ensures
        touched(steam.insert(c), lava, k) == touched(steam, lava, k) + if c.2 * 484 + c.1 * 22 + c.0
            < k {
            lava_beside(lava, c, 6)
        } else {
            0
        },
        count_in(steam.insert(c), k) == count_in(steam, k) + if c.2 * 484 + c.1 * 22 + c.0 < k {
            1nat
        } else {
            0nat
        },
        count_in(steam, k) <= k,
    decreases k,
{
    if k > 0 {
        lemma_touched_more(steam, lava, c, (k - 1) as nat);
        let d = cell_at(k - 1);
        assert(d == c <==> k - 1 == c.2 * 484 + c.1 * 22 + c.0);
    }
}

/// What the same cells of steam touch is the same.
pub proof fn lemma_touched_same(a: Set<Cell>, b: Set<Cell>, lava: Set<Cell>, k: nat)
    requires
        k <= 10648,
        forall|c: Cell| in_box(c) ==> (a.contains(c) <==> b.contains(c)),
    ensures
        touched(a, lava, k) == touched(b, lava, k),
    decreases k,
{
    if k > 0 {
        lemma_touched_same(a, b, lava, (k - 1) as nat);
        assert(in_box(cell_at(k - 1)));
    }
}

/// Whether the cell is the view of a cell on the stack.
pub open spec fn on_stack(stack: Seq<Coord3d>, c: Cell) -> bool {
    exists|i: int| 0 <= i < stack.len() && (#[trigger] stack[i])@ == c
}

/// Whether every cell without lava beside a cell of `seen` is in `seen`
/// itself or waits on the stack.
#[verifier::opaque]
pub open spec fn closed(seen: Set<Cell>, stack: Seq<Coord3d>, lava: Set<Cell>) -> bool {
    forall|v: Cell, n: Cell|
        #![trigger seen.contains(v), beside(v, n)]
        seen.contains(v) && beside(v, n) && in_box(n) && !lava.contains(n) ==> seen.contains(n)
            || on_stack(stack, n)
}

/// A set of cells that holds the corner and every cell without lava
/// beside one of its own holds every cell on a way of the steam.
pub proof fn lemma_closed_holds_way(seen: Set<Cell>, lava: Set<Cell>, p: Seq<Cell>, i: int)
    requires
        is_steam_way(lava, p),
        0 <= i < p.len(),
        seen.contains((0int, 0int, 0int)),
        closed(seen, Seq::empty(), lava),
    ensures
        seen.contains(p[i]),
    decreases i,
{
    reveal(closed);
    if i > 0 {
        lemma_closed_holds_way(seen, lava, p, i - 1);
        assert(beside(p[i - 1], p[i - 1 + 1]));
        assert(!on_stack(Seq::<Coord3d>::empty(), p[i]));
    }
}

/// A way of the steam can go on to a cell without lava beside its end.
pub proof fn lemma_steam_goes_on(lava: Set<Cell>, a: Cell, b: Cell)
    requires
        steam_reaches(lava, a),
        beside(a, b),
        in_box(b),
        !lava.contains(b),
    ensures
        steam_reaches(lava, b),
{
    reveal(steam_reaches);
    let p = choose|p: Seq<Cell>| is_steam_way(lava, p) && #[trigger] p.last() == a;
    let q = p.push(b);
    assert forall|i: int| 0 <= i < q.len() implies in_box(#[trigger] q[i]) && !lava.contains(
        q[i],
    ) by {
        if i < p.len() {
            assert(q[i] == p[i]);
        }
    }
    assert forall|i: int| 0 <= i < q.len() - 1 implies beside(#[trigger] q[i], q[i + 1]) by {
        if i < p.len() - 1 {
            assert(q[i] == p[i]);
            assert(q[i + 1] == p[i + 1]);
        }
    }
    assert(is_steam_way(lava, q) && q.last() == b);
}

/// Looks at the cell `n` beside a cell of steam: says whether it holds
/// lava, and puts it on the stack if it does not.
fn look(field: &Grid3d<bool>, n: Coord3d, stack: &mut Vec<Coord3d>, Ghost(lava): Ghost<Set<Cell>>) -> (hit:
    bool)
    requires
        holds(field, lava),
        in_box(n@),
    ensures
        hit == lava.contains(n@),
        hit ==> final(stack)@ == old(stack)@,
        !hit ==> final(stack)@ == old(stack)@.push(n),
{
    proof {
        reveal(holds);
    }
    if *field.get_unchecked(&n) {
        true
    } else {
        stack.push(n);
        false
    }
}

/// The area of the sides of the cubes that steam from outside reaches.
pub fn day18_2(input: &str) -> (r: usize)
    requires
        is_scan(input.spec_bytes()),
    ensures
        r == outer_area(
            dropped(
                cells_of(lines_of(input.spec_bytes())),
                lines_of(input.spec_bytes()).len(),
            ),
        ),
{
    let coords = parse_input(input);
    let ghost cs = cells_of(lines_of(input.spec_bytes()));
    let mut field = empty_box();
    let mut i: usize = 0;
    while i < coords.len()
        invariant
            i <= coords.len(),
            cell_views(coords@) == cs,
            cs.len() == coords.len(),
            forall|k: int| 0 <= k < cs.len() ==> is_inner(#[trigger] cs[k]),
            holds(&field, dropped(cs, i as nat)),
            forall|c: Cell| #[trigger] dropped(cs, i as nat).contains(c) ==> is_inner(c),
        decreases coords.len() - i,
    {
        let c = &coords[i];
        proof {
            assert(cell_views(coords@)[i as int] == c@);
            assert(is_inner(cs[i as int]));
        }
        put(&mut field, c, Ghost(dropped(cs, i as nat)));
        i += 1;
    }
    let ghost lava = dropped(cs, cs.len());
    let surface = fill_with_steam(&field, Ghost(lava));
    surface
}

/// Lets steam spread from the corner of the box through the cells without
/// lava, and counts the sides of lava that it touches.
fn fill_with_steam(field: &Grid3d<bool>, Ghost(lava): Ghost<Set<Cell>>) -> (r: usize)
    requires
        holds(field, lava),
        forall|c: Cell| #[trigger] lava.contains(c) ==> is_inner(c),
    ensures
        r == outer_area(lava),
{
    let mut visited = empty_box();
    let ghost mut seen: Set<Cell> = Set::empty();
    let mut surface_area: usize = 0;
    let mut coords_next: Vec<Coord3d> = Vec::new();
    coords_next.push(Coord3d::new(0, 0, 0));
    let ghost origin = (0int, 0int, 0int);
    proof {
        reveal(closed);
        reveal(sound_stack);
        reveal(holds);
        reveal(steam_reaches);
        reveal(seen_ok);
        assert(coords_next@[0]@ == origin);
        assert(is_steam_way(lava, seq![origin]) && seq![origin].last() == origin);
        assert(!lava.contains(origin));
        lemma_touched_zero(lava, 10648);
    }
    loop
        invariant
            holds(field, lava),
            holds(&visited, seen),
            forall|c: Cell| #[trigger] lava.contains(c) ==> is_inner(c),
            origin == (0int, 0int, 0int),
            seen_ok(seen, lava),
            sound_stack(coords_next@, lava),
            closed(seen, coords_next@, lava),
            seen.contains(origin) || on_stack(coords_next@, origin),
            surface_area == touched(seen, lava, 10648),
            surface_area <= 6 * count_in(seen, 10648),
            count_in(seen, 10648) <= 10648,
        ensures
            coords_next@.len() == 0,
            closed(seen, coords_next@, lava),
            seen.contains(origin),
            seen_ok(seen, lava),
            surface_area == touched(seen, lava, 10648),
        decreases 10648 - count_in(seen, 10648), coords_next@.len(),
    {
        let ghost stack0 = coords_next@;
        let c = match coords_next.pop() {
            Some(c) => c,
            None => {
                proof {
                    assert(!on_stack(coords_next@, origin));
                }
                break ;
            },
        };
        let ghost stack1 = coords_next@;
        proof {
            assert(stack0[stack0.len() - 1] == c);
            lemma_popped(seen, stack0, stack1, c, lava);
            lemma_top(stack0, lava);
        }
        if is_set(&visited, c.x, c.y, c.z, Ghost(seen)) {
            continue ;
        }
        put(&mut visited, &c, Ghost(seen));
        let ghost seen0 = seen;
        proof {
            lemma_touched_more(seen, lava, c@, 10648);
            lemma_seen_more(seen, lava, c@);
            lemma_count_bound(seen.insert(c@), 10648);
            seen = seen.insert(c@);
        }
        let found = look_round(field, &c, &mut coords_next, Ghost(lava));
        proof {
            lemma_visit(seen0, stack0, stack1, coords_next@, c, lava);
        }
        surface_area = surface_area + found;
    }
    proof {
        reveal(steam_reaches);
        reveal(seen_ok);
        let steam = steam_of(lava);
        assert forall|c: Cell| in_box(c) implies (seen.contains(c) <==> steam.contains(c)) by {
            if steam.contains(c) {
                let p = choose|p: Seq<Cell>| is_steam_way(lava, p) && #[trigger] p.last() == c;
                assert(closed(seen, Seq::empty(), lava)) by {
                    assert(coords_next@ =~= Seq::<Coord3d>::empty());
                }
                lemma_closed_holds_way(seen, lava, p, p.len() - 1);
            }
        }
        lemma_touched_same(seen, steam, lava, 10648);
    }
    surface_area
}

/// No cell of steam touches nothing.
proof fn lemma_touched_zero(lava: Set<Cell>, k: nat)
    ensures
        touched(Set::empty(), lava, k) == 0,
        count_in(Set::empty(), k) == 0,
    decreases k,
{
    if k > 0 {
        lemma_touched_zero(lava, (k - 1) as nat);
    }
}

/// Whether the stack is good: its cells lie in the box, hold no lava, and
/// the steam reaches them.
#[verifier::opaque]
pub open spec fn sound_stack(stack: Seq<Coord3d>, lava: Set<Cell>) -> bool {
    forall|i: int|
        0 <= i < stack.len() ==> in_box((#[trigger] stack[i])@) && !lava.contains(stack[i]@)
            && steam_reaches(lava, stack[i]@)
}

/// A grid that holds cells of the box has the sides of the box.
proof fn lemma_box_sides(field: &Grid3d<bool>, lava: Set<Cell>)
    requires
        holds(field, lava),
    ensures
        field.width == 22,
        field.height == 22,
        field.depth == 22,
{
    reveal(holds);
}

/// No more cells are counted than there are.
proof fn lemma_count_bound(steam: Set<Cell>, k: nat)
    ensures
        count_in(steam, k) <= k,
    decreases k,
{
    if k > 0 {
        lemma_count_bound(steam, (k - 1) as nat);
    }
}

/// Whether every cell seen lies in the box, holds no lava, and is reached
/// by the steam.
#[verifier::opaque]
pub open spec fn seen_ok(seen: Set<Cell>, lava: Set<Cell>) -> bool {
    forall|c: Cell| #[trigger]
        seen.contains(c) ==> in_box(c) && !lava.contains(c) && steam_reaches(lava, c)
}

/// One more cell of steam may be seen.
proof fn lemma_seen_more(seen: Set<Cell>, lava: Set<Cell>, c: Cell)
    requires
        seen_ok(seen, lava),
        in_box(c),
        !lava.contains(c),
        steam_reaches(lava, c),
    ensures
        seen_ok(seen.insert(c), lava),
{
    reveal(seen_ok);
}

/// The top cell of a good stack is a cell of steam.
proof fn lemma_top(stack: Seq<Coord3d>, lava: Set<Cell>)
    requires
        stack.len() > 0,
        sound_stack(stack, lava),
    ensures
        in_box(stack.last()@),
        !lava.contains(stack.last()@),
        steam_reaches(lava, stack.last()@),
{
    reveal(sound_stack);
}

/// Taking the top cell off the stack leaves the cells seen closed, if the
/// top cell was seen already.
proof fn lemma_popped(
    seen: Set<Cell>,
    stack0: Seq<Coord3d>,
    stack1: Seq<Coord3d>,
    c: Coord3d,
    lava: Set<Cell>,
)
    requires
        stack0.len() > 0,
        stack1 == stack0.drop_last(),
        stack0.last() == c,
        closed(seen, stack0, lava),
        sound_stack(stack0, lava),
        seen.contains((0int, 0int, 0int)) || on_stack(stack0, (0int, 0int, 0int)),
    ensures
        sound_stack(stack1, lava),
        seen.contains(c@) ==> closed(seen, stack1, lava) && (seen.contains((0int, 0int, 0int))
            || on_stack(stack1, (0int, 0int, 0int))),
        forall|n: Cell| on_stack(stack0, n) ==> on_stack(stack1, n) || n == c@,
{
    reveal(closed);
    reveal(sound_stack);
    assert forall|n: Cell| on_stack(stack0, n) implies on_stack(stack1, n) || n == c@ by {
        let k = choose|k: int| 0 <= k < stack0.len() && (#[trigger] stack0[k])@ == n;
        if k < stack1.len() {
            assert(stack1[k] == stack0[k]);
        }
    }
    assert forall|i: int| 0 <= i < stack1.len() implies in_box((#[trigger] stack1[i])@)
        && !lava.contains(stack1[i]@) && steam_reaches(lava, stack1[i]@) by {
        assert(stack1[i] == stack0[i]);
    }
}

/// After a new cell of steam has been seen and the cells round it have
/// been looked at, the cells seen are closed again.
proof fn lemma_visit(
    seen0: Set<Cell>,
    stack0: Seq<Coord3d>,
    stack1: Seq<Coord3d>,
    stack2: Seq<Coord3d>,
    c: Coord3d,
    lava: Set<Cell>,
)
    requires
        stack0.len() > 0,
        stack1 == stack0.drop_last(),
        stack0.last() == c,
        !seen0.contains(c@),
        in_box(c@),
        closed(seen0, stack0, lava),
        sound_stack(stack0, lava),
        seen0.contains((0int, 0int, 0int)) || on_stack(stack0, (0int, 0int, 0int)),
        stack1.len() <= stack2.len(),
        stack2.subrange(0, stack1.len() as int) == stack1,
        forall|i: int|
            stack1.len() <= i < stack2.len() ==> in_box((#[trigger] stack2[i])@) && !lava.contains(
                stack2[i]@,
            ) && beside(c@, stack2[i]@),
        forall|m: Cell|
            beside(c@, m) && in_box(m) && !lava.contains(m) ==> exists|i: int|
                stack1.len() <= i < stack2.len() && (#[trigger] stack2[i])@ == m,
    ensures
        sound_stack(stack2, lava),
        closed(seen0.insert(c@), stack2, lava),
        seen0.insert(c@).contains((0int, 0int, 0int)) || on_stack(stack2, (0int, 0int, 0int)),
{
    reveal(closed);
    reveal(sound_stack);
    let seen = seen0.insert(c@);
    lemma_popped(seen0, stack0, stack1, c, lava);
    assert(steam_reaches(lava, c@));
    assert forall|n: Cell| on_stack(stack1, n) implies on_stack(stack2, n) by {
        let k = choose|k: int| 0 <= k < stack1.len() && (#[trigger] stack1[k])@ == n;
        assert(stack2.subrange(0, stack1.len() as int)[k] == stack2[k]);
    }
    assert forall|i: int| 0 <= i < stack2.len() implies in_box((#[trigger] stack2[i])@)
        && !lava.contains(stack2[i]@) && steam_reaches(lava, stack2[i]@) by {
        if i < stack1.len() {
            assert(stack2.subrange(0, stack1.len() as int)[i] == stack2[i]);
        } else {
            lemma_steam_goes_on(lava, c@, stack2[i]@);
        }
    }
    assert forall|v: Cell, n: Cell|
        #![trigger seen.contains(v), beside(v, n)]
        seen.contains(v) && beside(v, n) && in_box(n) && !lava.contains(n) implies seen.contains(
        n,
    ) || on_stack(stack2, n) by {
        if v != c@ {
            assert(seen0.contains(v));
            if !seen0.contains(n) {
                assert(on_stack(stack0, n));
            }
        } else {
            let i = choose|i: int| stack1.len() <= i < stack2.len() && (#[trigger] stack2[i])@ == n;
            assert(stack2[i]@ == n);
        }
    }
}

/// Looks at the six cells round `c`, as far as they lie in the box.
#[verifier::rlimit(60)]
fn look_round(
    field: &Grid3d<bool>,
    c: &Coord3d,
    stack: &mut Vec<Coord3d>,
    Ghost(lava): Ghost<Set<Cell>>,
) -> (found: usize)
    requires
        holds(field, lava),
        in_box(c@),
        forall|m: Cell| #[trigger] lava.contains(m) ==> is_inner(m),
    ensures
        found == lava_beside(lava, c@, 6),
        found <= 6,
        old(stack)@.len() <= final(stack)@.len(),
        final(stack)@.subrange(0, old(stack)@.len() as int) == old(stack)@,
        forall|i: int|
            old(stack)@.len() <= i < final(stack)@.len() ==> in_box((#[trigger] final(stack)@[i])@)
                && !lava.contains(final(stack)@[i]@) && beside(c@, final(stack)@[i]@),
        forall|m: Cell|
            beside(c@, m) && in_box(m) && !lava.contains(m) ==> exists|i: int|
                old(stack)@.len() <= i < final(stack)@.len() && (#[trigger] final(stack)@[i])@ == m,
{
    proof {
        reveal_with_fuel(lava_beside, 7);
        lemma_box_sides(field, lava);
    }
    let ghost before = stack@;
    let mut found: usize = 0;
    if c.x != 0 {
        if look(field, Coord3d::new(c.x - 1, c.y, c.z), stack, Ghost(lava)) {
            found += 1;
        }
    }
    let ghost s1 = stack@;
    if c.x + 1 < field.width {
        if look(field, Coord3d::new(c.x + 1, c.y, c.z), stack, Ghost(lava)) {
            found += 1;
        }
    }
    let ghost s2 = stack@;
    if c.y != 0 {
        if look(field, Coord3d::new(c.x, c.y - 1, c.z), stack, Ghost(lava)) {
            found += 1;
        }
    }
    let ghost s3 = stack@;
    if c.y + 1 < field.height {
        if look(field, Coord3d::new(c.x, c.y + 1, c.z), stack, Ghost(lava)) {
            found += 1;
        }
    }
    let ghost s4 = stack@;
    if c.z != 0 {
        if look(field, Coord3d::new(c.x, c.y, c.z - 1), stack, Ghost(lava)) {
            found += 1;
        }
    }
    let ghost s5 = stack@;
    if c.z + 1 < field.depth {
        if look(field, Coord3d::new(c.x, c.y, c.z + 1), stack, Ghost(lava)) {
            found += 1;
        }
    }
    proof {
        let s6 = stack@;
        assert(s6.subrange(0, before.len() as int) =~= before);
        assert forall|m: Cell|
            beside(c@, m) && in_box(m) && !lava.contains(m) implies exists|i: int|
            before.len() <= i < s6.len() && (#[trigger] s6[i])@ == m by {
            if m == (c.x - 1, c.y as int, c.z as int) {
                assert(s1.last()@ == m);
                assert(s6[s1.len() - 1] == s1.last());
            } else if m == (c.x + 1, c.y as int, c.z as int) {
                assert(s2.last()@ == m);
                assert(s6[s2.len() - 1] == s2.last());
            } else if m == (c.x as int, c.y - 1, c.z as int) {
                assert(s3.last()@ == m);
                assert(s6[s3.len() - 1] == s3.last());
            } else if m == (c.x as int, c.y + 1, c.z as int) {
                assert(s4.last()@ == m);
                assert(s6[s4.len() - 1] == s4.last());
            } else if m == (c.x as int, c.y as int, c.z - 1) {
                assert(s5.last()@ == m);
                assert(s6[s5.len() - 1] == s5.last());
            } else {
                assert(m == (c.x as int, c.y as int, c.z + 1));
                assert(s6.last()@ == m);
            }
        }
    }
    found
}

} // verus!
