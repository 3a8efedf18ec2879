//! A loop of pipes, walked from its start, and the tiles it encloses.

use crate::y2023::grid::{
    cell_index,
    is_block,
    picture_in,
    picture_of,
    AsciiGrid,
    Coord,
    Direction,
    Grid,
    MutGrid,
    Picture,
    VecGrid,
};
use vstd::prelude::*;
use vstd::string::*;

verus! {

#[derive(Debug, PartialEq, Eq)]
pub enum Day10Error {
    StartNotFound,
    NextPipeFromStartNotFound,
    BothSidesTouchEdge,
}

/// A tile of the map.
#[derive(Debug, Clone, Copy, PartialEq, Eq, Structural)]
pub struct Pipe(pub u8);

impl Pipe {
    /// Whether the tile is the start.
    pub open spec fn spec_is_start(self) -> bool {
        self.0 == 83
    }

    /// Whether the tile has an opening towards `dir`; the start has one
    /// towards every side.
    pub open spec fn connects(self, dir: Direction) -> bool {
        self.spec_is_start() || match dir {
            Direction::Up => self.0 == 124 || self.0 == 76 || self.0 == 74,
            Direction::Down => self.0 == 124 || self.0 == 70 || self.0 == 55,
            Direction::Left => self.0 == 45 || self.0 == 55 || self.0 == 74,
            Direction::Right => self.0 == 45 || self.0 == 76 || self.0 == 70,
        }
    }

    pub fn connects_to(&self, dir: Direction) -> (r: bool)
        ensures
            r == self.connects(dir),
    {
        if self.is_start() {
            return true;
        }
        match dir {
            Direction::Up => self.0 == 124 || self.0 == 76 || self.0 == 74,
            Direction::Down => self.0 == 124 || self.0 == 70 || self.0 == 55,
            Direction::Left => self.0 == 45 || self.0 == 55 || self.0 == 74,
            Direction::Right => self.0 == 45 || self.0 == 76 || self.0 == 70,
        }
    }

    pub fn is_start(&self) -> (r: bool)
        ensures
            r == self.spec_is_start(),
    {
        self.0 == 83
    }
}

/// A place on the loop: the tile, where it is, and the direction in which
/// it was entered.
#[derive(Debug, Clone, Copy)]
pub struct LoopNavigator {
    pub pos: Coord,
    pub dir: Direction,
    pub pipe: Pipe,
}

/// The direction with the number `k` in the order in which they are
/// tried: up, down, left, right.
pub open spec fn dir_at(k: int) -> Direction {
    if k == 0 {
        Direction::Up
    } else if k == 1 {
        Direction::Down
    } else if k == 2 {
        Direction::Left
    } else {
        Direction::Right
    }
}

/// The place one step from `pos` towards `d`, if a tile lies there that
/// has an opening back.
pub open spec fn step_to(p: Picture, pos: Coord, d: Direction) -> Option<LoopNavigator> {
    match pos.step(d) {
        None => None,
        Some(c) => match (p.cell)(c.x as int, c.y as int) {
            None => None,
            Some(b) => if Pipe(b).connects(d.spec_opposite()) {
                Some(LoopNavigator { pos: c, dir: d, pipe: Pipe(b) })
            } else {
                None
            },
        },
    }
}

/// The first place, trying the directions from number `k` on, to which
/// one can go on from `nav` without turning back.
pub open spec fn next_from(p: Picture, nav: LoopNavigator, k: int) -> Option<LoopNavigator>
    decreases 4 - k,
{
    if k < 0 || k >= 4 {
        None
    } else {
        let d = dir_at(k);
        if d != nav.dir.spec_opposite() && nav.pipe.connects(d) && step_to(p, nav.pos, d) is Some {
            step_to(p, nav.pos, d)
        } else {
            next_from(p, nav, k + 1)
        }
    }
}

/// The first place, trying the directions from number `k` on, to which
/// one can go from the start at `pos`.
pub open spec fn leave_from(p: Picture, pos: Coord, k: int) -> Option<LoopNavigator>
    decreases 4 - k,
{
    if k < 0 || k >= 4 {
        None
    } else if step_to(p, pos, dir_at(k)) is Some {
        step_to(p, pos, dir_at(k))
    } else {
        leave_from(p, pos, k + 1)
    }
}

/// Whether `c` is the first start of the map, row by row.
pub open spec fn is_first_start(p: Picture, c: Coord) -> bool {
    &&& (p.cell)(c.x as int, c.y as int) == Some(83u8)
    &&& forall|x: int, y: int|
        0 <= x < p.width && 0 <= y < p.height && (y < c.y || (y == c.y && x < c.x)) ==> (
        #[trigger] (p.cell)(x, y)) != Some(83u8)
}

/// Whether the map has no start.
pub open spec fn has_no_start(p: Picture) -> bool {
    forall|x: int, y: int|
        0 <= x < p.width && 0 <= y < p.height ==> (#[trigger] (p.cell)(x, y)) != Some(83u8)
}

/// The place from which the walk sets out at the start `pos`: the start
/// itself, taken for a straight pipe that leads to the first tile found
/// with an opening towards the start.
pub open spec fn setting_out(p: Picture, pos: Coord) -> Option<LoopNavigator> {
    match leave_from(p, pos, 0) {
        None => None,
        Some(first) => Some(
            LoopNavigator {
                pos,
                dir: first.dir,
                pipe: if first.dir == Direction::Up || first.dir == Direction::Down {
                    Pipe(124)
                } else {
                    Pipe(45)
                },
            },
        ),
    }
}

/// The number of steps of the walk from `nav` until it comes to the start
/// or the pipes end, `fuel` at most.
pub open spec fn walk_len(p: Picture, nav: LoopNavigator, fuel: nat) -> nat
    decreases fuel,
{
    if fuel == 0 || nav.pipe.spec_is_start() {
        0
    } else {
        match next_from(p, nav, 0) {
            None => 0,
            Some(n) => 1 + walk_len(p, n, (fuel - 1) as nat),
        }
    }
}

fn try_step<G: Grid<Item = u8>>(grid: &G, pos: Coord, d: Direction) -> (r: Option<LoopNavigator>)
    requires
        grid.wf(),
        pos.x < usize::MAX,
        pos.y < usize::MAX,
    ensures
        r == step_to(picture_in(grid), pos, d),
        r is Some ==> r->0.pos.x < grid.spec_width() && r->0.pos.y < grid.spec_height(),
{
    let c = match pos.at_dir(d) {
        Some(c) => c,
        None => {
            return None;
        },
    };
    proof {
        grid.lemma_at_inside(c.x as int, c.y as int);
    }
    match grid.get_coord(c) {
        None => None,
        Some(b) => {
            let pipe = Pipe(*b);
            if pipe.connects_to(d.opposite()) {
                Some(LoopNavigator { pos: c, dir: d, pipe })
            } else {
                None
            }
        },
    }
}

fn direction(k: usize) -> (r: Direction)
    requires
        k < 4,
    ensures
        r == dir_at(k as int),
{
    let all = Direction::all();
    all[k]
}

impl LoopNavigator {
    /// The next place on the loop, if the pipe leads on.
    pub fn next<G: Grid<Item = u8>>(&self, grid: &G) -> (r: Option<Self>)
        requires
            grid.wf(),
            self.pos.x < usize::MAX,
            self.pos.y < usize::MAX,
        ensures
            r == next_from(picture_in(grid), *self, 0),
            r is Some ==> r->0.pos.x < grid.spec_width() && r->0.pos.y < grid.spec_height(),
    {
        let mut k: usize = 0;
        while k < 4
            invariant
                k <= 4,
                grid.wf(),
                self.pos.x < usize::MAX,
                self.pos.y < usize::MAX,
                next_from(picture_in(grid), *self, 0) == next_from(picture_in(grid), *self, k as int),
            decreases 4 - k,
        {
            let d = direction(k);
            if d != self.dir.opposite() && self.pipe.connects_to(d) {
                match try_step(grid, self.pos, d) {
                    Some(n) => {
                        return Some(n);
                    },
                    None => {},
                }
            }
            k += 1;
        }
        None
    }
}

/// A walk round the loop, one place at a time.
pub struct LoopIterator<'a, G: Grid<Item = u8>> {
    pub grid: &'a G,
    pub navi: LoopNavigator,
}

impl<'a, G: Grid<Item = u8>> LoopIterator<'a, G> {
    /// The place is on the grid.
    pub open spec fn wf(&self) -> bool {
        &&& self.grid.wf()
        &&& self.navi.pos.x < self.grid.spec_width()
        &&& self.navi.pos.y < self.grid.spec_height()
    }

    /// The walk that sets out from the first start of the grid.
    pub fn from_grid(grid: &'a G) -> (r: Result<Self, Day10Error>)
        requires
            grid.wf(),
            grid.spec_width() > 0,
            grid.spec_height() > 0,
        ensures
            match r {
                Ok(it) => it.wf() && it.grid == grid && is_first_start(
                    picture_in(grid),
                    it.navi.pos,
                ) && setting_out(picture_in(grid), it.navi.pos) == Some(it.navi),
                Err(Day10Error::StartNotFound) => has_no_start(picture_in(grid)),
                Err(Day10Error::NextPipeFromStartNotFound) => exists|c: Coord| #[trigger]
                    is_first_start(picture_in(grid), c) && setting_out(picture_in(grid), c) is None,
                Err(Day10Error::BothSidesTouchEdge) => false,
            },
    {
        let ghost p = picture_in(grid);
        let is_s = |c: &u8| -> (r: bool)
            ensures
                r == (*c == 83),
            { *c == 83 };
        let start_pos = match grid.find_coord(is_s) {
            Some(c) => c,
            None => {
                proof {
                    assert forall|x: int, y: int|
                        0 <= x < p.width && 0 <= y < p.height implies (#[trigger] (p.cell)(x, y))
                        != Some(83u8) by {
                        grid.lemma_at_inside(x, y);
                        assert(call_ensures(is_s, (&grid.at(x, y)->0,), false));
                    }
                }
                return Err(Day10Error::StartNotFound);
            },
        };
        proof {
            grid.lemma_at_inside(start_pos.x as int, start_pos.y as int);
            assert forall|x: int, y: int|
                0 <= x < p.width && 0 <= y < p.height && (y < start_pos.y || (y == start_pos.y && x
                    < start_pos.x)) implies (#[trigger] (p.cell)(x, y)) != Some(83u8) by {
                grid.lemma_at_inside(x, y);
                assert(call_ensures(is_s, (&grid.at(x, y)->0,), false));
            }
            assert(is_first_start(p, start_pos));
        }
        let mut k: usize = 0;
        while k < 4
            invariant
                k <= 4,
                grid.wf(),
                p == picture_in(grid),
                start_pos.x < grid.spec_width(),
                start_pos.y < grid.spec_height(),
                is_first_start(p, start_pos),
                leave_from(p, start_pos, 0) == leave_from(p, start_pos, k as int),
            decreases 4 - k,
        {
            proof {
                grid.lemma_at_inside(0, 0);
            }
            let d = direction(k);
            match try_step(grid, start_pos, d) {
                Some(first) => {
                    let start_pipe = match d {
                        Direction::Up => Pipe(124),
                        Direction::Down => Pipe(124),
                        Direction::Left => Pipe(45),
                        Direction::Right => Pipe(45),
                    };
                    return Ok(
                        Self {
                            grid,
                            navi: LoopNavigator { pos: start_pos, dir: d, pipe: start_pipe },
                        },
                    );
                },
                None => {},
            }
            k += 1;
        }
        Err(Day10Error::NextPipeFromStartNotFound)
    }

    /// The next place on the walk; `None` at the start and where the
    /// pipes end.
    pub fn next(&mut self) -> (r: Option<LoopNavigator>)
        requires
            old(self).wf(),
        ensures
            final(self).wf(),
            final(self).grid == old(self).grid,
            match r {
                Some(n) => !old(self).navi.pipe.spec_is_start() && next_from(
                    picture_in(old(self).grid),
                    old(self).navi,
                    0,
                ) == Some(n) && final(self).navi == n,
                None => (old(self).navi.pipe.spec_is_start() || next_from(
                    picture_in(old(self).grid),
                    old(self).navi,
                    0,
                ) is None) && final(self).navi == old(self).navi,
            },
    {
        if self.navi.pipe.is_start() {
            return None;
        }
        proof {
            self.grid.lemma_at_inside(0, 0);
        }
        match self.navi.next(self.grid) {
            Some(n) => {
                self.navi = n;
                Some(n)
            },
            None => None,
        }
    }
}

/// The number of steps round the loop from `nav`, as many as the grid has
/// cells at most.
pub fn count_steps<G: Grid<Item = u8>>(it: &mut LoopIterator<'_, G>) -> (r: usize)
    requires
        old(it).wf(),
        old(it).grid.spec_width() * old(it).grid.spec_height() <= usize::MAX,
    ensures
        r == walk_len(
            picture_in(old(it).grid),
            old(it).navi,
            old(it).grid.spec_width() * old(it).grid.spec_height(),
        ),
{
    let ghost p = picture_in(it.grid);
    let ghost first = it.navi;
    let ghost area = it.grid.spec_width() * it.grid.spec_height();
    let limit: usize = it.grid.width() * it.grid.height();
    let mut count: usize = 0;
    while count < limit
        invariant
            it.wf(),
            it.grid == old(it).grid,
            p == picture_in(it.grid),
            first == old(it).navi,
            area == old(it).grid.spec_width() * old(it).grid.spec_height(),
            limit == area,
            count <= limit,
            walk_len(p, first, area) == count + walk_len(p, it.navi, (area - count) as nat),
        decreases limit - count,
    {
        match it.next() {
            Some(_) => {
                count += 1;
            },
            None => {
                return count;
            },
        }
    }
    count
}

/// Whether `n` answers the first part for the map that `p` shows: half
/// the number of steps round the loop from its start.
pub open spec fn half_way(p: Picture, r: Result<usize, Day10Error>) -> bool {
    match r {
        Ok(n) => exists|c: Coord| #[trigger]
            is_first_start(p, c) && setting_out(p, c) is Some && n == walk_len(
                p,
                setting_out(p, c)->0,
                p.width * p.height,
            ) / 2,
        Err(Day10Error::StartNotFound) => has_no_start(p),
        Err(Day10Error::NextPipeFromStartNotFound) => exists|c: Coord| #[trigger]
            is_first_start(p, c) && setting_out(p, c) is None,
        Err(Day10Error::BothSidesTouchEdge) => false,
    }
}

/// Whether the text is a map: a block with cells.
pub open spec fn is_map(s: Seq<u8>) -> bool {
    &&& is_block(s)
    &&& s.len() < usize::MAX
    &&& picture_of(s).width > 0
    &&& picture_of(s).height > 0
}

/// Half the number of steps round the loop.
pub fn day10_1(input: &str) -> (r: Result<usize, Day10Error>)
    requires
        is_map(input.spec_bytes()),
    ensures
        half_way(picture_of(input.spec_bytes()), r),
{
    let grid = AsciiGrid::from_ascii(input.as_bytes());
    let mut it = match LoopIterator::from_grid(&grid) {
        Ok(it) => it,
        Err(e) => {
            return Err(e);
        },
    };
    let ghost start = it.navi.pos;
    let loop_length = count_steps(&mut it);
    proof {
        let p = picture_of(input.spec_bytes());
        assert(is_first_start(p, start) && setting_out(p, start) is Some);
    }
    Ok(loop_length / 2)
}


/// The sides that a walker touches with the left and with the right hand
/// when leaving the tile `pipe`, which was entered in direction `dir`: the
/// sides of the tile where no pipe opens, each on the hand on which it
/// lies.
pub open spec fn touched_sides(pipe: Pipe, dir: Direction) -> (Seq<Direction>, Seq<Direction>) {
    if pipe.0 == 124 && dir == Direction::Up {
        (seq![Direction::Left], seq![Direction::Right])
    } else if pipe.0 == 124 && dir == Direction::Down {
        (seq![Direction::Right], seq![Direction::Left])
    } else if pipe.0 == 45 && dir == Direction::Right {
        (seq![Direction::Up], seq![Direction::Down])
    } else if pipe.0 == 45 && dir == Direction::Left {
        (seq![Direction::Down], seq![Direction::Up])
    } else if pipe.0 == 76 && dir == Direction::Left {
        (seq![Direction::Left, Direction::Down], Seq::empty())
    } else if pipe.0 == 76 && dir == Direction::Down {
        (Seq::empty(), seq![Direction::Left, Direction::Down])
    } else if pipe.0 == 74 && dir == Direction::Down {
        (seq![Direction::Right, Direction::Down], Seq::empty())
    } else if pipe.0 == 74 && dir == Direction::Right {
        (Seq::empty(), seq![Direction::Right, Direction::Down])
    } else if pipe.0 == 55 && dir == Direction::Right {
        (seq![Direction::Up, Direction::Right], Seq::empty())
    } else if pipe.0 == 55 && dir == Direction::Up {
        (Seq::empty(), seq![Direction::Up, Direction::Right])
    } else if pipe.0 == 70 && dir == Direction::Up {
        (seq![Direction::Left, Direction::Up], Seq::empty())
    } else if pipe.0 == 70 && dir == Direction::Left {
        (Seq::empty(), seq![Direction::Left, Direction::Up])
    } else {
        (Seq::empty(), Seq::empty())
    }
}

/// The sides that a walker touches with the left and with the right hand
/// when leaving the tile `pipe`, which was entered in direction `curr_dir`.
pub fn dirs_to_touch(pipe: Pipe, curr_dir: Direction) -> (r: (Vec<Direction>, Vec<Direction>))
    ensures
        (r.0@, r.1@) == touched_sides(pipe, curr_dir),
{
    let mut left: Vec<Direction> = Vec::new();
    let mut right: Vec<Direction> = Vec::new();
    let b: u8 = pipe.0;
    if b == 124 && curr_dir == Direction::Up {
        left.push(Direction::Left);
        right.push(Direction::Right);
    } else if b == 124 && curr_dir == Direction::Down {
        left.push(Direction::Right);
        right.push(Direction::Left);
    } else if b == 45 && curr_dir == Direction::Right {
        left.push(Direction::Up);
        right.push(Direction::Down);
    } else if b == 45 && curr_dir == Direction::Left {
        left.push(Direction::Down);
        right.push(Direction::Up);
    } else if b == 76 && curr_dir == Direction::Left {
        left.push(Direction::Left);
        left.push(Direction::Down);
    } else if b == 76 && curr_dir == Direction::Down {
        right.push(Direction::Left);
        right.push(Direction::Down);
    } else if b == 74 && curr_dir == Direction::Down {
        left.push(Direction::Right);
        left.push(Direction::Down);
    } else if b == 74 && curr_dir == Direction::Right {
        right.push(Direction::Right);
        right.push(Direction::Down);
    } else if b == 55 && curr_dir == Direction::Right {
        left.push(Direction::Up);
        left.push(Direction::Right);
    } else if b == 55 && curr_dir == Direction::Up {
        right.push(Direction::Up);
        right.push(Direction::Right);
    } else if b == 70 && curr_dir == Direction::Up {
        left.push(Direction::Left);
        left.push(Direction::Up);
    } else if b == 70 && curr_dir == Direction::Left {
        right.push(Direction::Left);
        right.push(Direction::Up);
    }
    proof {
        let want = touched_sides(pipe, curr_dir);
        assert(left@ =~= want.0);
        assert(right@ =~= want.1);
    }
    (left, right)
}

/// The cell with the number `i`, row by row, in a grid of rows of `w`.
pub open spec fn coord_of(i: int, w: int) -> Coord {
    Coord { x: (i % w) as usize, y: (i / w) as usize }
}

/// The number of cells among the first `n`, row by row, that are not
/// marked.
pub open spec fn blank(marked: Set<Coord>, w: int, n: nat) -> nat
    decreases n,
{
    if n == 0 {
        0
    } else {
        blank(marked, w, (n - 1) as nat) + if marked.contains(coord_of(n - 1, w)) {
            0nat
        } else {
            1nat
        }
    }
}

/// To mark a cell makes one cell less that is not marked.
pub proof fn lemma_mark(marked: Set<Coord>, w: int, h: int, c: Coord, n: nat)
    requires
        0 <= c.x < w,
        0 <= c.y < h,
        w * h <= usize::MAX,
        n <= w * h,
        !marked.contains(c),
    ensures
        blank(marked, w, n) == blank(marked.insert(c), w, n) + if c.y * w + c.x < n {
            1nat
        } else {
            0nat
        },
        c.y * w + c.x < w * h,
    decreases n,
{
    assert(c.y * w + c.x < w * h) by (nonlinear_arith)
        requires
            0 <= c.x < w,
            0 <= c.y < h,
    ;
    if n > 0 {
        lemma_mark(marked, w, h, c, (n - 1) as nat);
        let i = n - 1;
        crate::y2023::day14::lemma_cell_of_index(w, h, i);
        if coord_of(i, w) == c {
            assert(cell_index(w, i % w, i / w) == i);
        }
        if i == c.y * w + c.x {
            vstd::arithmetic::div_mod::lemma_fundamental_div_mod_converse(
                i,
                w,
                c.y as int,
                c.x as int,
            );
        }
    }
}

/// No more cells are unmarked than there are.
pub proof fn lemma_blank_bound(a: Set<Coord>, w: int, n: nat)
    ensures
        blank(a, w, n) <= n,
    decreases n,
{
    if n > 0 {
        lemma_blank_bound(a, w, (n - 1) as nat);
    }
}

/// Where more is marked, less is not.
pub proof fn lemma_blank_monotone(a: Set<Coord>, b: Set<Coord>, w: int, n: nat)
    requires
        a.subset_of(b),
    ensures
        blank(b, w, n) <= blank(a, w, n),
    decreases n,
{
    if n > 0 {
        lemma_blank_monotone(a, b, w, (n - 1) as nat);
    }
}

/// The marks after a fill, and the number of cells that it marked unless
/// it met the edge.
pub struct Filled {
    pub marked: Set<Coord>,
    pub count: Option<int>,
}

/// `f` with `n` more cells counted.
pub open spec fn counted(f: Filled, n: int) -> Filled {
    Filled {
        marked: f.marked,
        count: match f.count {
            Some(m) => Some(m + n),
            None => None,
        },
    }
}

/// The fill that sets out at `pos` in a grid of `w` by `h` cells, no
/// deeper than `depth`: outside the grid it meets the edge; a marked cell
/// it leaves; any other it marks, and goes on to the four cells beside it
/// in turn, up to the first that meets the edge.
pub open spec fn fill(marked: Set<Coord>, w: nat, h: nat, pos: Coord, depth: nat) -> Filled
    decreases depth, 0int,
{
    if !(pos.x < w && pos.y < h) {
        Filled { marked, count: None }
    } else if marked.contains(pos) {
        Filled { marked, count: Some(0) }
    } else if depth == 0 {
        Filled { marked, count: None }
    } else {
        counted(fill_beside(marked.insert(pos), w, h, pos, 0, (depth - 1) as nat), 1)
    }
}

/// The fill of the cells beside `pos`, from the direction with the number
/// `k` on; a step off the grid meets the edge.
pub open spec fn fill_beside(
    marked: Set<Coord>,
    w: nat,
    h: nat,
    pos: Coord,
    k: int,
    depth: nat,
) -> Filled
    decreases depth, 5 - k,
{
    if k < 0 || k >= 4 {
        Filled { marked, count: Some(0) }
    } else {
        match pos.step(dir_at(k)) {
            None => Filled { marked, count: None },
            Some(c) => {
                let f = fill(marked, w, h, c, depth);
                match f.count {
                    None => f,
                    Some(n) => counted(fill_beside(f.marked, w, h, pos, k + 1, depth), n),
                }
            },
        }
    }
}

/// The fill that sets out at `pos`, as deep as it needs to go.
pub open spec fn fill_all(marked: Set<Coord>, w: nat, h: nat, pos: Coord) -> Filled {
    fill(marked, w, h, pos, blank(marked, w as int, w * h))
}

/// The cells of the grid that are marked.
pub open spec fn painted(g: &VecGrid<bool>) -> Set<Coord> {
    Set::new(|c: Coord| g.at(c.x as int, c.y as int) == Some(true))
}

fn fill_within(fill_grid: &mut VecGrid<bool>, pos: Coord, Ghost(depth): Ghost<nat>) -> (r: Option<
    u32,
>)
    requires
        old(fill_grid).wf(),
        old(fill_grid).width * old(fill_grid).height <= u32::MAX,
        depth >= blank(
            painted(old(fill_grid)),
            old(fill_grid).width as int,
            (old(fill_grid).width * old(fill_grid).height) as nat,
        ),
    ensures
        final(fill_grid).wf(),
        final(fill_grid).width == old(fill_grid).width,
        final(fill_grid).height == old(fill_grid).height,
        fill(
            painted(old(fill_grid)),
            old(fill_grid).width as nat,
            old(fill_grid).height as nat,
            pos,
            depth,
        ) == (Filled {
            marked: painted(final(fill_grid)),
            count: match r {
                Some(n) => Some(n as int),
                None => None,
            },
        }),
        painted(old(fill_grid)).subset_of(painted(final(fill_grid))),
        match r {
            Some(n) => n + blank(
                painted(final(fill_grid)),
                old(fill_grid).width as int,
                (old(fill_grid).width * old(fill_grid).height) as nat,
            ) == blank(
                painted(old(fill_grid)),
                old(fill_grid).width as int,
                (old(fill_grid).width * old(fill_grid).height) as nat,
            ),
            None => true,
        },
    decreases depth, 0int,
{
    let ghost w = fill_grid.width as int;
    let ghost h = fill_grid.height as int;
    let ghost area = (fill_grid.width * fill_grid.height) as nat;
    let ghost before = painted(fill_grid);
    let to_fill = match fill_grid.get_coord_mut(pos) {
        Some(c) => c,
        None => {
            proof {
                assert(painted(fill_grid) =~= before);
            }
            return None;
        },
    };
    if *to_fill {
        proof {
            assert(painted(fill_grid) =~= before);
        }
        return Some(0);
    }
    *to_fill = true;
    let ghost first = before.insert(pos);
    proof {
        assert(painted(fill_grid) =~= first);
        lemma_mark(before, w, h, pos, area);
        lemma_blank_bound(before, w, area);
    }
    let mut total: u32 = 1;
    let mut k: usize = 0;
    while k < 4
        invariant
            k <= 4,
            fill_grid.wf(),
            fill_grid.width == w,
            fill_grid.height == h,
            area == w * h,
            area <= u32::MAX,
            w == old(fill_grid).width,
            h == old(fill_grid).height,
            before == painted(old(fill_grid)),
            !before.contains(pos),
            first == before.insert(pos),
            blank(before, w, area) <= area,
            pos.x < w,
            pos.y < h,
            depth >= 1,
            depth - 1 >= blank(painted(fill_grid), w, area),
            first.subset_of(painted(fill_grid)),
            total + blank(painted(fill_grid), w, area) == blank(before, w, area),
            fill_beside(first, w as nat, h as nat, pos, 0, (depth - 1) as nat) == counted(
                fill_beside(
                    painted(fill_grid),
                    w as nat,
                    h as nat,
                    pos,
                    k as int,
                    (depth - 1) as nat,
                ),
                total - 1,
            ),
        decreases 4 - k,
    {
        let d = direction(k);
        let next = match pos.at_dir(d) {
            Some(c) => c,
            None => {
                return None;
            },
        };
        let n = match fill_within(fill_grid, next, Ghost((depth - 1) as nat)) {
            Some(n) => n,
            None => {
                return None;
            },
        };
        total = total + n;
        k += 1;
    }
    Some(total)
}


/// Fills the grid from `pos` and returns the number of cells filled, or
/// `None` where the fill met the edge.
pub fn grid_fill(fill_grid: &mut VecGrid<bool>, pos: Coord) -> (r: Option<u32>)
    requires
        old(fill_grid).wf(),
        old(fill_grid).width * old(fill_grid).height <= u32::MAX,
    ensures
        final(fill_grid).wf(),
        final(fill_grid).width == old(fill_grid).width,
        final(fill_grid).height == old(fill_grid).height,
        fill_all(
            painted(old(fill_grid)),
            old(fill_grid).width as nat,
            old(fill_grid).height as nat,
            pos,
        ) == (Filled {
            marked: painted(final(fill_grid)),
            count: match r {
                Some(n) => Some(n as int),
                None => None,
            },
        }),
        painted(old(fill_grid)).subset_of(painted(final(fill_grid))),
        r is Some ==> r->0 + blank(
            painted(final(fill_grid)),
            old(fill_grid).width as int,
            (old(fill_grid).width * old(fill_grid).height) as nat,
        ) == blank(
            painted(old(fill_grid)),
            old(fill_grid).width as int,
            (old(fill_grid).width * old(fill_grid).height) as nat,
        ),
{
    let ghost depth = blank(
        painted(fill_grid),
        fill_grid.width as int,
        (fill_grid.width * fill_grid.height) as nat,
    );
    fill_within(fill_grid, pos, Ghost(depth))
}

/// The fills that set out from the cells beside `pos` on the sides
/// `dirs`, from the side with the number `k` on, up to the first that
/// meets the edge.
pub open spec fn touch(
    marked: Set<Coord>,
    w: nat,
    h: nat,
    pos: Coord,
    dirs: Seq<Direction>,
    k: int,
) -> Filled
    decreases dirs.len() - k,
{
    if k < 0 || k >= dirs.len() {
        Filled { marked, count: Some(0) }
    } else {
        match pos.step(dirs[k]) {
            None => Filled { marked, count: None },
            Some(c) => {
                let f = fill_all(marked, w, h, c);
                match f.count {
                    None => f,
                    Some(n) => counted(touch(f.marked, w, h, pos, dirs, k + 1), n),
                }
            },
        }
    }
}

/// What one hand adds at `pos` to the count `so_far`; a hand that has met
/// the edge touches nothing more.
pub open spec fn one_hand(
    marked: Set<Coord>,
    w: nat,
    h: nat,
    pos: Coord,
    dirs: Seq<Direction>,
    so_far: Option<int>,
) -> Filled {
    match so_far {
        None => Filled { marked, count: None },
        Some(a) => counted(touch(marked, w, h, pos, dirs, 0), a),
    }
}

/// The marks, and what each hand has counted unless it met the edge.
pub struct Hands {
    pub marked: Set<Coord>,
    pub left: Option<int>,
    pub right: Option<int>,
}

/// The hands after the walker has left the tile at `nav`: first the left
/// hand fills, then the right.
pub open spec fn hands_at(s: Hands, w: nat, h: nat, nav: LoopNavigator) -> Hands {
    let d = touched_sides(nav.pipe, nav.dir);
    let l = one_hand(s.marked, w, h, nav.pos, d.0, s.left);
    let r = one_hand(l.marked, w, h, nav.pos, d.1, s.right);
    Hands { marked: r.marked, left: l.count, right: r.count }
}

/// The places on the walk from `nav`, of `fuel` steps at most.
pub open spec fn trace(p: Picture, nav: LoopNavigator, fuel: nat) -> Set<Coord>
    decreases fuel,
{
    if fuel == 0 || nav.pipe.spec_is_start() {
        Set::empty()
    } else {
        match next_from(p, nav, 0) {
            None => Set::empty(),
            Some(n) => trace(p, n, (fuel - 1) as nat).insert(n.pos),
        }
    }
}

/// The hands after the walk from `nav`, of `fuel` steps at most.
pub open spec fn hands_after(p: Picture, nav: LoopNavigator, s: Hands, fuel: nat) -> Hands
    decreases fuel,
{
    if fuel == 0 || nav.pipe.spec_is_start() {
        s
    } else {
        match next_from(p, nav, 0) {
            None => s,
            Some(n) => hands_after(p, n, hands_at(s, p.width, p.height, n), (fuel - 1) as nat),
        }
    }
}

/// What the walk that sets out at `nav` encloses: the loop is marked,
/// then the walk is made again with both hands filling; the answer is the
/// count of the left hand, or that of the right where the left met the
/// edge.
pub open spec fn enclosed_from(p: Picture, nav: LoopNavigator) -> Result<u32, Day10Error> {
    let area = p.width * p.height;
    let s = hands_after(
        p,
        nav,
        Hands { marked: trace(p, nav, area), left: Some(0), right: Some(0) },
        area,
    );
    match (s.left, s.right) {
        (Some(n), _) => Ok(n as u32),
        (None, Some(n)) => Ok(n as u32),
        (None, None) => Err(Day10Error::BothSidesTouchEdge),
    }
}

/// Whether `r` answers the second part for the map that `p` shows.
pub open spec fn encloses(p: Picture, r: Result<u32, Day10Error>) -> bool {
    match r {
        Err(Day10Error::StartNotFound) => has_no_start(p),
        Err(Day10Error::NextPipeFromStartNotFound) => exists|c: Coord| #[trigger]
            is_first_start(p, c) && setting_out(p, c) is None,
        _ => exists|c: Coord| #[trigger]
            is_first_start(p, c) && setting_out(p, c) is Some && r == enclosed_from(
                p,
                setting_out(p, c)->0,
            ),
    }
}

fn touch_side(fill_grid: &mut VecGrid<bool>, pos: Coord, dirs: &Vec<Direction>) -> (r: Option<u32>)
    requires
        old(fill_grid).wf(),
        old(fill_grid).width * old(fill_grid).height <= u32::MAX,
        pos.x < old(fill_grid).width,
        pos.y < old(fill_grid).height,
    ensures
        final(fill_grid).wf(),
        final(fill_grid).width == old(fill_grid).width,
        final(fill_grid).height == old(fill_grid).height,
        touch(
            painted(old(fill_grid)),
            old(fill_grid).width as nat,
            old(fill_grid).height as nat,
            pos,
            dirs@,
            0,
        ) == (Filled {
            marked: painted(final(fill_grid)),
            count: match r {
                Some(n) => Some(n as int),
                None => None,
            },
        }),
        blank(
            painted(final(fill_grid)),
            old(fill_grid).width as int,
            (old(fill_grid).width * old(fill_grid).height) as nat,
        ) + (match r {
            Some(n) => n as int,
            None => 0,
        }) <= blank(
            painted(old(fill_grid)),
            old(fill_grid).width as int,
            (old(fill_grid).width * old(fill_grid).height) as nat,
        ),
{
    let ghost w = fill_grid.width as int;
    let ghost h = fill_grid.height as int;
    let ghost area = (fill_grid.width * fill_grid.height) as nat;
    let ghost before = painted(fill_grid);
    proof {
        lemma_blank_bound(before, w, area);
    }
    let mut total: u32 = 0;
    let mut k: usize = 0;
    while k < dirs.len()
        invariant
            k <= dirs.len(),
            fill_grid.wf(),
            fill_grid.width == w,
            fill_grid.height == h,
            w == old(fill_grid).width,
            h == old(fill_grid).height,
            before == painted(old(fill_grid)),
            area == w * h,
            area <= u32::MAX,
            pos.x < w,
            pos.y < h,
            blank(before, w, area) <= area,
            total + blank(painted(fill_grid), w, area) == blank(before, w, area),
            touch(before, w as nat, h as nat, pos, dirs@, 0) == counted(
                touch(painted(fill_grid), w as nat, h as nat, pos, dirs@, k as int),
                total as int,
            ),
        decreases dirs.len() - k,
    {
        let ghost here = painted(fill_grid);
        let next = match pos.at_dir(dirs[k]) {
            Some(c) => c,
            None => {
                return None;
            },
        };
        let n = match grid_fill(fill_grid, next) {
            Some(n) => n,
            None => {
                proof {
                    lemma_blank_monotone(here, painted(fill_grid), w, area);
                }
                return None;
            },
        };
        total = total + n;
        k += 1;
    }
    Some(total)
}

/// What a count is worth: nothing once the edge is met.
pub open spec fn worth(c: Option<u32>) -> int {
    match c {
        Some(n) => n as int,
        None => 0,
    }
}

/// The count as a number of mathematics.
pub open spec fn as_count(c: Option<u32>) -> Option<int> {
    match c {
        Some(n) => Some(n as int),
        None => None,
    }
}

/// The number of tiles that the loop encloses.
pub fn day10_2(input: &str) -> (r: Result<u32, Day10Error>)
    requires
        is_map(input.spec_bytes()),
        picture_of(input.spec_bytes()).width * picture_of(input.spec_bytes()).height <= u32::MAX,
    ensures
        encloses(picture_of(input.spec_bytes()), r),
{
    let grid = AsciiGrid::from_ascii(input.as_bytes());
    let ghost p = picture_of(input.spec_bytes());
    let ghost area = p.width * p.height;
    let mut fill = VecGrid::new(grid.width(), grid.height(), false);
    let mut it = match LoopIterator::from_grid(&grid) {
        Ok(it) => it,
        Err(e) => {
            return Err(e);
        },
    };
    let ghost first = it.navi;
    let ghost start = it.navi.pos;
    let limit: usize = grid.width() * grid.height();
    proof {
        assert forall|c: Coord| !painted(&fill).contains(c) by {
            if c.x < fill.width && c.y < fill.height {
                fill.lemma_index(c.x as int, c.y as int);
            }
        }
        assert(painted(&fill) =~= Set::<Coord>::empty());
    }
    let mut count: usize = 0;
    let mut done = false;
    while count < limit && !done
        invariant
            done ==> trace(p, it.navi, (area - count) as nat) =~= Set::<Coord>::empty(),
            it.wf(),
            it.grid == &grid,
            p == picture_in(&grid),
            area == p.width * p.height,
            limit == area,
            count <= limit,
            fill.wf(),
            fill.width == p.width,
            fill.height == p.height,
            trace(p, first, area) =~= painted(&fill).union(
                trace(p, it.navi, (area - count) as nat),
            ),
        decreases limit - count + if done { 0int } else { 1int },
    {
        let ghost before = painted(&fill);
        match it.next() {
            Some(nav) => {
                match fill.get_coord_mut(nav.pos) {
                    Some(c) => {
                        *c = true;
                    },
                    None => {},
                }
                proof {
                    assert(painted(&fill) =~= before.insert(nav.pos));
                }
                count += 1;
            },
            None => {
                done = true;
            },
        }
    }
    proof {
        assert(painted(&fill) =~= trace(p, first, area));
        lemma_blank_bound(painted(&fill), p.width as int, area);
    }
    let mut left_count: Option<u32> = Some(0);
    let mut right_count: Option<u32> = Some(0);
    let mut it = match LoopIterator::from_grid(&grid) {
        Ok(it) => it,
        Err(e) => {
            return Err(e);
        },
    };
    proof {
        assert(it.navi.pos == start) by {
            lemma_one_start(p, it.navi.pos, start);
        }
        assert(it.navi == first);
    }
    let ghost begin = Hands { marked: painted(&fill), left: Some(0), right: Some(0) };
    let mut count: usize = 0;
    let mut done = false;
    while count < limit && !done
        invariant
            done ==> hands_after(p, first, begin, area) == (Hands {
                marked: painted(&fill),
                left: as_count(left_count),
                right: as_count(right_count),
            }),
            it.wf(),
            it.grid == &grid,
            p == picture_in(&grid),
            area == p.width * p.height,
            area <= u32::MAX,
            limit == area,
            count <= limit,
            fill.wf(),
            fill.width == p.width,
            fill.height == p.height,
            worth(left_count) + worth(right_count) + blank(painted(&fill), p.width as int, area)
                <= area,
            hands_after(p, first, begin, area) == hands_after(
                p,
                it.navi,
                Hands {
                    marked: painted(&fill),
                    left: as_count(left_count),
                    right: as_count(right_count),
                },
                (area - count) as nat,
            ),
        decreases limit - count + if done { 0int } else { 1int },
    {
        match it.next() {
            Some(nav) => {
                let sides = dirs_to_touch(nav.pipe, nav.dir);
                left_count = match left_count {
                    Some(n) => match touch_side(&mut fill, nav.pos, &sides.0) {
                        Some(fills) => Some(n + fills),
                        None => None,
                    },
                    None => None,
                };
                right_count = match right_count {
                    Some(n) => match touch_side(&mut fill, nav.pos, &sides.1) {
                        Some(fills) => Some(n + fills),
                        None => None,
                    },
                    None => None,
                };
                count += 1;
            },
            None => {
                done = true;
            },
        }
    }
    proof {
        assert(is_first_start(p, start) && setting_out(p, start) is Some);
    }
    match left_count {
        Some(n) => Ok(n),
        None => match right_count {
            Some(n) => Ok(n),
            None => Err(Day10Error::BothSidesTouchEdge),
        },
    }
}

/// A map has one first start.
pub proof fn lemma_one_start(p: Picture, a: Coord, b: Coord)
    requires
        is_first_start(p, a),
        is_first_start(p, b),
        a.x < p.width,
        a.y < p.height,
        b.x < p.width,
        b.y < p.height,
    ensures
        a == b,
{
}

} // verus!
