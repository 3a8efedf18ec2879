//! Hill climbing: the fewest steps over a height map, by breadth-first
//! search with two frontiers.

use crate::arrays::{positions, positions_get, positions_len, positions_new, positions_push};
use crate::y2022::grid::{filled, Grid};
use crate::text::{flat, is_rect, lines, lines_of, rect_cells};
use std::collections::VecDeque;
use vstd::prelude::*;
use vstd::string::*;

verus! {

pub type CoordU = u32;

pub type GridU = i32;

/// Whether a step from height `from` to height `to` is admissible: upwards
/// by at most one, or, walking backwards, downwards by at most one.
pub open spec fn allowed(from: i32, to: i32, rev: bool) -> bool {
    if rev {
        from <= to + 1
    } else {
        from >= to - 1
    }
}

/// Whether `a` and `b` are neighbours along one axis.
pub open spec fn adjacent(a: (u32, u32), b: (u32, u32)) -> bool {
    ||| (a.1 == b.1 && a.0 + 1 == b.0)
    ||| (a.1 == b.1 && b.0 + 1 == a.0)
    ||| (a.0 == b.0 && a.1 + 1 == b.1)
    ||| (a.0 == b.0 && b.1 + 1 == a.1)
}

/// Whether `c` lies inside `g`.
pub open spec fn on_grid(g: &Grid<i32>, c: (u32, u32)) -> bool {
    g.inside(c.0 as int, c.1 as int)
}

/// The height at `c`.
pub open spec fn height_at(g: &Grid<i32>, c: (u32, u32)) -> i32 {
    g.cell(c.0 as int, c.1 as int)
}

/// Whether one step leads from `a` to `b`.
pub open spec fn can_step(g: &Grid<i32>, a: (u32, u32), b: (u32, u32), rev: bool) -> bool {
    &&& on_grid(g, a)
    &&& on_grid(g, b)
    &&& adjacent(a, b)
    &&& allowed(height_at(g, a), height_at(g, b), rev)
}

/// Whether `p` is a walk of `n` steps from `s` to `t`.
pub open spec fn is_walk(
    g: &Grid<i32>,
    p: Seq<(u32, u32)>,
    s: (u32, u32),
    t: (u32, u32),
    n: nat,
    rev: bool,
) -> bool {
    &&& p.len() == n + 1
    &&& p[0] == s
    &&& p[n as int] == t
    &&& forall|i: int| 0 <= i < n ==> can_step(g, #[trigger] p[i], p[i + 1], rev)
}

/// Whether `t` can be reached from `s` in exactly `n` steps.
pub open spec fn reach_in(g: &Grid<i32>, s: (u32, u32), t: (u32, u32), n: nat, rev: bool) -> bool {
    exists|p: Seq<(u32, u32)>| is_walk(g, p, s, t, n, rev)
}

/// Whether `t` can be reached from `s` in `n` steps and in no fewer.
pub open spec fn first_reach(
    g: &Grid<i32>,
    s: (u32, u32),
    t: (u32, u32),
    n: nat,
    rev: bool,
) -> bool {
    &&& reach_in(g, s, t, n, rev)
    &&& forall|m: nat| m < n ==> !reach_in(g, s, t, m, rev)
}

/// Whether `c` is a goal: the given cell, or, where none is given, any cell
/// of the lowest height.
pub open spec fn is_goal(g: &Grid<i32>, c: (u32, u32), goal: Option<(u32, u32)>) -> bool {
    match goal {
        Some(e) => c == e,
        None => on_grid(g, c) && height_at(g, c) == 97,
    }
}

/// Whether some goal can be reached from `s` in exactly `n` steps.
pub open spec fn goal_in(
    g: &Grid<i32>,
    s: (u32, u32),
    goal: Option<(u32, u32)>,
    n: nat,
    rev: bool,
) -> bool {
    exists|t: (u32, u32)| is_goal(g, t, goal) && #[trigger] reach_in(g, s, t, n, rev)
}

/// Whether `n` is the least number of steps in which a goal can be reached
/// from `s`.
pub open spec fn shortest(
    g: &Grid<i32>,
    s: (u32, u32),
    goal: Option<(u32, u32)>,
    n: nat,
    rev: bool,
) -> bool {
    &&& goal_in(g, s, goal, n, rev)
    &&& forall|m: nat| m < n ==> !goal_in(g, s, goal, m, rev)
}

/// In no steps one reaches the start and nothing else.
pub proof fn lemma_reach_zero(g: &Grid<i32>, s: (u32, u32), t: (u32, u32), rev: bool)
    ensures
        reach_in(g, s, t, 0, rev) <==> s == t,
{
    if s == t {
        assert(is_walk(g, seq![s], s, t, 0, rev));
    }
}

/// A walk can be extended by one step.
pub proof fn lemma_reach_extend(
    g: &Grid<i32>,
    s: (u32, u32),
    u: (u32, u32),
    t: (u32, u32),
    n: nat,
    rev: bool,
)
    requires
        reach_in(g, s, u, n, rev),
        can_step(g, u, t, rev),
    ensures
        reach_in(g, s, t, n + 1, rev),
{
    let p = choose|p: Seq<(u32, u32)>| is_walk(g, p, s, u, n, rev);
    let q = p.push(t);
    assert forall|i: int| 0 <= i < n + 1 implies can_step(g, #[trigger] q[i], q[i + 1], rev) by {
        if i < n {
            assert(q[i] == p[i]);
            assert(q[i + 1] == p[i + 1]);
        }
    }
    assert(is_walk(g, q, s, t, n + 1, rev));
}

/// A walk of more than no steps has a last step.
pub proof fn lemma_reach_last(g: &Grid<i32>, s: (u32, u32), t: (u32, u32), n: nat, rev: bool)
    requires
        reach_in(g, s, t, n + 1, rev),
    ensures
        exists|u: (u32, u32)| #[trigger] reach_in(g, s, u, n, rev) && can_step(g, u, t, rev),
{
    let n1: nat = n + 1;
    let p = choose|p: Seq<(u32, u32)>| is_walk(g, p, s, t, n1, rev);
    let q = p.drop_last();
    let u = p[n as int];
    assert forall|i: int| 0 <= i < n implies can_step(g, #[trigger] q[i], q[i + 1], rev) by {
        assert(q[i] == p[i]);
        assert(q[i + 1] == p[i + 1]);
    }
    assert(is_walk(g, q, s, u, n, rev));
    assert(can_step(g, p[n as int], p[n as int + 1], rev));
    assert(reach_in(g, s, u, n, rev) && can_step(g, u, t, rev));
}

/// A walk read backwards is a walk under the opposite rule.
pub proof fn lemma_reach_reverse(g: &Grid<i32>, s: (u32, u32), t: (u32, u32), n: nat, rev: bool)
    requires
        reach_in(g, s, t, n, rev),
        forall|i: int| 0 <= i < g.grid_raw@.len() ==> i32::MIN < #[trigger] g.grid_raw@[i] < i32::MAX,
    ensures
        reach_in(g, t, s, n, !rev),
{
    let p = choose|p: Seq<(u32, u32)>| is_walk(g, p, s, t, n, rev);
    let q = p.reverse();
    assert forall|i: int| 0 <= i < n implies can_step(g, #[trigger] q[i], q[i + 1], !rev) by {
        assert(q[i] == p[n - i]);
        assert(q[i + 1] == p[n - i - 1]);
        assert(can_step(g, p[n - i - 1], p[n - i - 1 + 1], rev));
    }
    assert(is_walk(g, q, t, s, n, !rev));
}

/// The fewest steps from `s` to `e` going forwards are the fewest steps
/// from `e` to `s` going backwards.
pub proof fn lemma_shortest_symmetric(g: &Grid<i32>, s: (u32, u32), e: (u32, u32), n: nat)
    requires
        forall|i: int| 0 <= i < g.grid_raw@.len() ==> i32::MIN < #[trigger] g.grid_raw@[i] < i32::MAX,
    ensures
        shortest(g, s, Some(e), n, false) <==> shortest(g, e, Some(s), n, true),
{
    assert forall|m: nat| goal_in(g, s, Some(e), m, false) <==> goal_in(g, e, Some(s), m, true) by {
        if goal_in(g, s, Some(e), m, false) {
            assert(reach_in(g, s, e, m, false));
            lemma_reach_reverse(g, s, e, m, false);
            assert(is_goal(g, s, Some(s)));
        }
        if goal_in(g, e, Some(s), m, true) {
            assert(reach_in(g, e, s, m, true));
            lemma_reach_reverse(g, e, s, m, true);
            assert(is_goal(g, e, Some(e)));
        }
    }
}

/// The distance between two cells along the axes.
pub open spec fn steps_apart(a: (u32, u32), b: (u32, u32)) -> nat {
    ((if a.0 >= b.0 {
        a.0 - b.0
    } else {
        b.0 - a.0
    }) + (if a.1 >= b.1 {
        a.1 - b.1
    } else {
        b.1 - a.1
    })) as nat
}

/// Whether every step between neighbours on the grid is admissible in
/// both directions: no two neighbours differ in height by more than one.
pub open spec fn is_gentle(g: &Grid<i32>) -> bool {
    forall|a: (u32, u32), b: (u32, u32)|
        on_grid(g, a) && on_grid(g, b) && #[trigger] adjacent(a, b) ==> height_at(g, a) - 1
            <= height_at(g, b) <= height_at(g, a) + 1
}

/// No walk is shorter than the distance along the axes.
pub proof fn lemma_reach_far(g: &Grid<i32>, s: (u32, u32), t: (u32, u32), n: nat, rev: bool)
    requires
        reach_in(g, s, t, n, rev),
    ensures
        steps_apart(s, t) <= n,
    decreases n,
{
    if n == 0 {
        lemma_reach_zero(g, s, t, rev);
    } else {
        lemma_reach_last(g, s, t, (n - 1) as nat, rev);
        let u = choose|u: (u32, u32)| #[trigger]
            reach_in(g, s, u, (n - 1) as nat, rev) && can_step(g, u, t, rev);
        lemma_reach_far(g, s, u, (n - 1) as nat, rev);
    }
}

/// On a gentle grid a walk as long as the distance along the axes leads
/// from any cell to any other.
pub proof fn lemma_reach_near(g: &Grid<i32>, s: (u32, u32), t: (u32, u32), rev: bool)
    requires
        is_gentle(g),
        on_grid(g, s),
        on_grid(g, t),
    ensures
        reach_in(g, s, t, steps_apart(s, t), rev),
    decreases steps_apart(s, t),
{
    if s == t {
        lemma_reach_zero(g, s, t, rev);
    } else {
        let u: (u32, u32) = if t.0 > s.0 {
            ((t.0 - 1) as u32, t.1)
        } else if t.0 < s.0 {
            ((t.0 + 1) as u32, t.1)
        } else if t.1 > s.1 {
            (t.0, (t.1 - 1) as u32)
        } else {
            (t.0, (t.1 + 1) as u32)
        };
        assert(on_grid(g, u));
        assert(adjacent(u, t));
        lemma_reach_near(g, s, u, rev);
        assert(can_step(g, u, t, rev));
        lemma_reach_extend(g, s, u, t, steps_apart(s, u), rev);
    }
}

/// On a grid where every step between neighbours is admissible in both
/// directions, the fewest steps from one cell to another are the
/// distance along the axes, whichever way one walks and whichever of the
/// two is the start.
pub proof fn lemma_gentle_distance(g: &Grid<i32>, s: (u32, u32), e: (u32, u32), rev: bool)
    requires
        is_gentle(g),
        on_grid(g, s),
        on_grid(g, e),
    ensures
        shortest(g, s, Some(e), steps_apart(s, e), rev),
        shortest(g, e, Some(s), steps_apart(s, e), rev),
        steps_apart(s, e) == steps_apart(e, s),
{
    lemma_reach_near(g, s, e, rev);
    lemma_reach_near(g, e, s, rev);
    assert(is_goal(g, e, Some(e)));
    assert(is_goal(g, s, Some(s)));
    assert forall|m: nat| m < steps_apart(s, e) implies !goal_in(g, s, Some(e), m, rev) by {
        if goal_in(g, s, Some(e), m, rev) {
            lemma_reach_far(g, s, e, m, rev);
        }
    }
    assert forall|m: nat| m < steps_apart(s, e) implies !goal_in(g, e, Some(s), m, rev) by {
        if goal_in(g, e, Some(s), m, rev) {
            lemma_reach_far(g, e, s, m, rev);
        }
    }
}

/// The fewest steps backwards from `e` to a cell of the lowest height
/// are the fewest steps forwards to `e` from such a cell: some cell of
/// the lowest height is so many steps from `e`, and none is fewer.
pub proof fn lemma_shortest_from_lowest(g: &Grid<i32>, e: (u32, u32), n: nat)
    requires
        forall|i: int| 0 <= i < g.grid_raw@.len() ==> i32::MIN < #[trigger] g.grid_raw@[i] < i32::MAX,
        shortest(g, e, None, n, true),
    ensures
        exists|s: (u32, u32)| is_goal(g, s, None) && #[trigger] shortest(g, s, Some(e), n, false),
        forall|s: (u32, u32), m: nat|
            is_goal(g, s, None) && #[trigger] reach_in(g, s, e, m, false) ==> n <= m,
{
    let s = choose|s: (u32, u32)| is_goal(g, s, None) && #[trigger] reach_in(g, e, s, n, true);
    lemma_reach_reverse(g, e, s, n, true);
    assert(is_goal(g, e, Some(e)));
    assert forall|t: (u32, u32), m: nat|
        is_goal(g, t, None) && #[trigger] reach_in(g, t, e, m, false) implies n <= m by {
        lemma_reach_reverse(g, t, e, m, false);
        assert(goal_in(g, e, None, m, true));
    }
    assert forall|m: nat| m < n implies !goal_in(g, s, Some(e), m, false) by {
        if goal_in(g, s, Some(e), m, false) {
            assert(reach_in(g, s, e, m, false));
        }
    }
    assert(goal_in(g, s, Some(e), n, false));
    assert(shortest(g, s, Some(e), n, false));
}

/// `s` with `p` appended where `cond` holds.
pub open spec fn push_if(s: Seq<(u32, u32)>, cond: bool, p: (u32, u32)) -> Seq<(u32, u32)> {
    if cond {
        s.push(p)
    } else {
        s
    }
}

/// The cells one step from `c`: left, right, up, down, each where it lies
/// on the grid and the step is admissible.
pub open spec fn neighbors_of(g: &Grid<i32>, c: (u32, u32), rev: bool) -> Seq<(u32, u32)> {
    let x = c.0;
    let y = c.1;
    let l = ((x - 1) as u32, y);
    let r = ((x + 1) as u32, y);
    let u = (x, (y - 1) as u32);
    let d = (x, (y + 1) as u32);
    let s0 = Seq::<(u32, u32)>::empty();
    let s1 = push_if(s0, x != 0 && allowed(height_at(g, c), height_at(g, l), rev), l);
    let s2 = push_if(
        s1,
        x + 1 < g.width && allowed(height_at(g, c), height_at(g, r), rev),
        r,
    );
    let s3 = push_if(s2, y != 0 && allowed(height_at(g, c), height_at(g, u), rev), u);
    push_if(s3, y + 1 < g.height && allowed(height_at(g, c), height_at(g, d), rev), d)
}

/// The neighbours of a cell are exactly the cells one step from it.
pub proof fn lemma_neighbors(g: &Grid<i32>, c: (u32, u32), rev: bool)
    requires
        on_grid(g, c),
        g.width <= u32::MAX,
        g.height <= u32::MAX,
    ensures
        neighbors_of(g, c, rev).len() <= 4,
        forall|t: (u32, u32)| neighbors_of(g, c, rev).contains(t) <==> can_step(g, c, t, rev),
{
    let x = c.0;
    let y = c.1;
    let l = ((x - 1) as u32, y);
    let r = ((x + 1) as u32, y);
    let u = (x, (y - 1) as u32);
    let d = (x, (y + 1) as u32);
    let s0 = Seq::<(u32, u32)>::empty();
    let s1 = push_if(s0, x != 0 && allowed(height_at(g, c), height_at(g, l), rev), l);
    let s2 = push_if(
        s1,
        x + 1 < g.width && allowed(height_at(g, c), height_at(g, r), rev),
        r,
    );
    let s3 = push_if(s2, y != 0 && allowed(height_at(g, c), height_at(g, u), rev), u);
    let s4 = push_if(s3, y + 1 < g.height && allowed(height_at(g, c), height_at(g, d), rev), d);
    assert forall|t: (u32, u32)| s4.contains(t) <==> can_step(g, c, t, rev) by {
        if s4.contains(t) {
            let i = choose|i: int| 0 <= i < s4.len() && s4[i] == t;
            assert(t == l || t == r || t == u || t == d);
        }
        if can_step(g, c, t, rev) {
            if t == l && x != 0 {
                assert(s1.last() == l);
                assert(s1.contains(l));
            }
            if t == r && x + 1 < g.width {
                assert(s2.last() == r);
                assert(s2.contains(r));
            }
            if t == u && y != 0 {
                assert(s3.last() == u);
                assert(s3.contains(u));
            }
            if t == d && y + 1 < g.height {
                assert(s4.last() == d);
            }
            if s1.contains(t) {
                let i = choose|i: int| 0 <= i < s1.len() && s1[i] == t;
                assert(s2[i] == t);
            }
            if s2.contains(t) {
                let i = choose|i: int| 0 <= i < s2.len() && s2[i] == t;
                assert(s3[i] == t);
            }
            if s3.contains(t) {
                let i = choose|i: int| 0 <= i < s3.len() && s3[i] == t;
                assert(s4[i] == t);
            }
        }
    }
}

/// The cells one step from `c`.
pub fn neighbors_toward(grid: &Grid<GridU>, c: (CoordU, CoordU), rev: bool) -> (r:
    arrayvec::ArrayVec<(CoordU, CoordU), 4>)
    requires
        grid.wf(),
        on_grid(grid, c),
        grid.width <= u32::MAX,
        grid.height <= u32::MAX,
        forall|i: int|
            0 <= i < grid.grid_raw@.len() ==> i32::MIN < #[trigger] grid.grid_raw@[i] < i32::MAX,
    ensures
        positions(r) == neighbors_of(grid, c, rev),
{
    let (x, y) = c;
    let mut out = positions_new();
    let curr: i32 = *grid.get_unchecked(x as usize, y as usize);
    proof {
        crate::y2022::grid::lemma_index_in_bounds(
            x as int,
            y as int,
            grid.width as int,
            grid.height as int,
        );
    }
    if x != 0 {
        proof {
            crate::y2022::grid::lemma_index_in_bounds(
                x - 1,
                y as int,
                grid.width as int,
                grid.height as int,
            );
        }
        let to_go: i32 = *grid.get_unchecked((x - 1) as usize, y as usize);
        if (rev && curr <= to_go + 1) || (!rev && curr >= to_go - 1) {
            positions_push(&mut out, (x - 1, y));
        }
    }
    if x + 1 < grid.width as CoordU {
        proof {
            crate::y2022::grid::lemma_index_in_bounds(
                x + 1,
                y as int,
                grid.width as int,
                grid.height as int,
            );
        }
        let to_go: i32 = *grid.get_unchecked((x + 1) as usize, y as usize);
        if (rev && curr <= to_go + 1) || (!rev && curr >= to_go - 1) {
            positions_push(&mut out, (x + 1, y));
        }
    }
    if y != 0 {
        proof {
            crate::y2022::grid::lemma_index_in_bounds(
                x as int,
                y - 1,
                grid.width as int,
                grid.height as int,
            );
        }
        let to_go: i32 = *grid.get_unchecked(x as usize, (y - 1) as usize);
        if (rev && curr <= to_go + 1) || (!rev && curr >= to_go - 1) {
            positions_push(&mut out, (x, y - 1));
        }
    }
    if y + 1 < grid.height as CoordU {
        proof {
            crate::y2022::grid::lemma_index_in_bounds(
                x as int,
                y + 1,
                grid.width as int,
                grid.height as int,
            );
        }
        let to_go: i32 = *grid.get_unchecked(x as usize, (y + 1) as usize);
        if (rev && curr <= to_go + 1) || (!rev && curr >= to_go - 1) {
            positions_push(&mut out, (x, y + 1));
        }
    }
    out
}

/// The cells that can be entered from `c` going forwards.
pub fn neighbors(grid: &Grid<GridU>, c: (CoordU, CoordU)) -> (r: arrayvec::ArrayVec<
    (CoordU, CoordU),
    4,
>)
    requires
        grid.wf(),
        on_grid(grid, c),
        grid.width <= u32::MAX,
        grid.height <= u32::MAX,
        forall|i: int|
            0 <= i < grid.grid_raw@.len() ==> i32::MIN < #[trigger] grid.grid_raw@[i] < i32::MAX,
    ensures
        positions(r) == neighbors_of(grid, c, false),
{
    neighbors_toward(grid, c, false)
}

/// The cells from which `c` can be entered.
pub fn neighbors_rev(grid: &Grid<GridU>, c: (CoordU, CoordU)) -> (r: arrayvec::ArrayVec<
    (CoordU, CoordU),
    4,
>)
    requires
        grid.wf(),
        on_grid(grid, c),
        grid.width <= u32::MAX,
        grid.height <= u32::MAX,
        forall|i: int|
            0 <= i < grid.grid_raw@.len() ==> i32::MIN < #[trigger] grid.grid_raw@[i] < i32::MAX,
    ensures
        positions(r) == neighbors_of(grid, c, true),
{
    neighbors_toward(grid, c, true)
}


/// Every cell of the queue lies on the grid and is reached in `n` steps.
pub open spec fn sound(
    g: &Grid<i32>,
    s: (u32, u32),
    q: Seq<(u32, u32)>,
    n: nat,
    rev: bool,
) -> bool {
    forall|i: int| 0 <= i < q.len() ==> on_grid(g, #[trigger] q[i]) && reach_in(g, s, q[i], n, rev)
}

/// Every cell first reached in `n` steps is in the queue.
pub open spec fn complete(
    g: &Grid<i32>,
    s: (u32, u32),
    q: Seq<(u32, u32)>,
    n: nat,
    rev: bool,
) -> bool {
    forall|t: (u32, u32)| #[trigger] first_reach(g, s, t, n, rev) ==> q.contains(t)
}

/// No goal is reached in fewer than `n` steps.
pub open spec fn goal_free_below(
    g: &Grid<i32>,
    s: (u32, u32),
    goal: Option<(u32, u32)>,
    n: nat,
    rev: bool,
) -> bool {
    forall|m: nat| m < n ==> !goal_in(g, s, goal, m, rev)
}

/// Every marked cell was reached in the number of steps noted for it, which
/// is at most `limit`; those noted with `limit` are in the queue.
pub open spec fn marks_ok(
    g: &Grid<i32>,
    s: (u32, u32),
    marked: &Grid<bool>,
    round_of: Map<(u32, u32), nat>,
    limit: nat,
    q: Seq<(u32, u32)>,
    rev: bool,
) -> bool {
    forall|c: (u32, u32)|
        on_grid(g, c) && #[trigger] marked.cell(c.0 as int, c.1 as int) ==> {
            &&& round_of.dom().contains(c)
            &&& round_of[c] <= limit
            &&& reach_in(g, s, c, round_of[c], rev)
            &&& (round_of[c] == limit ==> q.contains(c))
        }
}

/// Every cell one step from one of the first `k` cells of the frontier is
/// marked.
pub open spec fn handled(
    g: &Grid<i32>,
    frontier: Seq<(u32, u32)>,
    k: int,
    marked: &Grid<bool>,
    rev: bool,
) -> bool {
    forall|i: int, t: (u32, u32)|
        0 <= i < k && #[trigger] can_step(g, frontier[i], t, rev) ==> marked.cell(
            t.0 as int,
            t.1 as int,
        )
}

/// When a whole frontier has been handled and held no goal, no goal is
/// reached in that many steps, and the next frontier is complete.
pub proof fn lemma_round_done(
    g: &Grid<i32>,
    s: (u32, u32),
    goal: Option<(u32, u32)>,
    frontier: Seq<(u32, u32)>,
    next: Seq<(u32, u32)>,
    marked: &Grid<bool>,
    round_of: Map<(u32, u32), nat>,
    n: nat,
    rev: bool,
)
    requires
        complete(g, s, frontier, n, rev),
        goal_free_below(g, s, goal, n, rev),
        forall|i: int| 0 <= i < frontier.len() ==> !is_goal(g, #[trigger] frontier[i], goal),
        handled(g, frontier, frontier.len() as int, marked, rev),
        marks_ok(g, s, marked, round_of, n + 1, next, rev),
    ensures
        goal_free_below(g, s, goal, n + 1, rev),
        complete(g, s, next, n + 1, rev),
{
    assert forall|m: nat| m < n + 1 implies !goal_in(g, s, goal, m, rev) by {
        if m == n && goal_in(g, s, goal, n, rev) {
            let t = choose|t: (u32, u32)| is_goal(g, t, goal) && #[trigger] reach_in(g, s, t, n, rev);
            assert forall|j: nat| j < n implies !reach_in(g, s, t, j, rev) by {
                if reach_in(g, s, t, j, rev) {
                    assert(goal_in(g, s, goal, j, rev));
                }
            }
            assert(first_reach(g, s, t, n, rev));
            assert(frontier.contains(t));
            let i = choose|i: int| 0 <= i < frontier.len() && frontier[i] == t;
            assert(!is_goal(g, frontier[i], goal));
        }
    }
    let n1: nat = n + 1;
    assert forall|t: (u32, u32)| #[trigger] first_reach(g, s, t, n1, rev) implies next.contains(
        t,
    ) by {
        lemma_reach_last(g, s, t, n, rev);
        let u = choose|u: (u32, u32)| #[trigger] reach_in(g, s, u, n, rev) && can_step(g, u, t, rev);
        assert forall|j: nat| j < n implies !reach_in(g, s, u, j, rev) by {
            if reach_in(g, s, u, j, rev) {
                lemma_reach_extend(g, s, u, t, j, rev);
                assert(j + 1 < n1);
            }
        }
        assert(first_reach(g, s, u, n, rev));
        assert(frontier.contains(u));
        let i = choose|i: int| 0 <= i < frontier.len() && frontier[i] == u;
        assert(can_step(g, frontier[i], t, rev));
        assert(marked.cell(t.0 as int, t.1 as int));
        assert(round_of[t] <= n1);
        if round_of[t] < n1 {
            assert(!reach_in(g, s, t, round_of[t], rev));
        }
    }
}

/// The fewest steps from `start` to a goal, by breadth-first search: the
/// cells reached in `length` steps are explored while those one step
/// further are collected, and then the two queues change places.
pub fn search(
    grid: &Grid<GridU>,
    start: (CoordU, CoordU),
    goal: Option<(CoordU, CoordU)>,
    rev: bool,
) -> (length: usize)
    requires
        grid.wf(),
        on_grid(grid, start),
        grid.width <= u32::MAX,
        grid.height <= u32::MAX,
        forall|i: int|
            0 <= i < grid.grid_raw@.len() ==> i32::MIN < #[trigger] grid.grid_raw@[i] < i32::MAX,
        exists|n: nat| n <= usize::MAX && #[trigger] goal_in(grid, start, goal, n, rev),
    ensures
        shortest(grid, start, goal, length as nat, rev),
{
    let ghost bound: nat = choose|n: nat|
        n <= usize::MAX && #[trigger] goal_in(grid, start, goal, n, rev);
    let mut length: usize = 0;
    let mut to_explore: VecDeque<(CoordU, CoordU)> = VecDeque::new();
    let mut to_explore_next: VecDeque<(CoordU, CoordU)> = VecDeque::new();
    to_explore.push_back(start);
    let mut marked: Grid<bool> = Grid::from_vec(
        grid.width,
        grid.height,
        filled(grid.grid_raw.len(), false),
    );
    let ghost mut round_of: Map<(u32, u32), nat> = Map::empty();
    proof {
        lemma_reach_zero(grid, start, start, rev);
        assert(to_explore@ =~= seq![start]);
        assert forall|t: (u32, u32)| #[trigger]
            first_reach(grid, start, t, 0, rev) implies to_explore@.contains(t) by {
            lemma_reach_zero(grid, start, t, rev);
            assert(to_explore@[0] == t);
        }
        assert forall|c: (u32, u32)|
            on_grid(grid, c) implies !#[trigger] marked.cell(c.0 as int, c.1 as int) by {
            crate::y2022::grid::lemma_index_in_bounds(
                c.0 as int,
                c.1 as int,
                grid.width as int,
                grid.height as int,
            );
        }
    }
    loop
        invariant
            grid.wf(),
            marked.wf(),
            marked.width == grid.width,
            marked.height == grid.height,
            grid.width <= u32::MAX,
            grid.height <= u32::MAX,
            forall|i: int|
                0 <= i < grid.grid_raw@.len() ==> i32::MIN < #[trigger] grid.grid_raw@[i]
                    < i32::MAX,
            bound <= usize::MAX,
            goal_in(grid, start, goal, bound, rev),
            length <= bound,
            to_explore_next@.len() == 0,
            sound(grid, start, to_explore@, length as nat, rev),
            complete(grid, start, to_explore@, length as nat, rev),
            goal_free_below(grid, start, goal, length as nat, rev),
            marks_ok(grid, start, &marked, round_of, length as nat, to_explore@, rev),
        decreases bound - length,
    {
        let ghost frontier = to_explore@;
        let ghost mut k: int = 0;
        proof {
            assert(to_explore@ =~= frontier.subrange(0, frontier.len() as int));
        }
        loop
            invariant
                grid.wf(),
                marked.wf(),
                marked.width == grid.width,
                marked.height == grid.height,
                grid.width <= u32::MAX,
                grid.height <= u32::MAX,
                forall|i: int|
                    0 <= i < grid.grid_raw@.len() ==> i32::MIN < #[trigger] grid.grid_raw@[i]
                        < i32::MAX,
                0 <= k <= frontier.len(),
                to_explore@ == frontier.subrange(k, frontier.len() as int),
                sound(grid, start, frontier, length as nat, rev),
                sound(grid, start, to_explore_next@, (length + 1) as nat, rev),
                goal_free_below(grid, start, goal, length as nat, rev),
                forall|i: int| 0 <= i < k ==> !is_goal(grid, #[trigger] frontier[i], goal),
                handled(grid, frontier, k, &marked, rev),
                marks_ok(
                    grid,
                    start,
                    &marked,
                    round_of,
                    (length + 1) as nat,
                    to_explore_next@,
                    rev,
                ),
            ensures
                k == frontier.len(),
                to_explore@.len() == 0,
            decreases frontier.len() - k,
        {
            let coord = match to_explore.pop_front() {
                Some(c) => c,
                None => {
                    break ;
                },
            };
            proof {
                assert(coord == frontier[k]);
                assert(to_explore@ =~= frontier.subrange(k + 1, frontier.len() as int));
            }
            let found = match goal {
                Some(e) => coord.0 == e.0 && coord.1 == e.1,
                None => *grid.get_unchecked(coord.0 as usize, coord.1 as usize) == 97,
            };
            if found {
                proof {
                    assert(is_goal(grid, coord, goal));
                    assert(reach_in(grid, start, coord, length as nat, rev));
                }
                return length;
            }
            let ns = if rev {
                neighbors_rev(grid, coord)
            } else {
                neighbors(grid, coord)
            };
            let count = positions_len(&ns);
            proof {
                lemma_neighbors(grid, coord, rev);
            }
            let mut j: usize = 0;
            while j < count
                invariant
                    grid.wf(),
                    marked.wf(),
                    marked.width == grid.width,
                    marked.height == grid.height,
                    grid.width <= u32::MAX,
                    grid.height <= u32::MAX,
                    0 <= k < frontier.len(),
                    coord == frontier[k],
                    j <= count,
                    count == positions(ns).len(),
                    positions(ns) == neighbors_of(grid, coord, rev),
                    forall|t: (u32, u32)|
                        neighbors_of(grid, coord, rev).contains(t) <==> can_step(
                            grid,
                            coord,
                            t,
                            rev,
                        ),
                    sound(grid, start, frontier, length as nat, rev),
                    sound(grid, start, to_explore_next@, (length + 1) as nat, rev),
                    handled(grid, frontier, k, &marked, rev),
                    forall|jj: int|
                        0 <= jj < j ==> marked.cell(
                            (#[trigger] positions(ns)[jj]).0 as int,
                            positions(ns)[jj].1 as int,
                        ),
                    marks_ok(
                        grid,
                        start,
                        &marked,
                        round_of,
                        (length + 1) as nat,
                        to_explore_next@,
                        rev,
                    ),
                decreases count - j,
            {
                let n = positions_get(&ns, j);
                proof {
                    assert(neighbors_of(grid, coord, rev).contains(n));
                    assert(can_step(grid, coord, n, rev));
                }
                if !*marked.get_unchecked(n.0 as usize, n.1 as usize) {
                    let ghost old_marked = marked;
                    let ghost old_next = to_explore_next@;
                    to_explore_next.push_back(n);
                    marked.set(n.0 as usize, n.1 as usize, true);
                    proof {
                        lemma_reach_extend(grid, start, coord, n, length as nat, rev);
                        round_of = round_of.insert(n, (length + 1) as nat);
                        assert(to_explore_next@ == old_next.push(n));
                        assert(to_explore_next@.last() == n);
                        assert forall|c: (u32, u32)|
                            on_grid(grid, c) && old_marked.cell(
                                c.0 as int,
                                c.1 as int,
                            ) implies #[trigger] marked.cell(c.0 as int, c.1 as int) by {}
                        assert forall|c: (u32, u32)|
                            on_grid(grid, c) && #[trigger] marked.cell(
                                c.0 as int,
                                c.1 as int,
                            ) implies {
                            &&& round_of.dom().contains(c)
                            &&& round_of[c] <= length + 1
                            &&& reach_in(grid, start, c, round_of[c], rev)
                            &&& (round_of[c] == length + 1 ==> to_explore_next@.contains(c))
                        } by {
                            if c == n {
                            } else {
                                assert(old_marked.cell(c.0 as int, c.1 as int));
                                if round_of[c] == length + 1 {
                                    let i = choose|i: int|
                                        0 <= i < old_next.len() && old_next[i] == c;
                                    assert(to_explore_next@[i] == c);
                                }
                            }
                        }
                        assert forall|i: int|
                            0 <= i < to_explore_next@.len() implies on_grid(
                            grid,
                            #[trigger] to_explore_next@[i],
                        ) && reach_in(
                            grid,
                            start,
                            to_explore_next@[i],
                            (length + 1) as nat,
                            rev,
                        ) by {
                            if i < old_next.len() {
                                assert(to_explore_next@[i] == old_next[i]);
                            }
                        }
                        assert forall|i: int, t: (u32, u32)|
                            0 <= i < k && #[trigger] can_step(
                                grid,
                                frontier[i],
                                t,
                                rev,
                            ) implies marked.cell(t.0 as int, t.1 as int) by {
                            assert(old_marked.cell(t.0 as int, t.1 as int));
                        }
                        assert forall|jj: int| 0 <= jj < j + 1 implies marked.cell(
                            (#[trigger] positions(ns)[jj]).0 as int,
                            positions(ns)[jj].1 as int,
                        ) by {
                            let q = positions(ns)[jj];
                            assert(neighbors_of(grid, coord, rev).contains(q));
                            if jj < j {
                                assert(old_marked.cell(q.0 as int, q.1 as int));
                            }
                        }
                    }
                }
                j += 1;
            }
            proof {
                assert forall|i: int, t: (u32, u32)|
                    0 <= i < k + 1 && #[trigger] can_step(
                        grid,
                        frontier[i],
                        t,
                        rev,
                    ) implies marked.cell(t.0 as int, t.1 as int) by {
                    if i == k {
                        assert(neighbors_of(grid, coord, rev).contains(t));
                        let jj = choose|jj: int|
                            0 <= jj < positions(ns).len() && positions(ns)[jj] == t;
                        assert(marked.cell(
                            positions(ns)[jj].0 as int,
                            positions(ns)[jj].1 as int,
                        ));
                    }
                }
                k = k + 1;
            }
        }
        proof {
            lemma_round_done(
                grid,
                start,
                goal,
                frontier,
                to_explore_next@,
                &marked,
                round_of,
                length as nat,
                rev,
            );
            assert(!goal_in(grid, start, goal, length as nat, rev));
        }
        length += 1;
        core::mem::swap(&mut to_explore, &mut to_explore_next);
    }
}

/// The fewest steps from `start` to `end`, each step upwards by at most
/// one.
pub fn bfs_length(grid: &Grid<GridU>, start: (CoordU, CoordU), end: (CoordU, CoordU)) -> (length:
    usize)
    requires
        grid.wf(),
        on_grid(grid, start),
        grid.width <= u32::MAX,
        grid.height <= u32::MAX,
        forall|i: int|
            0 <= i < grid.grid_raw@.len() ==> i32::MIN < #[trigger] grid.grid_raw@[i] < i32::MAX,
        exists|n: nat| n <= usize::MAX && #[trigger] goal_in(grid, start, Some(end), n, false),
    ensures
        shortest(grid, start, Some(end), length as nat, false),
{
    search(grid, start, Some(end), false)
}

/// The fewest steps to `end` from any cell of the lowest height, found by
/// walking backwards from `end`.
pub fn bfs_length_rev(grid: &Grid<GridU>, end: (CoordU, CoordU)) -> (length: usize)
    requires
        grid.wf(),
        on_grid(grid, end),
        grid.width <= u32::MAX,
        grid.height <= u32::MAX,
        forall|i: int|
            0 <= i < grid.grid_raw@.len() ==> i32::MIN < #[trigger] grid.grid_raw@[i] < i32::MAX,
        exists|n: nat| n <= usize::MAX && #[trigger] goal_in(grid, end, None, n, true),
    ensures
        shortest(grid, end, None, length as nat, true),
{
    search(grid, end, None, true)
}


/// The grid of the bytes of the map, which must be a rectangle.
pub fn input_to_grid(input: &str) -> (g: Grid<u8>)
    requires
        is_rect(lines_of(input.spec_bytes())),
    ensures
        g.wf(),
        g.width == lines_of(input.spec_bytes())[0].len(),
        g.height == lines_of(input.spec_bytes()).len(),
        g.grid_raw@ == flat(lines_of(input.spec_bytes())),
{
    let ls = lines(input.as_bytes());
    let width = ls[0].len();
    let height = ls.len();
    let grid_raw = rect_cells(&ls);
    proof {
        assert(width * height == height * width) by (nonlinear_arith);
    }
    Grid::from_vec(width, height, grid_raw)
}

/// Whether `p` is the last cell holding `ch`, going down column after
/// column.
pub open spec fn is_last_of(g: &Grid<u8>, ch: u8, p: (u32, u32)) -> bool {
    &&& g.inside(p.0 as int, p.1 as int)
    &&& g.cell(p.0 as int, p.1 as int) == ch
    &&& forall|x: int, y: int|
        g.inside(x, y) && #[trigger] g.cell(x, y) == ch ==> x < p.0 || (x == p.0 && y <= p.1)
}

/// The cells marked `S` and `E`; where a mark occurs more than once, the
/// last one counts, going down column after column.
pub fn find_start_end(grid: &Grid<u8>) -> (r: ((CoordU, CoordU), (CoordU, CoordU)))
    requires
        grid.wf(),
        grid.width <= u32::MAX,
        grid.height <= u32::MAX,
        exists|x: int, y: int| grid.inside(x, y) && #[trigger] grid.cell(x, y) == 83,
        exists|x: int, y: int| grid.inside(x, y) && #[trigger] grid.cell(x, y) == 69,
    ensures
        is_last_of(grid, 83, r.0),
        is_last_of(grid, 69, r.1),
{
    let mut start: Option<(CoordU, CoordU)> = None;
    let mut end: Option<(CoordU, CoordU)> = None;
    let mut x: usize = 0;
    while x < grid.width
        invariant
            grid.wf(),
            grid.width <= u32::MAX,
            grid.height <= u32::MAX,
            x <= grid.width,
            found_so_far(grid, 83, start, x as int, 0),
            found_so_far(grid, 69, end, x as int, 0),
        decreases grid.width - x,
    {
        let mut y: usize = 0;
        while y < grid.height
            invariant
                grid.wf(),
                grid.width <= u32::MAX,
                grid.height <= u32::MAX,
                x < grid.width,
                y <= grid.height,
                found_so_far(grid, 83, start, x as int, y as int),
                found_so_far(grid, 69, end, x as int, y as int),
            decreases grid.height - y,
        {
            if *grid.get_unchecked(x, y) == 83 {
                start = Some((x as CoordU, y as CoordU));
            } else if *grid.get_unchecked(x, y) == 69 {
                end = Some((x as CoordU, y as CoordU));
            }
            y += 1;
        }
        x += 1;
    }
    (start.unwrap(), end.unwrap())
}

/// Whether `found` is the last cell holding `ch` among those before
/// `(x, y)`, going down column after column; `None` when there is none.
pub open spec fn found_so_far(
    g: &Grid<u8>,
    ch: u8,
    found: Option<(u32, u32)>,
    x: int,
    y: int,
) -> bool {
    match found {
        Some(p) => {
            &&& g.inside(p.0 as int, p.1 as int)
            &&& g.cell(p.0 as int, p.1 as int) == ch
            &&& forall|a: int, b: int|
                g.inside(a, b) && (a < x || (a == x && b < y)) && #[trigger] g.cell(a, b) == ch
                    ==> a < p.0 || (a == p.0 && b <= p.1)
        },
        None => forall|a: int, b: int|
            g.inside(a, b) && (a < x || (a == x && b < y)) ==> #[trigger] g.cell(a, b) != ch,
    }
}

/// The height that a byte of the map stands for: `S` is as low as `a`, `E`
/// as high as `z`, a letter is its own code.
pub open spec fn elevation(c: u8) -> i32 {
    if c == 83 {
        97
    } else if c == 69 {
        122
    } else {
        c as i32
    }
}

/// Whether `c` is a byte that a map may hold.
pub open spec fn is_map_byte(c: u8) -> bool {
    c == 83 || c == 69 || (97 <= c <= 122)
}

/// The heights of a map.
pub fn char_grid_to_int(grid: Grid<u8>) -> (r: Grid<GridU>)
    requires
        grid.wf(),
        forall|i: int| 0 <= i < grid.grid_raw@.len() ==> is_map_byte(#[trigger] grid.grid_raw@[i]),
    ensures
        r.wf(),
        r.width == grid.width,
        r.height == grid.height,
        r.grid_raw@ == grid.grid_raw@.map_values(|c: u8| elevation(c)),
{
    let mut out: Vec<GridU> = Vec::new();
    let mut i: usize = 0;
    while i < grid.grid_raw.len()
        invariant
            i <= grid.grid_raw.len(),
            out@ == grid.grid_raw@.subrange(0, i as int).map_values(|c: u8| elevation(c)),
        decreases grid.grid_raw.len() - i,
    {
        let c = grid.grid_raw[i];
        let v: GridU = if c == 83 {
            97
        } else if c == 69 {
            122
        } else {
            c as GridU
        };
        out.push(v);
        i += 1;
        proof {
            assert(out@ =~= grid.grid_raw@.subrange(0, i as int).map_values(|c: u8| elevation(c)));
        }
    }
    proof {
        assert(grid.grid_raw@.subrange(0, i as int) =~= grid.grid_raw@);
    }
    Grid::from_vec(grid.width, grid.height, out)
}

/// Whether the grids `cells` and `g` hold the map of the lines `ls` and its
/// heights.
pub open spec fn models(cells: &Grid<u8>, g: &Grid<i32>, ls: Seq<Seq<u8>>) -> bool {
    &&& cells.wf()
    &&& cells.width == ls[0].len()
    &&& cells.height == ls.len()
    &&& cells.grid_raw@ == flat(ls)
    &&& g.wf()
    &&& g.width == cells.width
    &&& g.height == cells.height
    &&& g.grid_raw@ == flat(ls).map_values(|c: u8| elevation(c))
}

/// Whether the text is a map: a rectangle of letters with a start and an
/// end, whose sides can be counted in 32 bits.
pub open spec fn is_map(s: Seq<u8>) -> bool {
    let ls = lines_of(s);
    &&& is_rect(ls)
    &&& ls.len() <= u32::MAX
    &&& ls[0].len() <= u32::MAX
    &&& forall|i: int| 0 <= i < flat(ls).len() ==> is_map_byte(#[trigger] flat(ls)[i])
    &&& exists|i: int| 0 <= i < flat(ls).len() && #[trigger] flat(ls)[i] == 83
    &&& exists|i: int| 0 <= i < flat(ls).len() && #[trigger] flat(ls)[i] == 69
}

/// Whether `n` answers the first part for the map `s`: the fewest steps
/// from the start to the end.
pub open spec fn answers_part1(s: Seq<u8>, n: nat) -> bool {
    exists|cells: Grid<u8>, g: Grid<i32>, a: (u32, u32), e: (u32, u32)|
        #![trigger models(&cells, &g, lines_of(s)), is_last_of(&cells, 83, a), is_last_of(&cells, 69, e)]
        {
            &&& models(&cells, &g, lines_of(s))
            &&& is_last_of(&cells, 83, a)
            &&& is_last_of(&cells, 69, e)
            &&& shortest(&g, a, Some(e), n, false)
        }
}

/// Whether `n` answers the second part for the map `s`: the fewest steps
/// to the end from any cell of the lowest height.
pub open spec fn answers_part2(s: Seq<u8>, n: nat) -> bool {
    exists|cells: Grid<u8>, g: Grid<i32>, e: (u32, u32)|
        #![trigger models(&cells, &g, lines_of(s)), is_last_of(&cells, 69, e)]
        {
            &&& models(&cells, &g, lines_of(s))
            &&& is_last_of(&cells, 69, e)
            &&& shortest(&g, e, None, n, true)
        }
}

/// Whether the end of the map `s` can be reached from its start.
pub open spec fn part1_solvable(s: Seq<u8>) -> bool {
    forall|cells: Grid<u8>, g: Grid<i32>, a: (u32, u32), e: (u32, u32)|
        #![trigger models(&cells, &g, lines_of(s)), is_last_of(&cells, 83, a), is_last_of(&cells, 69, e)]
        models(&cells, &g, lines_of(s)) && is_last_of(&cells, 83, a) && is_last_of(&cells, 69, e)
            ==> exists|n: nat| n <= usize::MAX && #[trigger] goal_in(&g, a, Some(e), n, false)
}

/// Whether the end of the map `s` can be reached from a lowest cell.
pub open spec fn part2_solvable(s: Seq<u8>) -> bool {
    forall|cells: Grid<u8>, g: Grid<i32>, e: (u32, u32)|
        #![trigger models(&cells, &g, lines_of(s)), is_last_of(&cells, 69, e)]
        models(&cells, &g, lines_of(s)) && is_last_of(&cells, 69, e) ==> exists|n: nat|
            n <= usize::MAX && #[trigger] goal_in(&g, e, None, n, true)
}

/// The grid of the map and the grid of its heights.
fn read_map(input: &str) -> (r: (Grid<u8>, Grid<GridU>))
    requires
        is_map(input.spec_bytes()),
    ensures
        models(&r.0, &r.1, lines_of(input.spec_bytes())),
        r.0.width <= u32::MAX,
        r.0.height <= u32::MAX,
        exists|x: int, y: int| r.0.inside(x, y) && #[trigger] r.0.cell(x, y) == 83,
        exists|x: int, y: int| r.0.inside(x, y) && #[trigger] r.0.cell(x, y) == 69,
        forall|i: int|
            0 <= i < r.1.grid_raw@.len() ==> i32::MIN < #[trigger] r.1.grid_raw@[i] < i32::MAX,
{
    let cells = input_to_grid(input);
    let copy = Grid::from_vec(cells.width, cells.height, crate::text::copy_range(
        cells.grid_raw.as_slice(),
        0,
        cells.grid_raw.len(),
    ));
    proof {
        let ls = lines_of(input.spec_bytes());
        assert(copy.grid_raw@ =~= cells.grid_raw@);
        let i = choose|i: int| 0 <= i < flat(ls).len() && #[trigger] flat(ls)[i] == 83;
        crate::y2022::grid::lemma_cell_of_index(&cells, i);
        let w = cells.width as int;
        assert(cells.inside(i % w, i / w) && cells.cell(i % w, i / w) == 83);
        let j = choose|i: int| 0 <= i < flat(ls).len() && #[trigger] flat(ls)[i] == 69;
        crate::y2022::grid::lemma_cell_of_index(&cells, j);
        assert(cells.inside(j % w, j / w) && cells.cell(j % w, j / w) == 69);
    }
    let heights = char_grid_to_int(copy);
    (cells, heights)
}

/// The fewest steps from the start of the map to its end.
pub fn day12_1(input: &str) -> (r: usize)
    requires
        is_map(input.spec_bytes()),
        part1_solvable(input.spec_bytes()),
    ensures
        answers_part1(input.spec_bytes(), r as nat),
{
    let (cells, grid) = read_map(input);
    let (start, end) = find_start_end(&cells);
    proof {
        assert(models(&cells, &grid, lines_of(input.spec_bytes())) && is_last_of(&cells, 83, start)
            && is_last_of(&cells, 69, end));
    }
    let r = bfs_length(&grid, start, end);
    proof {
        assert(models(&cells, &grid, lines_of(input.spec_bytes())) && is_last_of(&cells, 83, start)
            && is_last_of(&cells, 69, end) && shortest(&grid, start, Some(end), r as nat, false));
    }
    r
}

/// The fewest steps to the end of the map from any of its lowest cells.
pub fn day12_2(input: &str) -> (r: usize)
    requires
        is_map(input.spec_bytes()),
        part2_solvable(input.spec_bytes()),
    ensures
        answers_part2(input.spec_bytes(), r as nat),
{
    let (cells, grid) = read_map(input);
    let (_, end) = find_start_end(&cells);
    proof {
        assert(models(&cells, &grid, lines_of(input.spec_bytes())) && is_last_of(&cells, 69, end));
    }
    let r = bfs_length_rev(&grid, end);
    proof {
        assert(models(&cells, &grid, lines_of(input.spec_bytes())) && is_last_of(&cells, 69, end)
            && shortest(&grid, end, None, r as nat, true));
    }
    r
}

} // verus!
