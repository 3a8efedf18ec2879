//! Valves in a cave of tunnels: which to open, and in which order, to
//! release the most pressure in the minutes that are left.

use crate::text::{
    after_prefix, bytes_eq, cut_once, lines, lines_of, parse_i32, parse_int, split, split_on,
    split_once, strip_prefix, views,
};
use vstd::prelude::*;
use vstd::string::*;

verus! {

/// A valve: its name, and the pressure that it releases in a minute once
/// it is open.
#[derive(Debug, Clone, PartialEq, Eq)]
pub struct Valve {
    pub name: Vec<u8>,
    pub flow_rate: i32,
}

/// A valve as a value of mathematics.
pub struct Tap {
    pub name: Seq<u8>,
    pub flow_rate: int,
}

impl Valve {
    pub fn new(name: Vec<u8>, flow_rate: i32) -> (r: Self)
        ensures
            r.name == name,
            r.flow_rate == flow_rate,
    {
        Self { name, flow_rate }
    }

    /// The valve as a value of mathematics.
    pub open spec fn view(&self) -> Tap {
        Tap { name: self.name@, flow_rate: self.flow_rate as int }
    }
}

/// Whether the valve is worth going to: it releases pressure, or it is
/// the valve `AA`, where the way begins.
pub open spec fn is_good(v: Tap) -> bool {
    v.flow_rate > 0 || v.name == seq![65u8, 65u8]
}

/// Whether the valve is worth going to.
pub fn good_valve(valve: &Valve) -> (r: bool)
    ensures
        r == is_good(valve@),
{
    let aa: [u8; 2] = [65, 65];
    proof {
        assert(aa@ =~= seq![65u8, 65u8]);
    }
    valve.flow_rate > 0 || bytes_eq(valve.name.as_slice(), aa.as_slice())
}

/// The valves of a cave, and for each the valves to which a way leads
/// from it, each with the minutes that it takes to go there and open it.
#[derive(Debug)]
pub struct Cave {
    pub valves: Vec<Valve>,
    pub ways: Vec<Vec<(u8, i32)>>,
}

/// A cave as a value of mathematics.
pub struct Chart {
    pub names: Seq<Seq<u8>>,
    pub flows: Seq<int>,
    pub ways: Seq<Seq<(u8, i32)>>,
}

impl Cave {
    /// The cave as a value of mathematics.
    pub open spec fn view(&self) -> Chart {
        Chart {
            names: Seq::new(self.valves@.len(), |i: int| self.valves@[i].name@),
            flows: Seq::new(self.valves@.len(), |i: int| self.valves@[i].flow_rate as int),
            ways: Seq::new(self.ways@.len(), |i: int| self.ways@[i]@),
        }
    }
}

impl Chart {
    /// Every valve has its ways, which lead to valves of the cave and
    /// take a minute or more, and no valve takes pressure away.
    pub open spec fn wf(&self) -> bool {
        &&& self.flows.len() == self.ways.len()
        &&& self.flows.len() <= 255
        &&& forall|i: int| 0 <= i < self.flows.len() ==> 0 <= #[trigger] self.flows[i] <= 10000
        &&& forall|i: int, k: int|
            0 <= i < self.ways.len() && 0 <= k < self.ways[i].len() ==> (#[trigger] self.ways[i][k]).0
                < self.flows.len() && 1 <= self.ways[i][k].1
        &&& forall|i: int| 0 <= i < self.ways.len() ==> (#[trigger] self.ways[i]).len() <= 255
    }
}

/// A walk from valve to valve in the `M` minutes that there are: the
/// valves opened so far, the minute, the pressure released so far, and
/// the pressure that the open valves release in a minute.
#[derive(Debug, Clone, PartialEq, Eq)]
pub struct VolcanoPath<const M: usize> {
    pub visited: Vec<u8>,
    pub minute: i32,
    pub pressure: i32,
    pub pressure_release: i32,
}

/// A walk as a value of mathematics.
pub struct Walk {
    pub visited: Seq<u8>,
    pub minute: int,
    pub pressure: int,
    pub pressure_release: int,
}

impl Walk {
    /// The ways that lead on from the walk in a cave: to valves that it
    /// has not opened, in less than the `m` minutes that there are.
    pub open spec fn next_ways(self, c: Chart, m: int, k: nat) -> Seq<(u8, i32)>
        decreases k,
    {
        if k == 0 {
            Seq::empty()
        } else {
            let before = self.next_ways(c, m, (k - 1) as nat);
            let way = c.ways[self.visited.last() as int][k - 1];
            if way.1 + self.minute < m && !self.visited.contains(way.0) {
                before.push(way)
            } else {
                before
            }
        }
    }

    /// All the ways that lead on from the walk.
    pub open spec fn all_next(self, c: Chart, m: int) -> Seq<(u8, i32)> {
        self.next_ways(c, m, c.ways[self.visited.last() as int].len())
    }

    /// The walk after it has taken the way: the pressure is released
    /// meanwhile, and then the valve at the end is open.
    pub open spec fn gone(self, c: Chart, way: (u8, i32)) -> Walk {
        Walk {
            visited: self.visited.push(way.0),
            minute: way.1 + self.minute,
            pressure: self.pressure_release * way.1 + self.pressure,
            pressure_release: self.pressure_release + c.flows[way.0 as int],
        }
    }

    /// The pressure released when the minutes are over and the walk has
    /// gone no further.
    pub open spec fn end_pressure(self, m: int) -> int {
        self.pressure + self.pressure_release * (m - self.minute)
    }

    /// The numbers of the walk are what at most a walk of `m` minutes
    /// can have, and it has begun.
    pub open spec fn fits(self, m: int) -> bool {
        &&& self.visited.len() > 0
        &&& 0 <= self.minute <= m <= 100
        &&& 0 <= self.pressure_release <= 1010000
        &&& 0 <= self.pressure <= 1010000 * self.minute
    }

    /// The walk is one that a cave allows: it has begun, it stands at a
    /// valve of the cave, and time and pressure are what at most a walk
    /// of so many minutes can have.
    pub open spec fn sane(self, c: Chart, m: int) -> bool {
        &&& self.visited.len() > 0
        &&& self.visited.last() < c.flows.len()
        &&& 0 <= m <= 100
        &&& 0 <= self.minute <= m
        &&& 0 <= self.pressure_release <= 10000 * self.visited.len()
        &&& self.visited.len() <= self.minute + 1
        &&& 0 <= self.pressure <= 1010000 * self.minute
    }
}

impl<const M: usize> VolcanoPath<M> {
    /// The walk as a value of mathematics.
    pub open spec fn view(&self) -> Walk {
        Walk {
            visited: self.visited@,
            minute: self.minute as int,
            pressure: self.pressure as int,
            pressure_release: self.pressure_release as int,
        }
    }

    /// The walk that has only begun, at `start`.
    pub fn new(start: u8) -> (r: Self)
        ensures
            r@ == (Walk { visited: seq![start], minute: 0, pressure: 0, pressure_release: 0 }),
    {
        let mut visited: Vec<u8> = Vec::new();
        visited.push(start);
        proof {
            assert(visited@ =~= seq![start]);
        }
        Self { visited, minute: 0, pressure: 0, pressure_release: 0 }
    }

    /// The valve at which the walk stands.
    pub fn current(&self) -> (r: u8)
        requires
            self@.visited.len() > 0,
        ensures
            r == self@.visited.last(),
    {
        self.visited[self.visited.len() - 1]
    }

    /// The ways that lead on from the walk.
    pub fn possible_next_edges(&self, graph: &Cave) -> (r: Vec<(u8, i32)>)
        requires
            graph@.wf(),
            self@.sane(graph@, M as int),
        ensures
            r@ == self@.all_next(graph@, M as int),
            r@.len() <= 255,
    {
        let here = self.current() as usize;
        let ways = &graph.ways[here];
        assert(ways@ == graph@.ways[here as int]);
        let mut out: Vec<(u8, i32)> = Vec::new();
        let mut k: usize = 0;
        while k < ways.len()
            invariant
                k <= ways@.len(),
                ways@ == graph@.ways[here as int],
                here == self@.visited.last(),
                graph@.wf(),
                self@.sane(graph@, M as int),
                out@ == self@.next_ways(graph@, M as int, k as nat),
                out@.len() <= k,
            decreases ways.len() - k,
        {
            let way = ways[k];
            assert(1 <= graph@.ways[here as int][k as int].1);
            if way.1 < M as i32 - self.minute {
                let mut seen = false;
                let mut j: usize = 0;
                while j < self.visited.len() && !seen
                    invariant
                        j <= self.visited@.len(),
                        seen ==> self.visited@.contains(way.0),
                        !seen ==> forall|q: int| 0 <= q < j ==> self.visited@[q] != way.0,
                    decreases self.visited.len() - j + if seen { 0int } else { 1int },
                {
                    if self.visited[j] == way.0 {
                        seen = true;
                    } else {
                        j += 1;
                    }
                }
                if !seen {
                    out.push(way);
                }
            }
            k += 1;
        }
        out
    }

    /// The walk after it has taken the way `edge`.
    pub fn goto(&self, edge: (u8, i32), graph: &Cave) -> (r: Self)
        requires
            graph@.wf(),
            self@.sane(graph@, M as int),
            edge.0 < graph@.flows.len(),
            1 <= edge.1,
            edge.1 + self.minute < M,
        ensures
            r@ == self@.gone(graph@, edge),
            r@.sane(graph@, M as int),
    {
        let mut visited = self.visited.clone();
        visited.push(edge.0);
        proof {
            assert(visited@ =~= self.visited@.push(edge.0));
            lemma_gone(self@, graph@, M as int, edge);
            assert(graph@.flows[edge.0 as int] == graph.valves@[edge.0 as int].flow_rate);
        }
        Self {
            visited,
            minute: edge.1 + self.minute,
            pressure: self.pressure_release * edge.1 + self.pressure,
            pressure_release: self.pressure_release + graph.valves[edge.0 as usize].flow_rate,
        }
    }

    /// The pressure released when the minutes are over and the walk has
    /// gone no further.
    pub fn final_pressure(&self) -> (r: i32)
        requires
            0 <= self.minute <= M <= 100,
            0 <= self.pressure_release <= 1010000,
            0 <= self.pressure <= 1010000 * self.minute,
        ensures
            r == self@.end_pressure(M as int),
            0 <= r <= 101000000,
    {
        proof {
            lemma_end(self@, M as int);
        }
        self.pressure + self.pressure_release * (M as i32 - self.minute)
    }
}

/// The numbers of a walk that has taken a way fit in 32 bits, and the
/// walk is one that the cave allows.
pub proof fn lemma_gone(w: Walk, c: Chart, m: int, way: (u8, i32))
    requires
        c.wf(),
        w.sane(c, m),
        way.0 < c.flows.len(),
        1 <= way.1,
        way.1 + w.minute < m,
    ensures
        w.gone(c, way).sane(c, m),
        0 <= w.pressure_release * way.1 <= 1010000 * way.1,
        w.gone(c, way).pressure <= i32::MAX,
        w.gone(c, way).pressure_release <= i32::MAX,
{
    assert(0 <= c.flows[way.0 as int] <= 10000);
    assert(0 <= w.pressure_release * way.1 <= 1010000 * way.1) by (nonlinear_arith)
        requires
            0 <= w.pressure_release <= 1010000,
            1 <= way.1,
    ;
    assert(w.gone(c, way).visited.last() == way.0);
}

/// The pressure at the end fits in 32 bits.
pub proof fn lemma_end(w: Walk, m: int)
    requires
        0 <= w.minute <= m <= 100,
        0 <= w.pressure_release <= 1010000,
        0 <= w.pressure <= 1010000 * w.minute,
    ensures
        0 <= w.pressure_release * (m - w.minute) <= 1010000 * (m - w.minute),
        0 <= w.end_pressure(m) <= 101000000,
{
    assert(0 <= w.pressure_release * (m - w.minute) <= 1010000 * (m - w.minute))
        by (nonlinear_arith)
        requires
            0 <= w.pressure_release <= 1010000,
            0 <= m - w.minute,
    ;
}


/// The walks as values of mathematics.
pub open spec fn walks<const M: usize>(v: Seq<VolcanoPath<M>>) -> Seq<Walk> {
    Seq::new(v.len(), |i: int| v[i]@)
}

/// The stack with the walks that go on from `w` by the first `k` of the
/// ways.
pub open spec fn pushed(stack: Seq<Walk>, w: Walk, c: Chart, ways: Seq<(u8, i32)>, k: nat) -> Seq<
    Walk,
>
    decreases k,
{
    if k == 0 {
        stack
    } else {
        pushed(stack, w, c, ways, (k - 1) as nat).push(w.gone(c, ways[k - 1]))
    }
}

/// The walks that cannot go on, in the order in which a search finds
/// them in at most `fuel` steps: each step takes the last walk from the
/// stack; a walk that cannot go on is found, and for any other the
/// walks that go on from it are put on the stack.
pub open spec fn found(c: Chart, m: int, stack: Seq<Walk>, done: Seq<Walk>, fuel: nat) -> Seq<Walk>
    decreases fuel,
{
    if fuel == 0 || stack.len() == 0 {
        done
    } else {
        let w = stack.last();
        let next = w.all_next(c, m);
        if next.len() == 0 {
            found(c, m, stack.drop_last(), done.push(w), (fuel - 1) as nat)
        } else {
            found(c, m, pushed(stack.drop_last(), w, c, next, next.len()), done, (fuel - 1) as nat)
        }
    }
}

/// 256 to the power `k`: more steps than a search over `k` minutes
/// takes.
pub open spec fn load(k: nat) -> nat
    decreases k,
{
    if k == 0 {
        1
    } else {
        256 * load((k - 1) as nat)
    }
}

/// The walk that has only begun, at `start`.
pub open spec fn begun(start: u8) -> Walk {
    Walk { visited: seq![start], minute: 0, pressure: 0, pressure_release: 0 }
}

/// The walks from `start` that cannot go on, in the order in which the
/// search finds them.
pub open spec fn complete_walks(c: Chart, m: int, start: u8) -> Seq<Walk> {
    found(c, m, seq![begun(start)], Seq::empty(), load(m as nat))
}

/// The steps that the walks on the stack can still take together.
pub open spec fn weight(stack: Seq<Walk>, m: int) -> nat
    decreases stack.len(),
{
    if stack.len() == 0 {
        0
    } else {
        weight(stack.drop_last(), m) + load((m - stack.last().minute) as nat)
    }
}

proof fn lemma_load(a: nat, b: nat)
    requires
        a <= b,
    ensures
        1 <= load(a) <= load(b),
        a < b ==> 255 * load(a) + 1 <= load(b),
    decreases b,
{
    if a < b {
        lemma_load(a, (b - 1) as nat);
    } else if a > 0 {
        lemma_load((a - 1) as nat, (a - 1) as nat);
    }
}

/// The ways that lead on from a walk are ways of the cave that leave
/// time.
pub proof fn lemma_next_ways(w: Walk, c: Chart, m: int, k: nat)
    requires
        c.wf(),
        w.sane(c, m),
        k <= c.ways[w.visited.last() as int].len(),
    ensures
        w.next_ways(c, m, k).len() <= k,
        forall|i: int|
            0 <= i < w.next_ways(c, m, k).len() ==> (#[trigger] w.next_ways(c, m, k)[i]).0
                < c.flows.len() && 1 <= w.next_ways(c, m, k)[i].1 && w.next_ways(c, m, k)[i].1
                + w.minute < m,
    decreases k,
{
    if k > 0 {
        lemma_next_ways(w, c, m, (k - 1) as nat);
        let way = c.ways[w.visited.last() as int][k - 1];
        assert(way.0 < c.flows.len() && 1 <= way.1);
    }
}

/// Whether every walk of the stack is one that the cave allows.
pub open spec fn all_sane(stack: Seq<Walk>, c: Chart, m: int) -> bool {
    forall|i: int| 0 <= i < stack.len() ==> (#[trigger] stack[i]).sane(c, m)
}

/// The walks that go on from a walk are walks that the cave allows, and
/// can take fewer steps together than the walk could.
pub proof fn lemma_pushed(stack: Seq<Walk>, w: Walk, c: Chart, m: int, ways: Seq<(u8, i32)>, k: nat)
    requires
        c.wf(),
        w.sane(c, m),
        all_sane(stack, c, m),
        k <= ways.len(),
        forall|i: int|
            0 <= i < ways.len() ==> (#[trigger] ways[i]).0 < c.flows.len() && 1 <= ways[i].1
                && ways[i].1 + w.minute < m,
    ensures
        all_sane(pushed(stack, w, c, ways, k), c, m),
        pushed(stack, w, c, ways, k).len() == stack.len() + k,
        weight(pushed(stack, w, c, ways, k), m) <= weight(stack, m) + k * load(
            (m - w.minute - 1) as nat,
        ),
    decreases k,
{
    if k > 0 {
        lemma_pushed(stack, w, c, m, ways, (k - 1) as nat);
        let before = pushed(stack, w, c, ways, (k - 1) as nat);
        let g = w.gone(c, ways[k - 1]);
        lemma_gone(w, c, m, ways[k - 1]);
        assert(before.push(g).drop_last() =~= before);
        lemma_load((m - g.minute) as nat, (m - w.minute - 1) as nat);
        assert(k * load((m - w.minute - 1) as nat) == (k - 1) * load((m - w.minute - 1) as nat)
            + load((m - w.minute - 1) as nat)) by (nonlinear_arith);
    } else {
        assert(0 * load((m - w.minute - 1) as nat) == 0) by (nonlinear_arith);
    }
}

/// A search that has steps enough finds a walk for every walk on the
/// stack at least once over: it finds one if the stack holds one.
pub proof fn lemma_found(c: Chart, m: int, stack: Seq<Walk>, done: Seq<Walk>, fuel: nat)
    requires
        c.wf(),
        all_sane(stack, c, m),
        weight(stack, m) <= fuel,
    ensures
        found(c, m, stack, done, fuel).len() >= done.len() + if stack.len() > 0 {
            1int
        } else {
            0int
        },
    decreases fuel,
{
    if stack.len() > 0 {
        let w = stack.last();
        let rest = stack.drop_last();
        let next = w.all_next(c, m);
        assert(w.sane(c, m));
        assert(all_sane(rest, c, m)) by {
            assert forall|i: int| 0 <= i < rest.len() implies (#[trigger] rest[i]).sane(c, m) by {
                assert(rest[i] == stack[i]);
            }
        }
        lemma_load(0, (m - w.minute) as nat);
        lemma_next_ways(w, c, m, c.ways[w.visited.last() as int].len());
        if next.len() == 0 {
            lemma_found(c, m, rest, done.push(w), (fuel - 1) as nat);
        } else {
            lemma_pushed(rest, w, c, m, next, next.len());
            lemma_load((m - w.minute - 1) as nat, (m - w.minute) as nat);
            assert(next.len() * load((m - w.minute - 1) as nat) <= 255 * load(
                (m - w.minute - 1) as nat,
            )) by (nonlinear_arith)
                requires
                    next.len() <= 255,
            ;
            lemma_found(c, m, pushed(rest, w, c, next, next.len()), done, (fuel - 1) as nat);
        }
    }
}

/// From every valve of a cave a search finds a walk that cannot go on.
pub proof fn lemma_some_walk(c: Chart, m: int, start: u8)
    requires
        c.wf(),
        start < c.flows.len(),
        0 <= m <= 100,
    ensures
        complete_walks(c, m, start).len() > 0,
{
    let stack = seq![begun(start)];
    assert(stack.drop_last() =~= Seq::<Walk>::empty());
    reveal_with_fuel(weight, 2);
    assert(begun(start).visited.last() == start);
    lemma_found(c, m, stack, Seq::empty(), load(m as nat));
}

/// The walks that cannot go on from `start` within `M` minutes, in the
/// order in which the search finds them.
pub fn complete_paths<const M: usize>(graph: &Cave, start: u8) -> (r: Vec<VolcanoPath<M>>)
    requires
        graph@.wf(),
        start < graph@.flows.len(),
        M <= 100,
    ensures
        walks(r@) == complete_walks(graph@, M as int, start),
        forall|i: int| 0 <= i < r@.len() ==> (#[trigger] r@[i])@.sane(graph@, M as int),
{
    let ghost c = graph@;
    let mut paths: Vec<VolcanoPath<M>> = Vec::new();
    paths.push(VolcanoPath::new(start));
    let mut complete: Vec<VolcanoPath<M>> = Vec::new();
    let ghost mut fuel: nat = load(M as nat);
    proof {
        assert(walks(paths@) =~= seq![begun(start)]);
        assert(walks(complete@) =~= Seq::<Walk>::empty());
        assert(walks(paths@).drop_last() =~= Seq::<Walk>::empty());
        reveal_with_fuel(weight, 2);
        assert(begun(start).visited.last() == start);
    }
    while paths.len() > 0
        invariant
            c == graph@,
            c.wf(),
            M <= 100,
            forall|i: int| 0 <= i < paths@.len() ==> (#[trigger] paths@[i])@.sane(c, M as int),
            forall|i: int| 0 <= i < complete@.len() ==> (#[trigger] complete@[i])@.sane(c, M as int),
            weight(walks(paths@), M as int) <= fuel,
            complete_walks(c, M as int, start) == found(
                c,
                M as int,
                walks(paths@),
                walks(complete@),
                fuel,
            ),
        decreases fuel,
    {
        let ghost before = walks(paths@);
        let ghost done = walks(complete@);
        let path = match paths.pop() {
            Some(p) => p,
            None => VolcanoPath::new(start),
        };
        let ghost w = path@;
        let ghost rest = walks(paths@);
        proof {
            assert(w == before.last());
            assert(rest =~= before.drop_last());
            lemma_load(0, (M - w.minute) as nat);
            lemma_next_ways(w, c, M as int, c.ways[w.visited.last() as int].len());
        }
        let next_edges = path.possible_next_edges(graph);
        if next_edges.len() == 0 {
            complete.push(path);
            proof {
                assert(walks(complete@) =~= done.push(w));
            }
        } else {
            let ghost next = next_edges@;
            let mut k: usize = 0;
            while k < next_edges.len()
                invariant
                    k <= next_edges@.len(),
                    next == next_edges@,
                    next.len() <= 255,
                    c == graph@,
                    c.wf(),
                    M <= 100,
                    w == path@,
                    w.sane(c, M as int),
                    forall|i: int|
                        0 <= i < next.len() ==> (#[trigger] next[i]).0 < c.flows.len() && 1
                            <= next[i].1 && next[i].1 + w.minute < M,
                    forall|i: int|
                        0 <= i < paths@.len() ==> (#[trigger] paths@[i])@.sane(c, M as int),
                    walks(paths@) == pushed(rest, w, c, next, k as nat),
                    weight(walks(paths@), M as int) <= weight(rest, M as int) + k * load(
                        (M - w.minute - 1) as nat,
                    ),
                decreases next_edges.len() - k,
            {
                let edge = next_edges[k];
                let ghost below = walks(paths@);
                let gone = path.goto(edge, graph);
                let ghost g = gone@;
                paths.push(gone);
                proof {
                    assert(walks(paths@) =~= below.push(g));
                    assert(walks(paths@).drop_last() =~= below);
                    lemma_load((M - g.minute) as nat, (M - w.minute - 1) as nat);
                    assert((k + 1) * load((M - w.minute - 1) as nat) == k * load(
                        (M - w.minute - 1) as nat,
                    ) + load((M - w.minute - 1) as nat)) by (nonlinear_arith);
                }
                k += 1;
            }
            proof {
                lemma_load((M - w.minute - 1) as nat, (M - w.minute) as nat);
                assert(k * load((M - w.minute - 1) as nat) <= 255 * load(
                    (M - w.minute - 1) as nat,
                )) by (nonlinear_arith)
                    requires
                        k <= 255,
                ;
            }
        }
        proof {
            fuel = (fuel - 1) as nat;
        }
    }
    complete
}


/// The first place from `k` on of a valve with the name `name`, or the
/// number of valves where none has it.
pub open spec fn first_named(valves: Seq<Tap>, name: Seq<u8>, k: int) -> int
    decreases valves.len() - k,
{
    if k < 0 || k >= valves.len() || valves[k].name == name {
        k
    } else {
        first_named(valves, name, k + 1)
    }
}

/// The valves as values of mathematics.
pub open spec fn taps(valves: Seq<Valve>) -> Seq<Tap> {
    Seq::new(valves.len(), |i: int| valves[i]@)
}

/// The place of the first valve with the name `name`.
pub fn find_valve(valves: &Vec<Valve>, name: &[u8]) -> (r: usize)
    ensures
        r == first_named(taps(valves@), name@, 0),
        r <= valves@.len(),
{
    let mut k: usize = 0;
    while k < valves.len() && !bytes_eq(valves[k].name.as_slice(), name)
        invariant
            k <= valves@.len(),
            first_named(taps(valves@), name@, 0) == first_named(taps(valves@), name@, k as int),
        decreases valves.len() - k,
    {
        k += 1;
    }
    k
}

/// The best of the first `k` walks: the one that releases the most
/// pressure in the end, and of several such the last.
pub open spec fn best_upto(ws: Seq<Walk>, m: int, k: nat) -> Option<Walk>
    decreases k,
{
    if k == 0 {
        None
    } else {
        match best_upto(ws, m, (k - 1) as nat) {
            None => Some(ws[k - 1]),
            Some(best) => if best.end_pressure(m) > ws[k - 1].end_pressure(m) {
                Some(best)
            } else {
                Some(ws[k - 1])
            },
        }
    }
}

/// The name `AA`.
pub open spec fn aa() -> Seq<u8> {
    seq![65u8, 65u8]
}

/// Whether the cave has the valve `AA`.
pub open spec fn has_start(graph: &Cave) -> bool {
    first_named(taps(graph.valves@), aa(), 0) < graph.valves@.len()
}

/// The best walk in the cave from the first of the valves that is
/// named `AA`, in 30 minutes.
pub open spec fn optimal_in(c: Chart, valves: Seq<Tap>) -> Option<Walk> {
    let ws = complete_walks(c, 30, first_named(valves, aa(), 0) as u8);
    best_upto(ws, 30, ws.len())
}

/// The best walk from the valve `AA` in 30 minutes.
pub open spec fn optimal(graph: &Cave) -> Option<Walk> {
    optimal_in(graph@, taps(graph.valves@))
}

/// The walk from the valve `AA` that releases the most pressure in 30
/// minutes.
pub fn find_optimal_path(graph: &Cave) -> (r: VolcanoPath<30>)
    requires
        graph@.wf(),
        has_start(graph),
    ensures
        optimal(graph) == Some(r@),
        r@.sane(graph@, 30),
{
    let name: [u8; 2] = [65, 65];
    proof {
        assert(name@ =~= aa());
    }
    let start = find_valve(&graph.valves, name.as_slice());
    let mut paths = complete_paths::<30>(graph, start as u8);
    let ghost ws = walks(paths@);
    proof {
        assert(taps(graph.valves@).len() == graph.valves@.len());
        lemma_some_walk(graph@, 30, start as u8);
    }
    let count: usize = paths.len();
    let mut best_path: VolcanoPath<30> = paths.remove(0);
    assert(best_path@ == ws[0]);
    assert(ws[0].sane(graph@, 30));
    let mut k: usize = 1;
    let ghost total = ws.len();
    proof {
        reveal_with_fuel(best_upto, 2);
        assert(best_upto(ws, 30, 1) == Some(ws[0]));
    }
    while paths.len() > 0
        invariant
            total == count,
            1 <= k,
            k + paths@.len() == total,
            total == ws.len(),
            forall|i: int| 0 <= i < paths@.len() ==> (#[trigger] paths@[i])@ == ws[k + i],
            forall|i: int| 0 <= i < ws.len() ==> (#[trigger] ws[i]).sane(graph@, 30),
            best_upto(ws, 30, k as nat) == Some(best_path@),
            best_path@.sane(graph@, 30),
        decreases paths@.len(),
    {
        let path = paths.remove(0);
        assert(path@ == ws[k as int]);
        assert(ws[k as int].sane(graph@, 30));
        if !(best_path.final_pressure() > path.final_pressure()) {
            best_path = path;
        }
        k += 1;
    }
    best_path
}

/// The place of `w` among the walks `sorted`: behind the last that
/// releases no less pressure in the end.
pub open spec fn slot(sorted: Seq<Walk>, w: Walk, m: int) -> int
    decreases sorted.len(),
{
    if sorted.len() == 0 || sorted.last().end_pressure(m) >= w.end_pressure(m) {
        sorted.len() as int
    } else {
        slot(sorted.drop_last(), w, m)
    }
}

/// The first `k` of the walks, those first that release the most
/// pressure in the end; of two that release the same the one that came
/// first stays first.
pub open spec fn in_order(ws: Seq<Walk>, m: int, k: nat) -> Seq<Walk>
    decreases k,
{
    if k == 0 {
        Seq::empty()
    } else {
        let before = in_order(ws, m, (k - 1) as nat);
        before.insert(slot(before, ws[k - 1], m), ws[k - 1])
    }
}

/// A place among `sorted` is one of its indices or its length.
pub proof fn lemma_slot(sorted: Seq<Walk>, w: Walk, m: int)
    ensures
        0 <= slot(sorted, w, m) <= sorted.len(),
    decreases sorted.len(),
{
    if !(sorted.len() == 0 || sorted.last().end_pressure(m) >= w.end_pressure(m)) {
        lemma_slot(sorted.drop_last(), w, m);
    }
}

/// The walks from the valve `AA` that cannot go on within 26 minutes,
/// those first that release the most pressure.
pub fn all_complete_paths(graph: &Cave) -> (r: Vec<VolcanoPath<26>>)
    requires
        graph@.wf(),
        has_start(graph),
    ensures
        walks(r@) == in_order(
            complete_walks(graph@, 26, first_named(taps(graph.valves@), aa(), 0) as u8),
            26,
            complete_walks(graph@, 26, first_named(taps(graph.valves@), aa(), 0) as u8).len(),
        ),
        forall|i: int| 0 <= i < r@.len() ==> (#[trigger] r@[i])@.sane(graph@, 26),
{
    let name: [u8; 2] = [65, 65];
    proof {
        assert(name@ =~= aa());
    }
    let start = find_valve(&graph.valves, name.as_slice());
    let mut paths = complete_paths::<26>(graph, start as u8);
    let ghost ws = walks(paths@);
    let ghost total = paths@.len();
    let count: usize = paths.len();
    let mut out: Vec<VolcanoPath<26>> = Vec::new();
    let mut k: usize = 0;
    proof {
        assert(walks(out@) =~= in_order(ws, 26, 0));
    }
    while paths.len() > 0
        invariant
            total == count,
            k + paths@.len() == total,
            total == ws.len(),
            forall|i: int| 0 <= i < paths@.len() ==> (#[trigger] paths@[i])@ == ws[k + i],
            forall|i: int| 0 <= i < ws.len() ==> (#[trigger] ws[i]).sane(graph@, 26),
            forall|i: int| 0 <= i < out@.len() ==> (#[trigger] out@[i])@.sane(graph@, 26),
            walks(out@) == in_order(ws, 26, k as nat),
            out@.len() == k,
        decreases paths@.len(),
    {
        let path = paths.remove(0);
        let ghost w = path@;
        assert(w == ws[k as int]);
        assert(ws[k as int].sane(graph@, 26));
        let pressure = path.final_pressure();
        let ghost sorted = walks(out@);
        let mut j: usize = out.len();
        proof {
            assert(sorted.subrange(0, j as int) =~= sorted);
        }
        while j > 0 && out[j - 1].final_pressure() < pressure
            invariant
                j <= out@.len(),
                sorted == walks(out@),
                pressure == w.end_pressure(26),
                forall|i: int| 0 <= i < out@.len() ==> (#[trigger] out@[i])@.sane(graph@, 26),
                slot(sorted, w, 26) == slot(sorted.subrange(0, j as int), w, 26),
            decreases j,
        {
            proof {
                assert(sorted.subrange(0, j as int).drop_last() =~= sorted.subrange(0, j - 1));
                assert(sorted.subrange(0, j as int).last() == out@[j - 1]@);
            }
            j -= 1;
        }
        proof {
            if j > 0 {
                assert(sorted.subrange(0, j as int).last() == out@[j - 1]@);
            }
            lemma_slot(sorted, w, 26);
        }
        out.insert(j, path);
        proof {
            assert(walks(out@) =~= sorted.insert(j as int, w));
        }
        k += 1;
    }
    out
}

/// Whether no valve of `path` is among the valves of `other` but the
/// first.
pub open spec fn apart(path: Walk, other: Walk) -> bool {
    forall|i: int, j: int|
        0 <= i < path.visited.len() && 1 <= j < other.visited.len() ==> #[trigger] path.visited[i]
            != #[trigger] other.visited[j]
}

/// Whether the two walks open different valves: no valve of `path` is
/// among the valves of `other` but the first, where both begin.
pub fn no_overlap<const M: usize>(path: &VolcanoPath<M>, other: &VolcanoPath<M>) -> (r: bool)
    requires
        other@.visited.len() > 0,
    ensures
        r == apart(path@, other@),
{
    let mut i: usize = 0;
    while i < path.visited.len()
        invariant
            i <= path.visited@.len(),
            other.visited@.len() > 0,
            forall|a: int, b: int|
                0 <= a < i && 1 <= b < other.visited@.len() ==> #[trigger] path.visited@[a]
                    != #[trigger] other.visited@[b],
        decreases path.visited.len() - i,
    {
        let mut j: usize = 1;
        while j < other.visited.len()
            invariant
                1 <= j <= other.visited@.len(),
                i < path.visited@.len(),
                forall|b: int| 1 <= b < j ==> path.visited@[i as int] != other.visited@[b],
            decreases other.visited.len() - j,
        {
            if path.visited[i] == other.visited[j] {
                assert(path@.visited[i as int] == other@.visited[j as int]);
                return false;
            }
            j += 1;
        }
        i += 1;
    }
    true
}

/// The first place from `k` on of a walk that opens other valves than
/// walk `i`.
pub open spec fn first_apart(ws: Seq<Walk>, i: int, k: int) -> int
    decreases ws.len() - k,
{
    if k < 0 || k >= ws.len() || apart(ws[i], ws[k]) {
        k
    } else {
        first_apart(ws, i, k + 1)
    }
}

/// The two walks that together release the most pressure, looked for
/// from walk `i` on among walks that lie in falling order: walk `i` is
/// paired with the first walk behind it that opens other valves; the
/// search ends at the first walk that, taken twice, releases less than
/// the best pair so far. `None` where the walks run out.
pub open spec fn duo_from(ws: Seq<Walk>, m: int, i: int, best: (int, int), most: int) -> Option<
    (int, int),
>
    decreases ws.len() - i,
{
    if i < 1 || i >= ws.len() {
        None
    } else if 2 * ws[i].end_pressure(m) < most {
        Some(best)
    } else {
        let j = first_apart(ws, i, i + 1);
        if j >= ws.len() {
            None
        } else {
            let this = ws[i].end_pressure(m) + ws[j].end_pressure(m);
            if this > most {
                duo_from(ws, m, i + 1, (i, j), this)
            } else {
                duo_from(ws, m, i + 1, best, most)
            }
        }
    }
}

/// The places of the two walks that together release the most pressure.
pub open spec fn best_duo(ws: Seq<Walk>, m: int) -> Option<(int, int)> {
    let j = first_apart(ws, 0, 1);
    if ws.len() >= 1 && j < ws.len() {
        duo_from(ws, m, 1, (0, j), ws[0].end_pressure(m) + ws[j].end_pressure(m))
    } else {
        None
    }
}

fn find_apart<const M: usize>(paths: &[VolcanoPath<M>], i: usize, from: usize) -> (r: usize)
    requires
        i < paths@.len(),
        from <= paths@.len(),
        forall|q: int| 0 <= q < paths@.len() ==> (#[trigger] paths@[q])@.visited.len() > 0,
    ensures
        r == first_apart(walks(paths@), i as int, from as int),
        from <= r <= paths@.len(),
{
    let mut k: usize = from;
    while k < paths.len() && !no_overlap(&paths[i], &paths[k])
        invariant
            from <= k <= paths@.len(),
            i < paths@.len(),
            forall|q: int| 0 <= q < paths@.len() ==> (#[trigger] paths@[q])@.visited.len() > 0,
            first_apart(walks(paths@), i as int, from as int) == first_apart(
                walks(paths@),
                i as int,
                k as int,
            ),
        decreases paths.len() - k,
    {
        k += 1;
    }
    k
}

/// The two walks that together release the most pressure.
pub fn find_best_path_duo<'a>(paths: &'a [VolcanoPath<26>]) -> (r: (
    &'a VolcanoPath<26>,
    &'a VolcanoPath<26>,
))
    requires
        best_duo(walks(paths@), 26) is Some,
        forall|q: int| 0 <= q < paths@.len() ==> (#[trigger] paths@[q])@.fits(26),
    ensures
        ({
            let d = best_duo(walks(paths@), 26)->0;
            0 <= d.0 < paths@.len() && 0 <= d.1 < paths@.len() && *r.0 == paths@[d.0] && *r.1
                == paths@[d.1]
        }),
{
    let ghost ws = walks(paths@);
    let mut best: usize = 0;
    let mut best_duo_at: usize = find_apart(paths, 0, 1);
    assert(paths@[0]@.fits(26));
    assert(paths@[best_duo_at as int]@.fits(26));
    let mut best_pressure: i32 = paths[best].final_pressure() + paths[best_duo_at].final_pressure();
    let mut i: usize = 1;
    loop
        invariant
            ws == walks(paths@),
            forall|q: int| 0 <= q < paths@.len() ==> (#[trigger] paths@[q])@.fits(26),
            1 <= i <= paths@.len(),
            best < paths@.len(),
            best_duo_at < paths@.len(),
            0 <= best_pressure <= 202000000,
            best_duo(ws, 26) is Some,
            best_duo(ws, 26) == duo_from(
                ws,
                26,
                i as int,
                (best as int, best_duo_at as int),
                best_pressure as int,
            ),
        decreases paths@.len() - i,
    {
        let path1 = &paths[i];
        assert(paths@[i as int]@.fits(26));
        proof {
            lemma_end(path1@, 26);
        }
        if 2 * path1.final_pressure() < best_pressure {
            return (&paths[best], &paths[best_duo_at]);
        }
        let j = find_apart(paths, i, i + 1);
        assert(paths@[j as int]@.fits(26));
        proof {
            lemma_end(paths@[j as int]@, 26);
        }
        let this_pressure: i32 = path1.final_pressure() + paths[j].final_pressure();
        if this_pressure > best_pressure {
            best_pressure = this_pressure;
            best = i;
            best_duo_at = j;
        }
        i += 1;
    }
}


/// A tunnel between two valves, with the minutes that it takes.
pub type Link = (u8, u8, i32);

/// Whether a tunnel leads from `a` to `b` or back.
pub open spec fn linked(links: Seq<Link>, a: u8, b: u8) -> bool {
    exists|k: int|
        0 <= k < links.len() && (((#[trigger] links[k]).0 == a && links[k].1 == b) || (links[k].0
            == b && links[k].1 == a))
}

/// Whether tunnels lead from each valve of `w` to the next.
pub open spec fn is_way(links: Seq<Link>, w: Seq<u8>) -> bool {
    forall|i: int| 0 <= i < w.len() - 1 ==> linked(links, #[trigger] w[i], w[i + 1])
}

/// Whether `n` tunnels lead from `a` to `b`, one after the other.
pub open spec fn reaches(links: Seq<Link>, a: u8, b: u8, n: int) -> bool {
    exists|w: Seq<u8>| #[trigger]
        is_way(links, w) && w.len() == n + 1 && w[0] == a && w.last() == b
}

/// Whether `n` is the least number of tunnels that lead from `a` to `b`.
pub open spec fn is_distance(links: Seq<Link>, a: u8, b: u8, n: int) -> bool {
    &&& 0 <= n
    &&& reaches(links, a, b, n)
    &&& forall|m: int| 0 <= m < n ==> !reaches(links, a, b, m)
}

/// The least number of tunnels that lead from `a` to `b`, if any do.
pub open spec fn distance(links: Seq<Link>, a: u8, b: u8) -> Option<int> {
    if exists|n: int| is_distance(links, a, b, n) {
        Some(choose|n: int| is_distance(links, a, b, n))
    } else {
        None
    }
}

/// `petgraph::algo::dijkstra` on the graph that
/// `petgraph::Graph::from_edges` makes of the tunnels, without direction
/// and with the minutes of a tunnel as its cost: for every valve that can
/// be reached from `start` the least cost of a way to it, each valve
/// once, in no stated order. Every tunnel takes one minute here, so the
/// cost is the least number of tunnels. `start` is at an end of a tunnel.
#[verifier::external_body]
fn hops(links: &Vec<Link>, start: u8) -> (r: Vec<(u8, i32)>)
    requires
        forall|k: int| 0 <= k < links@.len() ==> (#[trigger] links@[k]).2 == 1,
        exists|k: int|
            0 <= k < links@.len() && ((#[trigger] links@[k]).0 == start || links@[k].1 == start),
    ensures
        forall|i: int, j: int| 0 <= i < j < r@.len() ==> (#[trigger] r@[i]).0 != (#[trigger] r@[j]).0,
        forall|i: int|
            0 <= i < r@.len() ==> is_distance(links@, start, (#[trigger] r@[i]).0, r@[i].1 as int),
        forall|b: u8, n: int|
            #[trigger] is_distance(links@, start, b, n) ==> exists|i: int|
                0 <= i < r@.len() && (#[trigger] r@[i]).0 == b,
{
    let edges = links.iter().map(|l| (l.0 as u32, l.1 as u32, l.2));
    let graph = petgraph::graph::UnGraph::<(), i32, u32>::from_edges(edges);
    let from = petgraph::graph::NodeIndex::new(start as usize);
    let found = petgraph::algo::dijkstra(&graph, from, None, |e| *e.weight());
    found.into_iter().map(|(k, v)| (k.index() as u8, v)).collect()
}

/// The number of minutes that the record gives for `b`, if it has one
/// among its first `k` entries.
pub open spec fn noted(record: Seq<(u8, i32)>, b: u8, k: int) -> Option<int>
    decreases k,
{
    if k <= 0 {
        None
    } else if record[k - 1].0 == b {
        Some(record[k - 1].1 as int)
    } else {
        noted(record, b, k - 1)
    }
}

fn look_up(record: &Vec<(u8, i32)>, b: u8) -> (r: Option<i32>)
    ensures
        match r {
            Some(d) => noted(record@, b, record@.len() as int) == Some(d as int),
            None => noted(record@, b, record@.len() as int) is None,
        },
{
    let mut k: usize = record.len();
    while k > 0
        invariant
            k <= record@.len(),
            noted(record@, b, record@.len() as int) == noted(record@, b, k as int),
        decreases k,
    {
        if record[k - 1].0 == b {
            return Some(record[k - 1].1);
        }
        k -= 1;
    }
    None
}

/// What a record of distances from `start` must be.
pub open spec fn is_record(links: Seq<Link>, start: u8, record: Seq<(u8, i32)>) -> bool {
    &&& forall|i: int, j: int|
        0 <= i < j < record.len() ==> (#[trigger] record[i]).0 != (#[trigger] record[j]).0
    &&& forall|i: int|
        0 <= i < record.len() ==> is_distance(links, start, (#[trigger] record[i]).0, record[i].1 as int)
    &&& forall|b: u8, n: int|
        #[trigger] is_distance(links, start, b, n) ==> exists|i: int|
            0 <= i < record.len() && (#[trigger] record[i]).0 == b
}

/// Two numbers that are both the least are one.
pub proof fn lemma_one_distance(links: Seq<Link>, a: u8, b: u8, n: int, m: int)
    requires
        is_distance(links, a, b, n),
        is_distance(links, a, b, m),
    ensures
        n == m,
{
}

/// What a record notes for a valve is its distance, and it notes one for
/// every valve that has one.
pub proof fn lemma_noted(links: Seq<Link>, start: u8, record: Seq<(u8, i32)>, b: u8, k: int)
    requires
        is_record(links, start, record),
        0 <= k <= record.len(),
    ensures
        noted(record, b, k) is Some ==> is_distance(links, start, b, noted(record, b, k)->0),
        noted(record, b, k) is None ==> forall|i: int| 0 <= i < k ==> (#[trigger] record[i]).0 != b,
    decreases k,
{
    if k > 0 {
        lemma_noted(links, start, record, b, k - 1);
    }
}

/// What a record notes for a valve is what `distance` says.
pub proof fn lemma_record(links: Seq<Link>, start: u8, record: Seq<(u8, i32)>, b: u8)
    requires
        is_record(links, start, record),
    ensures
        noted(record, b, record.len() as int) == distance(links, start, b),
{
    lemma_noted(links, start, record, b, record.len() as int);
    let got = noted(record, b, record.len() as int);
    if got is Some {
        let n = choose|n: int| is_distance(links, start, b, n);
        lemma_one_distance(links, start, b, n, got->0);
    } else {
        if exists|n: int| is_distance(links, start, b, n) {
            let n = choose|n: int| is_distance(links, start, b, n);
            let i = choose|i: int| 0 <= i < record.len() && (#[trigger] record[i]).0 == b;
            assert(false);
        }
    }
}

/// The ways from the good valve at place `i` of `olds` to the first `k`
/// of the others: to each that tunnels lead to, with one minute more
/// than the tunnels take, to open it.
pub open spec fn ways_from(links: Seq<Link>, olds: Seq<u8>, i: int, k: nat) -> Seq<(u8, i32)>
    decreases k,
{
    if k == 0 {
        Seq::empty()
    } else {
        let before = ways_from(links, olds, i, (k - 1) as nat);
        match distance(links, olds[i], olds[k - 1]) {
            Some(d) => if k - 1 != i && d < i32::MAX {
                before.push(((k - 1) as u8, (d + 1) as i32))
            } else {
                before
            },
            None => before,
        }
    }
}

/// The places of the good valves among the first `k` valves.
pub open spec fn good_places(valves: Seq<Tap>, k: nat) -> Seq<u8>
    decreases k,
{
    if k == 0 {
        Seq::empty()
    } else if is_good(valves[k - 1]) {
        good_places(valves, (k - 1) as nat).push((k - 1) as u8)
    } else {
        good_places(valves, (k - 1) as nat)
    }
}

/// The numbers of good valves and of their places agree with the number
/// of valves looked at.
pub proof fn lemma_good_places(valves: Seq<Tap>, k: nat)
    requires
        k <= valves.len() <= 255,
    ensures
        good_places(valves, k).len() <= k,
        forall|i: int| 0 <= i < good_places(valves, k).len() ==> (#[trigger] good_places(valves, k)[i]) < k,
    decreases k,
{
    if k > 0 {
        lemma_good_places(valves, (k - 1) as nat);
    }
}

/// Whether the valves and their tunnels can be made a cave of good
/// valves: the valves are 255 at most, release between 0 and 10000 a
/// minute, every tunnel takes a minute and ends at valves, and every
/// good valve is at an end of a tunnel.
pub open spec fn can_connect(valves: Seq<Tap>, links: Seq<Link>) -> bool {
    &&& valves.len() <= 255
    &&& forall|i: int| 0 <= i < valves.len() ==> 0 <= (#[trigger] valves[i]).flow_rate <= 10000
    &&& forall|k: int| 0 <= k < links.len() ==> (#[trigger] links[k]).2 == 1
    &&& forall|i: int|
        0 <= i < valves.len() && is_good(#[trigger] valves[i]) ==> exists|k: int|
            0 <= k < links.len() && ((#[trigger] links[k]).0 == i || links[k].1 == i)
}

/// The good valves among the valves.
pub open spec fn good_taps(valves: Seq<Tap>) -> Seq<Tap> {
    Seq::new(
        good_places(valves, valves.len()).len(),
        |i: int| valves[good_places(valves, valves.len())[i] as int],
    )
}

/// The cave of the good valves among the valves, with a way from each to
/// every other that tunnels lead to.
pub open spec fn chart_of(valves: Seq<Tap>, links: Seq<Link>) -> Chart {
    let places = good_places(valves, valves.len());
    Chart {
        names: Seq::new(places.len(), |i: int| valves[places[i] as int].name),
        flows: Seq::new(places.len(), |i: int| valves[places[i] as int].flow_rate),
        ways: Seq::new(places.len(), |i: int| ways_from(links, places, i, places.len())),
    }
}

/// The cave of the good valves, with a way from each to every other that
/// tunnels lead to.
pub fn connect_positives(valves: &Vec<Valve>, links: &Vec<Link>) -> (r: Cave)
    requires
        can_connect(taps(valves@), links@),
    ensures
        r@.wf(),
        r@ == chart_of(taps(valves@), links@),
        taps(r.valves@) == good_taps(taps(valves@)),
{
    let ghost ts = taps(valves@);
    let mut good: Vec<Valve> = Vec::new();
    let mut olds: Vec<u8> = Vec::new();
    let mut k: usize = 0;
    while k < valves.len()
        invariant
            k <= valves@.len() <= 255,
            ts == taps(valves@),
            olds@ == good_places(ts, k as nat),
            good@.len() == olds@.len(),
            olds@.len() <= k,
            forall|i: int| 0 <= i < olds@.len() ==> (#[trigger] olds@[i]) < k,
            forall|i: int| 0 <= i < olds@.len() ==> is_good(ts[(#[trigger] olds@[i]) as int]),
            forall|i: int| 0 <= i < good@.len() ==> (#[trigger] good@[i])@ == ts[olds@[i] as int],
        decreases valves.len() - k,
    {
        assert(ts[k as int] == valves@[k as int]@);
        if good_valve(&valves[k]) {
            let v = Valve::new(valves[k].name.clone(), valves[k].flow_rate);
            assert(v.name@ == valves@[k as int].name@);
            good.push(v);
            olds.push(k as u8);
        }
        k += 1;
    }
    let ghost places = good_places(ts, ts.len());
    let mut ways: Vec<Vec<(u8, i32)>> = Vec::new();
    let mut i: usize = 0;
    while i < olds.len()
        invariant
            i <= olds@.len(),
            olds@ == places,
            olds@.len() <= 255,
            can_connect(ts, links@),
            forall|q: int| 0 <= q < olds@.len() ==> (#[trigger] olds@[q]) < ts.len(),
            forall|q: int| 0 <= q < olds@.len() ==> is_good(ts[(#[trigger] olds@[q]) as int]),
            ways@.len() == i,
            forall|q: int|
                0 <= q < i ==> (#[trigger] ways@[q])@ == ways_from(links@, places, q, places.len()),
        decreases olds.len() - i,
    {
        let start = olds[i];
        assert(is_good(ts[olds@[i as int] as int]));
        let record = hops(links, start);
        let mut out: Vec<(u8, i32)> = Vec::new();
        let mut j: usize = 0;
        while j < olds.len()
            invariant
                j <= olds@.len(),
                i < olds@.len(),
                olds@ == places,
                olds@.len() <= 255,
                start == olds@[i as int],
                is_record(links@, start, record@),
                out@ == ways_from(links@, places, i as int, j as nat),
            decreases olds.len() - j,
        {
            proof {
                lemma_record(links@, start, record@, olds@[j as int]);
            }
            match look_up(&record, olds[j]) {
                Some(d) => {
                    if j != i && d < i32::MAX {
                        out.push((j as u8, d + 1));
                    }
                },
                None => {},
            }
            j += 1;
        }
        ways.push(out);
        i += 1;
    }
    let cave = Cave { valves: good, ways };
    proof {
        lemma_good_places(ts, ts.len());
        assert(cave@.names =~= chart_of(ts, links@).names) by {
            assert forall|a: int| 0 <= a < cave@.names.len() implies cave@.names[a] == ts[places[a] as int].name by {
                assert(cave.valves@[a]@ == ts[places[a] as int]);
            }
        }
        assert(cave@.flows =~= chart_of(ts, links@).flows) by {
            assert forall|a: int| 0 <= a < cave@.flows.len() implies cave@.flows[a] == ts[places[a] as int].flow_rate by {
                assert(cave.valves@[a]@ == ts[places[a] as int]);
            }
        }
        assert(cave@.ways =~= chart_of(ts, links@).ways);
        assert(taps(cave.valves@) =~= good_taps(ts));
        assert forall|a: int, b: int|
            0 <= a < cave@.ways.len() && 0 <= b < cave@.ways[a].len() implies (
        #[trigger] cave@.ways[a][b]).0 < cave@.flows.len() && 1 <= cave@.ways[a][b].1 by {
            lemma_ways(links@, places, a, places.len());
        }
        assert forall|a: int| 0 <= a < cave@.ways.len() implies (#[trigger] cave@.ways[a]).len()
            <= 255 by {
            lemma_ways(links@, places, a, places.len());
        }
        assert forall|a: int| 0 <= a < cave@.flows.len() implies 0 <= #[trigger] cave@.flows[a]
            <= 10000 by {
            assert(0 <= ts[places[a] as int].flow_rate <= 10000);
        }
    }
    cave
}

/// The ways from a good valve lead to good valves and take a minute or
/// more.
pub proof fn lemma_ways(links: Seq<Link>, olds: Seq<u8>, i: int, k: nat)
    requires
        k <= olds.len() <= 255,
        0 <= i < olds.len(),
    ensures
        ways_from(links, olds, i, k).len() <= k,
        forall|b: int|
            0 <= b < ways_from(links, olds, i, k).len() ==> (#[trigger] ways_from(
                links,
                olds,
                i,
                k,
            )[b]).0 < k && 1 <= ways_from(links, olds, i, k)[b].1,
    decreases k,
{
    if k > 0 {
        lemma_ways(links, olds, i, (k - 1) as nat);
        let a = olds[i];
        let b = olds[k - 1];
        match distance(links, a, b) {
            Some(d) => {
                let n = choose|n: int| is_distance(links, a, b, n);
                assert(d >= 0);
            },
            None => {},
        }
    }
}


/// What a line says of a valve: its name, what it releases in a minute,
/// and the names of the valves to which its tunnels lead.
pub struct Scan {
    pub name: Seq<u8>,
    pub flow: int,
    pub others: Seq<Seq<u8>>,
}

/// What the line says: `Valve`, a name, ` has flow rate=`, a number,
/// `; tunnels lead to valves ` or `; tunnel leads to valve `, and names
/// with a comma and a blank between them.
pub open spec fn scan_of(line: Seq<u8>) -> Option<Scan> {
    match after_prefix(line, "Valve ".spec_bytes()) {
        Some(a) => match cut_once(a, " has flow rate=".spec_bytes()) {
            Some(b) => match cut_once(b.1, "; tunnel".spec_bytes()) {
                Some(c) => match parse_int(c.0, i32::MIN as int, i32::MAX as int) {
                    Some(flow) => {
                        let tail = if c.1.len() > 0 && c.1[0] == 115 {
                            after_prefix(
                                c.1.subrange(1, c.1.len() as int),
                                " lead to valves ".spec_bytes(),
                            )
                        } else {
                            after_prefix(c.1, " leads to valve ".spec_bytes())
                        };
                        match tail {
                            Some(t) => Some(
                                Scan { name: b.0, flow, others: split_on(t, seq![44u8, 32u8]) },
                            ),
                            None => None,
                        }
                    },
                    None => None,
                },
                None => None,
            },
            None => None,
        },
        None => None,
    }
}

/// The valves that the lines describe.
pub open spec fn taps_of(ls: Seq<Seq<u8>>) -> Seq<Tap> {
    Seq::new(ls.len(), |i: int| Tap { name: scan_of(ls[i])->0.name, flow_rate: scan_of(ls[i])->0.flow })
}

/// The place of the last of the first `k` valves with the name `name`.
pub open spec fn last_named(valves: Seq<Tap>, name: Seq<u8>, k: int) -> Option<int>
    decreases k,
{
    if k <= 0 {
        None
    } else if valves[k - 1].name == name {
        Some(k - 1)
    } else {
        last_named(valves, name, k - 1)
    }
}

/// A place is below the number of valves looked at.
pub proof fn lemma_last_named(valves: Seq<Tap>, name: Seq<u8>, k: int)
    requires
        k <= valves.len(),
    ensures
        last_named(valves, name, k) is Some ==> 0 <= last_named(valves, name, k)->0 < k,
    decreases k,
{
    if k > 0 {
        lemma_last_named(valves, name, k - 1);
    }
}

fn find_last(valves: &Vec<Valve>, name: &[u8]) -> (r: Option<usize>)
    ensures
        match r {
            Some(i) => last_named(taps(valves@), name@, valves@.len() as int) == Some(i as int)
                && i < valves@.len(),
            None => last_named(taps(valves@), name@, valves@.len() as int) is None,
        },
{
    let mut k: usize = valves.len();
    while k > 0
        invariant
            k <= valves@.len(),
            last_named(taps(valves@), name@, valves@.len() as int) == last_named(
                taps(valves@),
                name@,
                k as int,
            ),
        decreases k,
    {
        if bytes_eq(valves[k - 1].name.as_slice(), name) {
            return Some(k - 1);
        }
        k -= 1;
    }
    None
}

/// The place of the valve with the name `name`.
pub open spec fn place_of(valves: Seq<Tap>, name: Seq<u8>) -> u8 {
    last_named(valves, name, valves.len() as int)->0 as u8
}

/// The tunnels of line `i` to the first `k` of the valves that it names.
pub open spec fn line_links(ls: Seq<Seq<u8>>, i: int, k: nat) -> Seq<Link>
    decreases k,
{
    if k == 0 {
        Seq::empty()
    } else {
        line_links(ls, i, (k - 1) as nat).push(
            (
                place_of(taps_of(ls), scan_of(ls[i])->0.name),
                place_of(taps_of(ls), scan_of(ls[i])->0.others[k - 1]),
                1i32,
            ),
        )
    }
}

/// The tunnels of the first `i` lines.
pub open spec fn links_of(ls: Seq<Seq<u8>>, i: nat) -> Seq<Link>
    decreases i,
{
    if i == 0 {
        Seq::empty()
    } else {
        links_of(ls, (i - 1) as nat) + line_links(ls, i - 1, scan_of(ls[i - 1])->0.others.len())
    }
}

/// Whether the lines describe a cave: each describes a valve, the
/// valves are 255 at most, every name of a tunnel is the name of a
/// valve, and the valves and tunnels can be made a cave of good valves.
pub open spec fn is_cave_scan(ls: Seq<Seq<u8>>) -> bool {
    &&& ls.len() <= 255
    &&& forall|i: int| 0 <= i < ls.len() ==> scan_of(#[trigger] ls[i]) is Some
    &&& forall|i: int, k: int|
        0 <= i < ls.len() && 0 <= k < scan_of(ls[i])->0.others.len() ==> last_named(
            taps_of(ls),
            #[trigger] scan_of(ls[i])->0.others[k],
            ls.len() as int,
        ) is Some
    &&& can_connect(taps_of(ls), links_of(ls, ls.len()))
}

/// The cave that the lines describe.
pub open spec fn cave_chart(ls: Seq<Seq<u8>>) -> Chart {
    chart_of(taps_of(ls), links_of(ls, ls.len()))
}

fn parse_line(line: &[u8]) -> (r: (Vec<u8>, i32, Vec<Vec<u8>>))
    requires
        scan_of(line@) is Some,
    ensures
        scan_of(line@) == Some(Scan { name: r.0@, flow: r.1 as int, others: views(r.2@) }),
{
    let a = match strip_prefix(line, "Valve ".as_bytes()) {
        Some(v) => v,
        None => Vec::new(),
    };
    let b = match split_once(a.as_slice(), " has flow rate=".as_bytes()) {
        Some(p) => p,
        None => (Vec::new(), Vec::new()),
    };
    let c = match split_once(b.1.as_slice(), "; tunnel".as_bytes()) {
        Some(p) => p,
        None => (Vec::new(), Vec::new()),
    };
    let flow_rate: i32 = match parse_i32(c.0.as_slice()) {
        Some(v) => v,
        None => 0,
    };
    let rest = c.1.as_slice();
    let tail = if rest.len() > 0 && rest[0] == 115 {
        strip_prefix(
            vstd::slice::slice_subrange(rest, 1, rest.len()),
            " lead to valves ".as_bytes(),
        )
    } else {
        strip_prefix(rest, " leads to valve ".as_bytes())
    };
    let t = match tail {
        Some(v) => v,
        None => Vec::new(),
    };
    let comma: [u8; 2] = [44, 32];
    proof {
        assert(comma@ =~= seq![44u8, 32u8]);
    }
    let connected = split(t.as_slice(), comma.as_slice());
    (b.0, flow_rate, connected)
}

/// The cave that the text describes: its good valves, with a way from
/// each to every other that tunnels lead to.
pub fn parse_input(input: &str) -> (r: Cave)
    requires
        is_cave_scan(lines_of(input.spec_bytes())),
    ensures
        r@.wf(),
        r@ == cave_chart(lines_of(input.spec_bytes())),
        taps(r.valves@) == good_taps(taps_of(lines_of(input.spec_bytes()))),
{
    let ls = lines(input.as_bytes());
    let ghost lv = lines_of(input.spec_bytes());
    let mut valves: Vec<Valve> = Vec::new();
    let mut tunnels: Vec<Vec<Vec<u8>>> = Vec::new();
    let mut i: usize = 0;
    while i < ls.len()
        invariant
            i <= ls@.len(),
            lv == views(ls@),
            is_cave_scan(lv),
            valves@.len() == i,
            tunnels@.len() == i,
            forall|j: int| 0 <= j < i ==> (#[trigger] valves@[j])@ == taps_of(lv)[j],
            forall|j: int| 0 <= j < i ==> views((#[trigger] tunnels@[j])@) == scan_of(lv[j])->0.others,
        decreases ls.len() - i,
    {
        assert(ls@[i as int]@ == lv[i as int]);
        assert(scan_of(lv[i as int]) is Some);
        let (name, flow_rate, connected) = parse_line(ls[i].as_slice());
        valves.push(Valve::new(name, flow_rate));
        tunnels.push(connected);
        i += 1;
    }
    proof {
        assert(taps(valves@) =~= taps_of(lv));
    }
    let mut links: Vec<Link> = Vec::new();
    let mut i: usize = 0;
    while i < ls.len()
        invariant
            i <= ls@.len(),
            lv == views(ls@),
            is_cave_scan(lv),
            valves@.len() == lv.len(),
            tunnels@.len() == lv.len(),
            taps(valves@) == taps_of(lv),
            forall|j: int|
                0 <= j < lv.len() ==> views((#[trigger] tunnels@[j])@) == scan_of(lv[j])->0.others,
            links@ == links_of(lv, i as nat),
        decreases ls.len() - i,
    {
        let ghost before = links@;
        let ghost sc = scan_of(lv[i as int])->0;
        assert(taps(valves@)[i as int] == valves@[i as int]@);
        let curr: u8 = match find_last(&valves, valves[i].name.as_slice()) {
            Some(p) => p as u8,
            None => 0,
        };
        proof {
            lemma_found_self(taps_of(lv), i as int, lv.len() as int);
        }
        let connected = &tunnels[i];
        assert(views(connected@) == sc.others);
        let mut k: usize = 0;
        while k < connected.len()
            invariant
                k <= connected@.len(),
                i < lv.len(),
                is_cave_scan(lv),
                valves@.len() == lv.len(),
                taps(valves@) == taps_of(lv),
                sc == scan_of(lv[i as int])->0,
                views(connected@) == sc.others,
                curr == place_of(taps_of(lv), sc.name),
                links@ == before + line_links(lv, i as int, k as nat),
            decreases connected.len() - k,
        {
            assert(connected@[k as int]@ == sc.others[k as int]);
            assert(last_named(taps_of(lv), scan_of(lv[i as int])->0.others[k as int], lv.len() as int) is Some);
            let other: u8 = match find_last(&valves, connected[k].as_slice()) {
                Some(p) => p as u8,
                None => 0,
            };
            links.push((curr, other, 1));
            proof {
                assert(links@ =~= before + line_links(lv, i as int, (k + 1) as nat));
            }
            k += 1;
        }
        i += 1;
    }
    connect_positives(&valves, &links)
}

/// A valve has its own name, so a valve with its name is found.
pub proof fn lemma_found_self(valves: Seq<Tap>, i: int, k: int)
    requires
        0 <= i < k <= valves.len(),
    ensures
        last_named(valves, valves[i].name, k) is Some,
    decreases k,
{
    if k - 1 > i && valves[k - 1].name != valves[i].name {
        lemma_found_self(valves, i, k - 1);
    }
}

/// The pressure that the best walk from `AA` releases in 30 minutes.
pub open spec fn most_pressure(c: Chart, valves: Seq<Tap>) -> int {
    match optimal_in(c, valves) {
        Some(w) => w.end_pressure(30),
        None => 0,
    }
}

/// The walks of 26 minutes from `AA`, those first that release the most.
pub open spec fn short_walks(c: Chart, valves: Seq<Tap>) -> Seq<Walk> {
    in_order(
        complete_walks(c, 26, first_named(valves, aa(), 0) as u8),
        26,
        complete_walks(c, 26, first_named(valves, aa(), 0) as u8).len(),
    )
}

/// The most pressure that one walker can release in 30 minutes.
pub fn day16_1(input: &str) -> (r: i32)
    requires
        is_cave_scan(lines_of(input.spec_bytes())),
        first_named(good_taps(taps_of(lines_of(input.spec_bytes()))), aa(), 0) < good_taps(
            taps_of(lines_of(input.spec_bytes())),
        ).len(),
    ensures
        r == most_pressure(
            cave_chart(lines_of(input.spec_bytes())),
            good_taps(taps_of(lines_of(input.spec_bytes()))),
        ),
{
    let graph = parse_input(input);
    assert(taps(graph.valves@).len() == graph.valves@.len());
    let best_path = find_optimal_path(&graph);
    best_path.final_pressure()
}

/// The most pressure that two walkers can release in 26 minutes, as far
/// as the search for the best two walks finds it.
pub fn day16_2(input: &str) -> (r: i32)
    requires
        is_cave_scan(lines_of(input.spec_bytes())),
        first_named(good_taps(taps_of(lines_of(input.spec_bytes()))), aa(), 0) < good_taps(
            taps_of(lines_of(input.spec_bytes())),
        ).len(),
        best_duo(
            short_walks(
                cave_chart(lines_of(input.spec_bytes())),
                good_taps(taps_of(lines_of(input.spec_bytes()))),
            ),
            26,
        ) is Some,
    ensures
        ({
            let ws = short_walks(
                cave_chart(lines_of(input.spec_bytes())),
                good_taps(taps_of(lines_of(input.spec_bytes()))),
            );
            let d = best_duo(ws, 26)->0;
            r == ws[d.0].end_pressure(26) + ws[d.1].end_pressure(26)
        }),
{
    let graph = parse_input(input);
    assert(taps(graph.valves@).len() == graph.valves@.len());
    let paths = all_complete_paths(&graph);
    proof {
        assert forall|q: int| 0 <= q < paths@.len() implies (#[trigger] paths@[q])@.fits(26) by {
            assert(paths@[q]@.sane(graph@, 26));
        }
    }
    let (one, two) = find_best_path_duo(paths.as_slice());
    one.final_pressure() + two.final_pressure()
}

} // verus!
