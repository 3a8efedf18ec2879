//! Robots that mine: the stock of a mine, the robots that a blueprint lets
//! it build next, and the search for the most geodes.

use crate::text::{after_prefix, cut_once, lines, lines_of, parse_i32, parse_int, split_once, strip_prefix, views};
use vstd::prelude::*;
use vstd::string::*;

verus! {

/// What a mine has in stock.
#[derive(Debug, Clone, Copy, PartialEq, Eq, Structural)]
pub struct Resources {
    pub ores: i32,
    pub clay: i32,
    pub obsidian: i32,
    pub geodes: i32,
}

impl Default for Resources {
    fn default() -> (r: Self)
        ensures
            r.ores == 0,
            r.clay == 0,
            r.obsidian == 0,
            r.geodes == 0,
    {
        Resources { ores: 0, clay: 0, obsidian: 0, geodes: 0 }
    }
}

impl Resources {
    pub fn add_ores(&self, ores: i32) -> (r: Self)
        requires
            i32::MIN <= self.ores + ores <= i32::MAX,
        ensures
            r.ores == self.ores + ores,
            r.clay == self.clay,
            r.obsidian == self.obsidian,
            r.geodes == self.geodes,
    {
        Self { ores: self.ores + ores, clay: self.clay, obsidian: self.obsidian, geodes: self.geodes }
    }

    pub fn add_clay(&self, clay: i32) -> (r: Self)
        requires
            i32::MIN <= self.clay + clay <= i32::MAX,
        ensures
            r.ores == self.ores,
            r.clay == self.clay + clay,
            r.obsidian == self.obsidian,
            r.geodes == self.geodes,
    {
        Self { ores: self.ores, clay: self.clay + clay, obsidian: self.obsidian, geodes: self.geodes }
    }

    pub fn add_obsidian(&self, obsidian: i32) -> (r: Self)
        requires
            i32::MIN <= self.obsidian + obsidian <= i32::MAX,
        ensures
            r.ores == self.ores,
            r.clay == self.clay,
            r.obsidian == self.obsidian + obsidian,
            r.geodes == self.geodes,
    {
        Self {
            ores: self.ores,
            clay: self.clay,
            obsidian: self.obsidian + obsidian,
            geodes: self.geodes,
        }
    }
}

/// The kinds of robot, in the order in which a mine considers them.
#[derive(Debug, Clone, Copy, PartialEq, Eq, Structural)]
pub enum Robot {
    Geode,
    Obsidian,
    Clay,
    Ore,
}

/// The kind of robot that is considered at place `k`.
pub open spec fn robot_at(k: int) -> Robot {
    if k == 0 {
        Robot::Geode
    } else if k == 1 {
        Robot::Obsidian
    } else if k == 2 {
        Robot::Clay
    } else {
        Robot::Ore
    }
}

/// The greatest cost and the greatest number of minutes for which the
/// stock of a mine is sure to fit in 32 bits.
pub const COST_LIMIT: i32 = 1073741824;

/// The greatest number of minutes for which a mine can be run.
pub const MINUTE_LIMIT: usize = 32768;

/// What each kind of robot costs.
#[derive(Debug, Clone, Copy, PartialEq, Eq, Structural)]
pub struct Blueprint {
    pub ore_robot_ore_cost: i32,
    pub clay_robot_ore_cost: i32,
    pub obisidian_robot_ore_cost: i32,
    pub obisidian_robot_clay_cost: i32,
    pub geode_robot_ore_cost: i32,
    pub geode_robot_obsidian_cost: i32,
}

impl Blueprint {
    /// The ore that a robot of kind `k` costs.
    pub open spec fn ore_cost(&self, k: Robot) -> int {
        match k {
            Robot::Geode => self.geode_robot_ore_cost as int,
            Robot::Obsidian => self.obisidian_robot_ore_cost as int,
            Robot::Clay => self.clay_robot_ore_cost as int,
            Robot::Ore => self.ore_robot_ore_cost as int,
        }
    }

    /// What a robot of kind `k` costs besides ore: obsidian for a geode
    /// robot, clay for an obsidian robot.
    pub open spec fn other_cost(&self, k: Robot) -> int {
        match k {
            Robot::Geode => self.geode_robot_obsidian_cost as int,
            Robot::Obsidian => self.obisidian_robot_clay_cost as int,
            _ => 0,
        }
    }

    /// No cost is below zero or above the limit.
    pub open spec fn wf(&self) -> bool {
        &&& 0 <= self.ore_robot_ore_cost <= COST_LIMIT
        &&& 0 <= self.clay_robot_ore_cost <= COST_LIMIT
        &&& 0 <= self.obisidian_robot_ore_cost <= COST_LIMIT
        &&& 0 <= self.obisidian_robot_clay_cost <= COST_LIMIT
        &&& 0 <= self.geode_robot_ore_cost <= COST_LIMIT
        &&& 0 <= self.geode_robot_obsidian_cost <= COST_LIMIT
    }
}

/// A mine at some minute: its stock and its robots.
#[derive(Debug, Clone, Copy, PartialEq, Eq, Structural)]
pub struct Mine {
    pub resources: Resources,
    pub minute: i32,
    pub ore_robots: i32,
    pub clay_robots: i32,
    pub obsidian_robots: i32,
    pub geode_robots: i32,
}

/// The minutes until a robot can be at work that needs `left` more of
/// what `robots` robots mine: one where nothing is missing, else one to
/// build it after the minutes that the mining takes.
pub open spec fn wait(left: int, robots: int) -> int {
    if left <= 0 {
        1
    } else {
        (left - 1) / robots + 2
    }
}

/// The mine at the start: one ore robot and nothing in stock.
pub open spec fn first_mine() -> Mine {
    Mine {
        resources: Resources { ores: 0, clay: 0, obsidian: 0, geodes: 0 },
        minute: 0,
        ore_robots: 1,
        clay_robots: 0,
        obsidian_robots: 0,
        geode_robots: 0,
    }
}

impl Mine {
    /// What the mine has of the second thing that a robot of kind `k`
    /// costs.
    pub open spec fn other_stock(&self, k: Robot) -> int {
        match k {
            Robot::Geode => self.resources.obsidian as int,
            Robot::Obsidian => self.resources.clay as int,
            _ => 0,
        }
    }

    /// The robots that mine the second thing that a robot of kind `k`
    /// costs.
    pub open spec fn other_robots(&self, k: Robot) -> int {
        match k {
            Robot::Geode => self.obsidian_robots as int,
            Robot::Obsidian => self.clay_robots as int,
            _ => 1,
        }
    }

    /// Whether the mine will ever have what a robot of kind `k` costs.
    pub open spec fn can_build(&self, k: Robot) -> bool {
        self.other_robots(k) > 0
    }

    /// The minutes until a robot of kind `k` can be at work.
    pub open spec fn time_to(&self, bp: Blueprint, k: Robot) -> int {
        let ore = wait(bp.ore_cost(k) - self.resources.ores, self.ore_robots as int);
        let other = wait(bp.other_cost(k) - self.other_stock(k), self.other_robots(k));
        if ore >= other {
            ore
        } else {
            other
        }
    }

    /// The mine `t` minutes later, with one more robot of kind `k` and
    /// without what it cost.
    pub open spec fn built(&self, bp: Blueprint, k: Robot, t: int) -> Mine {
        Mine {
            resources: Resources {
                ores: (self.resources.ores + self.ore_robots * t - bp.ore_cost(k)) as i32,
                clay: (self.resources.clay + self.clay_robots * t - if k == Robot::Obsidian {
                    bp.other_cost(k)
                } else {
                    0
                }) as i32,
                obsidian: (self.resources.obsidian + self.obsidian_robots * t - if k
                    == Robot::Geode {
                    bp.other_cost(k)
                } else {
                    0
                }) as i32,
                geodes: (self.resources.geodes + self.geode_robots * t) as i32,
            },
            minute: (self.minute + t) as i32,
            ore_robots: (self.ore_robots + if k == Robot::Ore {
                1int
            } else {
                0
            }) as i32,
            clay_robots: (self.clay_robots + if k == Robot::Clay {
                1int
            } else {
                0
            }) as i32,
            obsidian_robots: (self.obsidian_robots + if k == Robot::Obsidian {
                1int
            } else {
                0
            }) as i32,
            geode_robots: (self.geode_robots + if k == Robot::Geode {
                1int
            } else {
                0
            }) as i32,
        }
    }

    /// The mines that can come next, from the kind at place `k` on: for
    /// each kind that the mine can ever pay, the mine at the minute when
    /// the robot is at work, if that is before minute `n`; a robot that
    /// can be built at once ends the list.
    pub open spec fn options_from(&self, bp: Blueprint, n: int, k: int) -> Seq<Mine>
        decreases 4 - k,
    {
        if k >= 4 || k < 0 {
            Seq::empty()
        } else if !self.can_build(robot_at(k)) {
            self.options_from(bp, n, k + 1)
        } else {
            let t = self.time_to(bp, robot_at(k));
            let here = if self.minute + t < n {
                seq![self.built(bp, robot_at(k), t)]
            } else {
                Seq::empty()
            };
            if t == 1 {
                here
            } else {
                here + self.options_from(bp, n, k + 1)
            }
        }
    }

    /// The mines that can come next: none where less than two minutes are
    /// left.
    pub open spec fn options(&self, bp: Blueprint, n: int) -> Seq<Mine> {
        if self.minute + 1 >= n {
            Seq::empty()
        } else {
            self.options_from(bp, n, 0)
        }
    }

    /// The mine is one that `n` minutes of building can lead to: it has
    /// an ore robot, at most one robot for each minute gone, and a stock
    /// that these can have mined.
    pub open spec fn sane(&self, n: int) -> bool {
        &&& 0 <= n <= MINUTE_LIMIT
        &&& 0 <= self.minute <= n
        &&& 1 <= self.ore_robots <= self.minute + 1
        &&& 0 <= self.clay_robots <= self.minute + 1
        &&& 0 <= self.obsidian_robots <= self.minute + 1
        &&& 0 <= self.geode_robots <= self.minute + 1
        &&& 0 <= self.resources.ores <= n * self.minute
        &&& 0 <= self.resources.clay <= n * self.minute
        &&& 0 <= self.resources.obsidian <= n * self.minute
        &&& 0 <= self.resources.geodes <= n * self.minute
    }

    /// The geodes in stock after minute `n` if no more robot is built.
    pub open spec fn end_geodes(&self, n: int) -> int {
        self.resources.geodes + self.geode_robots * (n - self.minute)
    }
}

/// Waiting is at least one minute, and after it the robots have mined
/// what was missing with a minute to spare.
pub proof fn lemma_wait(left: int, robots: int, t: int)
    requires
        robots >= 1,
        t >= wait(left, robots),
    ensures
        wait(left, robots) >= 1,
        left <= COST_LIMIT ==> wait(left, robots) <= COST_LIMIT + 1,
        robots * t >= left,
        robots * t >= 0,
{
    if left > 0 {
        let q = (left - 1) / robots;
        vstd::arithmetic::div_mod::lemma_fundamental_div_mod(left - 1, robots);
        vstd::arithmetic::div_mod::lemma_div_pos_is_pos(left - 1, robots);
        vstd::arithmetic::div_mod::lemma_mod_bound(left - 1, robots);
        vstd::arithmetic::div_mod::lemma_div_is_ordered_by_denominator(left - 1, 1, robots);
        assert((left - 1) / 1 == left - 1);
        assert(robots * (q + 1) >= left) by (nonlinear_arith)
            requires
                left - 1 == robots * q + (left - 1) % robots,
                (left - 1) % robots < robots,
        ;
        assert(robots * t >= robots * (q + 1)) by (nonlinear_arith)
            requires
                t >= q + 1,
                robots >= 1,
        ;
    } else {
        assert(robots * t >= 0) by (nonlinear_arith)
            requires
                t >= 1,
                robots >= 1,
        ;
    }
}

/// What a sane mine builds in time is a sane mine at a later minute, and
/// every number on the way fits in 32 bits.
pub proof fn lemma_built(m: Mine, bp: Blueprint, n: int, k: Robot, t: int)
    requires
        m.sane(n),
        bp.wf(),
        m.can_build(k),
        t == m.time_to(bp, k),
        m.minute + t < n,
    ensures
        t >= 1,
        0 <= m.ore_robots * t <= n * t,
        0 <= m.clay_robots * t <= n * t,
        0 <= m.obsidian_robots * t <= n * t,
        0 <= m.geode_robots * t <= n * t,
        n * m.minute + n * t == n * (m.minute + t),
        n * (m.minute + t) <= MINUTE_LIMIT * MINUTE_LIMIT,
        0 <= m.resources.ores + m.ore_robots * t - bp.ore_cost(k),
        0 <= m.resources.clay + m.clay_robots * t - bp.other_cost(Robot::Obsidian) || k
            != Robot::Obsidian,
        0 <= m.resources.obsidian + m.obsidian_robots * t - bp.other_cost(Robot::Geode) || k
            != Robot::Geode,
        m.built(bp, k, t).sane(n),
        m.built(bp, k, t).minute == m.minute + t,
{
    let ore_left = bp.ore_cost(k) - m.resources.ores;
    let other_left = bp.other_cost(k) - m.other_stock(k);
    lemma_wait(ore_left, m.ore_robots as int, t);
    lemma_wait(other_left, m.other_robots(k), t);
    lemma_times(m.ore_robots as int, n, t);
    lemma_times(m.clay_robots as int, n, t);
    lemma_times(m.obsidian_robots as int, n, t);
    lemma_times(m.geode_robots as int, n, t);
    assert(n * m.minute + n * t == n * (m.minute + t)) by (nonlinear_arith);
    assert(n * (m.minute + t) <= MINUTE_LIMIT * MINUTE_LIMIT) by (nonlinear_arith)
        requires
            0 <= m.minute + t < n,
            0 <= n <= MINUTE_LIMIT,
    ;
}

/// `a * t` lies between 0 and `n * t` where `a` lies between 0 and `n`.
pub proof fn lemma_times(a: int, n: int, t: int)
    requires
        0 <= a <= n,
        0 <= t,
    ensures
        0 <= a * t <= n * t,
{
    assert(0 <= a * t <= n * t) by (nonlinear_arith)
        requires
            0 <= a <= n,
            0 <= t,
    ;
}

/// The mines that can come next after a sane mine are at most four, each
/// sane and at a later minute before minute `n`.
pub proof fn lemma_options(m: Mine, bp: Blueprint, n: int, k: int)
    requires
        m.sane(n),
        bp.wf(),
        0 <= k <= 4,
    ensures
        m.options_from(bp, n, k).len() <= 4 - k,
        forall|i: int|
            0 <= i < m.options_from(bp, n, k).len() ==> {
                &&& (#[trigger] m.options_from(bp, n, k)[i]).sane(n)
                &&& m.minute < m.options_from(bp, n, k)[i].minute < n
            },
    decreases 4 - k,
{
    if k < 4 {
        lemma_options(m, bp, n, k + 1);
        if m.can_build(robot_at(k)) {
            let t = m.time_to(bp, robot_at(k));
            if m.minute + t < n {
                lemma_built(m, bp, n, robot_at(k), t);
            }
        }
    }
}


/// The mines that a list of at most four holds, in the order in which
/// they were pushed.
pub uninterp spec fn offers(v: arrayvec::ArrayVec<Mine, 4>) -> Seq<Mine>;

/// `ArrayVec::new`: an empty list.
#[verifier::external_body]
fn offers_new() -> (v: arrayvec::ArrayVec<Mine, 4>)
    ensures
        offers(v) == Seq::<Mine>::empty(),
{
    arrayvec::ArrayVec::new()
}

/// `ArrayVec::push`: appends `m` to a list that is not full.
#[verifier::external_body]
fn offers_push(v: &mut arrayvec::ArrayVec<Mine, 4>, m: Mine)
    requires
        offers(*old(v)).len() < 4,
    ensures
        offers(*final(v)) == offers(*old(v)).push(m),
{
    v.push(m)
}

/// `ArrayVec::len`: the number of mines held.
#[verifier::external_body]
fn offers_len(v: &arrayvec::ArrayVec<Mine, 4>) -> (n: usize)
    ensures
        n == offers(*v).len(),
{
    v.len()
}

/// Indexing through `ArrayVec::as_slice`: the mine at `i`, which must be
/// below the length.
#[verifier::external_body]
fn offers_get(v: &arrayvec::ArrayVec<Mine, 4>, i: usize) -> (m: Mine)
    requires
        i < offers(*v).len(),
    ensures
        m == offers(*v)[i as int],
{
    v.as_slice()[i]
}

/// The kind of robot that is considered at place `k`.
pub fn robot(k: usize) -> (r: Robot)
    ensures
        r == robot_at(k as int),
{
    if k == 0 {
        Robot::Geode
    } else if k == 1 {
        Robot::Obsidian
    } else if k == 2 {
        Robot::Clay
    } else {
        Robot::Ore
    }
}

/// The minutes until a robot can be at work that needs `left` more of
/// what `robots` robots mine.
fn wait_for(left: i32, robots: i32) -> (r: i32)
    requires
        robots >= 1,
        left <= COST_LIMIT,
    ensures
        r == wait(left as int, robots as int),
        1 <= r <= COST_LIMIT + 1,
{
    proof {
        lemma_wait(left as int, robots as int, wait(left as int, robots as int));
    }
    if left <= 0 {
        1
    } else {
        (left - 1) / robots + 2
    }
}

/// A mine that is run for `N` minutes by a blueprint.
#[derive(Debug)]
pub struct BlueprintSim<'a, const N: usize> {
    pub blueprint: &'a Blueprint,
    pub mine: Mine,
}

impl<'a, const N: usize> BlueprintSim<'a, N> {
    /// The mine at the start: one ore robot and nothing in stock.
    pub fn new(blueprint: &'a Blueprint) -> (r: Self)
        ensures
            r.blueprint == blueprint,
            r.mine == first_mine(),
    {
        Self {
            blueprint,
            mine: Mine {
                resources: Resources { ores: 0, clay: 0, obsidian: 0, geodes: 0 },
                minute: 0,
                ore_robots: 1,
                clay_robots: 0,
                obsidian_robots: 0,
                geode_robots: 0,
            },
        }
    }

    /// Whether the stock after `minutes` more minutes can be computed in 32
    /// bits.
    pub open spec fn can_mine_for(&self, minutes: int) -> bool {
        &&& i32::MIN <= self.mine.ore_robots * minutes <= i32::MAX
        &&& i32::MIN <= self.mine.clay_robots * minutes <= i32::MAX
        &&& i32::MIN <= self.mine.obsidian_robots * minutes <= i32::MAX
        &&& i32::MIN <= self.mine.geode_robots * minutes <= i32::MAX
        &&& i32::MIN <= self.mine.resources.ores + self.mine.ore_robots * minutes <= i32::MAX
        &&& i32::MIN <= self.mine.resources.clay + self.mine.clay_robots * minutes <= i32::MAX
        &&& i32::MIN <= self.mine.resources.obsidian + self.mine.obsidian_robots * minutes
            <= i32::MAX
        &&& i32::MIN <= self.mine.resources.geodes + self.mine.geode_robots * minutes <= i32::MAX
    }

    /// The stock after `minutes` more minutes in which nothing is built.
    pub fn mine_for(&self, minutes: i32) -> (r: Resources)
        requires
            self.can_mine_for(minutes as int),
        ensures
            r.ores == self.mine.resources.ores + self.mine.ore_robots * minutes,
            r.clay == self.mine.resources.clay + self.mine.clay_robots * minutes,
            r.obsidian == self.mine.resources.obsidian + self.mine.obsidian_robots * minutes,
            r.geodes == self.mine.resources.geodes + self.mine.geode_robots * minutes,
    {
        Resources {
            ores: self.mine.resources.ores + self.mine.ore_robots * minutes,
            clay: self.mine.resources.clay + self.mine.clay_robots * minutes,
            obsidian: self.mine.resources.obsidian + self.mine.obsidian_robots * minutes,
            geodes: self.mine.resources.geodes + self.mine.geode_robots * minutes,
        }
    }

    /// The minutes until a robot of kind `kind` can be at work.
    pub fn time_to(&self, kind: Robot) -> (r: i32)
        requires
            self.blueprint.wf(),
            self.mine.sane(N as int),
            self.mine.can_build(kind),
        ensures
            r == self.mine.time_to(*self.blueprint, kind),
            1 <= r <= COST_LIMIT + 1,
    {
        let bp = self.blueprint;
        let m = &self.mine;
        let ore = match kind {
            Robot::Geode => wait_for(bp.geode_robot_ore_cost - m.resources.ores, m.ore_robots),
            Robot::Obsidian => wait_for(
                bp.obisidian_robot_ore_cost - m.resources.ores,
                m.ore_robots,
            ),
            Robot::Clay => wait_for(bp.clay_robot_ore_cost - m.resources.ores, m.ore_robots),
            Robot::Ore => wait_for(bp.ore_robot_ore_cost - m.resources.ores, m.ore_robots),
        };
        let other = match kind {
            Robot::Geode => wait_for(
                bp.geode_robot_obsidian_cost - m.resources.obsidian,
                m.obsidian_robots,
            ),
            Robot::Obsidian => wait_for(
                bp.obisidian_robot_clay_cost - m.resources.clay,
                m.clay_robots,
            ),
            _ => 1,
        };
        if ore >= other {
            ore
        } else {
            other
        }
    }

    /// The mine `t` minutes later, with one more robot of kind `kind` and
    /// without what it cost.
    pub fn built(&self, kind: Robot, t: i32) -> (r: Mine)
        requires
            self.blueprint.wf(),
            self.mine.sane(N as int),
            self.mine.can_build(kind),
            t == self.mine.time_to(*self.blueprint, kind),
            self.mine.minute + t < N,
        ensures
            r == self.mine.built(*self.blueprint, kind, t as int),
            r.sane(N as int),
    {
        proof {
            lemma_built(self.mine, *self.blueprint, N as int, kind, t as int);
        }
        let bp = self.blueprint;
        let m = &self.mine;
        let mined = self.mine_for(t);
        let minute: i32 = m.minute + t;
        match kind {
            Robot::Geode => Mine {
                resources: mined.add_ores(-bp.geode_robot_ore_cost).add_obsidian(
                    -bp.geode_robot_obsidian_cost,
                ),
                minute,
                ore_robots: m.ore_robots,
                clay_robots: m.clay_robots,
                obsidian_robots: m.obsidian_robots,
                geode_robots: m.geode_robots + 1,
            },
            Robot::Obsidian => Mine {
                resources: mined.add_ores(-bp.obisidian_robot_ore_cost).add_clay(
                    -bp.obisidian_robot_clay_cost,
                ),
                minute,
                ore_robots: m.ore_robots,
                clay_robots: m.clay_robots,
                obsidian_robots: m.obsidian_robots + 1,
                geode_robots: m.geode_robots,
            },
            Robot::Clay => Mine {
                resources: mined.add_ores(-bp.clay_robot_ore_cost),
                minute,
                ore_robots: m.ore_robots,
                clay_robots: m.clay_robots + 1,
                obsidian_robots: m.obsidian_robots,
                geode_robots: m.geode_robots,
            },
            Robot::Ore => Mine {
                resources: mined.add_ores(-bp.ore_robot_ore_cost),
                minute,
                ore_robots: m.ore_robots + 1,
                clay_robots: m.clay_robots,
                obsidian_robots: m.obsidian_robots,
                geode_robots: m.geode_robots,
            },
        }
    }

    /// The mines that can come next.
    pub fn next_states(&self) -> (r: arrayvec::ArrayVec<Mine, 4>)
        requires
            self.blueprint.wf(),
            self.mine.sane(N as int),
        ensures
            offers(r) == self.mine.options(*self.blueprint, N as int),
    {
        let mut next = offers_new();
        if self.mine.minute + 1 >= N as i32 {
            return next;
        }
        let ghost bp = *self.blueprint;
        let ghost all = self.mine.options_from(bp, N as int, 0);
        let mut k: usize = 0;
        while k < 4
            invariant
                k <= 4,
                self.blueprint.wf(),
                self.mine.sane(N as int),
                self.mine.minute + 1 < N,
                bp == *self.blueprint,
                all == self.mine.options_from(bp, N as int, 0),
                all == offers(next) + self.mine.options_from(bp, N as int, k as int),
                offers(next).len() <= k,
            decreases 4 - k,
        {
            let kind = robot(k);
            let can = match kind {
                Robot::Geode => self.mine.obsidian_robots > 0,
                Robot::Obsidian => self.mine.clay_robots > 0,
                _ => true,
            };
            if can {
                let t = self.time_to(kind);
                let ghost before = offers(next);
                if t < N as i32 - self.mine.minute {
                    let m = self.built(kind, t);
                    offers_push(&mut next, m);
                }
                if t == 1 {
                    proof {
                        assert(offers(next) =~= all);
                    }
                    return next;
                }
                proof {
                    assert(all =~= offers(next) + self.mine.options_from(
                        bp,
                        N as int,
                        k as int + 1,
                    ));
                }
            }
            k += 1;
        }
        proof {
            assert(all =~= offers(next));
        }
        next
    }

    /// The minutes that are left.
    pub fn time_left(&self) -> (r: i32)
        requires
            N <= i32::MAX,
            i32::MIN <= N - self.mine.minute <= i32::MAX,
        ensures
            r == N - self.mine.minute,
    {
        N as i32 - self.mine.minute
    }

    /// The geodes in stock at the end if no more robot is built.
    pub fn geodes_by_end(&self) -> (r: i32)
        requires
            N <= i32::MAX,
            i32::MIN <= N - self.mine.minute <= i32::MAX,
            i32::MIN <= self.mine.geode_robots * (N - self.mine.minute) <= i32::MAX,
            i32::MIN <= self.mine.end_geodes(N as int) <= i32::MAX,
        ensures
            r == self.mine.end_geodes(N as int),
    {
        self.mine.resources.geodes + self.mine.geode_robots * self.time_left()
    }
}


/// The mines of `next` from place `i` on that do not fall behind the
/// records, put on the stack, and the records that they raise. A record
/// holds, for a minute, the most geodes and the most geode robots seen
/// at it; a mine falls behind where it has less of both.
pub open spec fn sift(next: Seq<Mine>, i: int, stack: Seq<Mine>, records: Seq<(i32, i32)>) -> (
    Seq<Mine>,
    Seq<(i32, i32)>,
)
    decreases next.len() - i,
{
    if i >= next.len() || i < 0 {
        (stack, records)
    } else {
        let m = next[i];
        let rec = records[m.minute as int];
        if m.resources.geodes >= rec.0 || m.geode_robots >= rec.1 {
            let geodes = if m.resources.geodes >= rec.0 {
                m.resources.geodes
            } else {
                rec.0
            };
            let robots = if m.geode_robots >= rec.1 {
                m.geode_robots
            } else {
                rec.1
            };
            sift(next, i + 1, stack.push(m), records.update(m.minute as int, (geodes, robots)))
        } else {
            sift(next, i + 1, stack, records)
        }
    }
}

/// The most geodes that the search finds in at most `fuel` steps: each
/// step takes the last mine from the stack; where nothing can come next
/// and it ends with more geodes than `best`, that is the new best; else
/// the mines that come next are sifted.
pub open spec fn dig(
    bp: Blueprint,
    n: int,
    stack: Seq<Mine>,
    records: Seq<(i32, i32)>,
    best: int,
    fuel: nat,
) -> int
    decreases fuel,
{
    if fuel == 0 || stack.len() == 0 {
        best
    } else {
        let m = stack.last();
        let next = m.options(bp, n);
        if next.len() == 0 && m.end_geodes(n) > best {
            dig(bp, n, stack.drop_last(), records, m.end_geodes(n), (fuel - 1) as nat)
        } else {
            let p = sift(next, 0, stack.drop_last(), records);
            dig(bp, n, p.0, p.1, best, (fuel - 1) as nat)
        }
    }
}

/// Five to the power `k`: more steps than a search over `k` minutes takes.
pub open spec fn load(k: nat) -> nat
    decreases k,
{
    if k == 0 {
        1
    } else {
        5 * load((k - 1) as nat)
    }
}

/// The most geodes that the search finds in `n` minutes.
pub open spec fn most_geodes(bp: Blueprint, n: int) -> int {
    dig(bp, n, seq![first_mine()], Seq::new(n as nat, |i: int| (0i32, 0i32)), 0, load(n as nat))
}

/// The steps that the mines on the stack can still take together.
pub open spec fn weight(stack: Seq<Mine>, n: int) -> nat
    decreases stack.len(),
{
    if stack.len() == 0 {
        0
    } else {
        weight(stack.drop_last(), n) + load((n - stack.last().minute) as nat)
    }
}

proof fn lemma_load(a: nat, b: nat)
    requires
        a <= b,
    ensures
        1 <= load(a) <= load(b),
        a < b ==> 4 * load(a) + 1 <= load(b),
    decreases b,
{
    if a < b {
        lemma_load(a, (b - 1) as nat);
    } else if a > 0 {
        lemma_load((a - 1) as nat, (a - 1) as nat);
    }
}

proof fn lemma_end_geodes(m: Mine, n: int)
    requires
        m.sane(n),
    ensures
        0 <= m.geode_robots * (n - m.minute) <= n * n,
        0 <= m.end_geodes(n) <= n * n,
        n * n <= COST_LIMIT,
{
    assert(0 <= m.geode_robots * (n - m.minute) <= n * (n - m.minute)) by (nonlinear_arith)
        requires
            0 <= m.geode_robots <= m.minute + 1,
            0 <= m.minute <= n,
    ;
    assert(n * m.minute + n * (n - m.minute) == n * n) by (nonlinear_arith);
    assert(n * n <= COST_LIMIT) by (nonlinear_arith)
        requires
            0 <= n <= MINUTE_LIMIT,
    ;
}

impl Blueprint {
    /// The most geodes that the search finds in `N` minutes.
    pub fn simulate_most_geodes<const N: usize>(&self) -> (r: i32)
        requires
            self.wf(),
            N <= MINUTE_LIMIT,
        ensures
            r == most_geodes(*self, N as int),
            0 <= r <= N * N,
    {
        let first = BlueprintSim::<N>::new(self);
        let mut states: Vec<Mine> = Vec::new();
        states.push(first.mine);
        let mut most: i32 = 0;
        let mut best_records: Vec<(i32, i32)> = Vec::new();
        let mut j: usize = 0;
        while j < N
            invariant
                j <= N,
                best_records@ == Seq::new(j as nat, |i: int| (0i32, 0i32)),
            decreases N - j,
        {
            best_records.push((0, 0));
            j += 1;
            proof {
                assert(best_records@ =~= Seq::new(j as nat, |i: int| (0i32, 0i32)));
            }
        }
        let ghost mut fuel: nat = load(N as nat);
        proof {
            assert(states@ =~= seq![first_mine()]);
            assert(states@.drop_last() =~= Seq::<Mine>::empty());
            reveal_with_fuel(weight, 2);
            assert(N * 0 == 0);
        }
        while states.len() > 0
            invariant
                self.wf(),
                N <= MINUTE_LIMIT,
                best_records@.len() == N,
                forall|i: int| 0 <= i < states@.len() ==> (#[trigger] states@[i]).sane(N as int),
                weight(states@, N as int) <= fuel,
                0 <= most <= N * N,
                most_geodes(*self, N as int) == dig(
                    *self,
                    N as int,
                    states@,
                    best_records@,
                    most as int,
                    fuel,
                ),
            decreases fuel,
        {
            let ghost before = states@;
            let ghost records = best_records@;
            let mine = states[states.len() - 1];
            states.pop();
            let state = BlueprintSim::<N> { blueprint: self, mine };
            let next_states = state.next_states();
            let count: usize = offers_len(&next_states);
            proof {
                assert(states@ =~= before.drop_last());
                lemma_end_geodes(mine, N as int);
                lemma_options(mine, *self, N as int, 0);
                lemma_load(0, (N - mine.minute) as nat);
            }
            if count == 0 && state.geodes_by_end() > most {
                most = state.geodes_by_end();
            } else {
                let ghost rest = states@;
                let ghost next = offers(next_states);
                let mut i: usize = 0;
                while i < count
                    invariant
                        i <= count <= 4,
                        count == next.len(),
                        next == offers(next_states),
                        N <= MINUTE_LIMIT,
                        best_records@.len() == N,
                        count > 0 ==> mine.minute < N,
                        forall|q: int|
                            0 <= q < next.len() ==> (#[trigger] next[q]).sane(N as int)
                                && mine.minute < next[q].minute < N,
                        forall|q: int|
                            0 <= q < states@.len() ==> (#[trigger] states@[q]).sane(N as int),
                        weight(states@, N as int) <= weight(rest, N as int) + i * load(
                            (N - mine.minute - 1) as nat,
                        ),
                        sift(next, i as int, states@, best_records@) == sift(
                            next,
                            0,
                            rest,
                            records,
                        ),
                    decreases count - i,
                {
                    let stt = offers_get(&next_states, i);
                    let rec = best_records[stt.minute as usize];
                    let geo_record: i32 = rec.0;
                    let robo_record: i32 = rec.1;
                    if stt.resources.geodes >= geo_record || stt.geode_robots >= robo_record {
                        let geodes: i32 = if stt.resources.geodes >= geo_record {
                            stt.resources.geodes
                        } else {
                            geo_record
                        };
                        let robots: i32 = if stt.geode_robots >= robo_record {
                            stt.geode_robots
                        } else {
                            robo_record
                        };
                        let ghost below = states@;
                        best_records.set(stt.minute as usize, (geodes, robots));
                        states.push(stt);
                        proof {
                            assert(states@.drop_last() =~= below);
                            lemma_load((N - stt.minute) as nat, (N - mine.minute - 1) as nat);
                            assert((i + 1) * load((N - mine.minute - 1) as nat) == i * load(
                                (N - mine.minute - 1) as nat,
                            ) + load((N - mine.minute - 1) as nat)) by (nonlinear_arith);
                        }
                    } else {
                        proof {
                            assert((i + 1) * load((N - mine.minute - 1) as nat) >= i * load(
                                (N - mine.minute - 1) as nat,
                            )) by (nonlinear_arith);
                        }
                    }
                    i += 1;
                }
                proof {
                    if count == 0 {
                        assert(i * load((N - mine.minute - 1) as nat) == 0) by (nonlinear_arith)
                            requires
                                i == 0,
                        ;
                    } else {
                        lemma_load((N - mine.minute - 1) as nat, (N - mine.minute) as nat);
                        assert(i * load((N - mine.minute - 1) as nat) <= 4 * load(
                            (N - mine.minute - 1) as nat,
                        )) by (nonlinear_arith)
                            requires
                                i <= 4,
                        ;
                    }
                }
            }
            proof {
                fuel = (fuel - 1) as nat;
            }
        }
        most
    }
}


/// The words that follow the cost at place `k` of a line.
pub open spec fn words_after(k: int) -> Seq<u8> {
    if k == 0 {
        " ore. Each clay robot costs ".spec_bytes()
    } else if k == 1 {
        " ore. Each obsidian robot costs ".spec_bytes()
    } else if k == 2 {
        " ore and ".spec_bytes()
    } else if k == 3 {
        " clay. Each geode robot costs ".spec_bytes()
    } else if k == 4 {
        " ore and ".spec_bytes()
    } else {
        " obsidian".spec_bytes()
    }
}

/// The costs that `rest` holds from place `k` on, each followed by its
/// words.
pub open spec fn costs_from(rest: Seq<u8>, k: int) -> Option<Seq<int>>
    decreases 6 - k,
{
    if k >= 6 || k < 0 {
        Some(Seq::empty())
    } else {
        match cut_once(rest, words_after(k)) {
            Some(p) => match (
                parse_int(p.0, i32::MIN as int, i32::MAX as int),
                costs_from(p.1, k + 1),
            ) {
                (Some(n), Some(t)) => Some(seq![n] + t),
                _ => None,
            },
            None => None,
        }
    }
}

/// The costs that a line holds: it begins with `Blueprint `, and the costs
/// follow the first `: Each ore robot costs `.
pub open spec fn costs_of(line: Seq<u8>) -> Option<Seq<int>> {
    match after_prefix(line, "Blueprint ".spec_bytes()) {
        Some(rest) => match cut_once(rest, ": Each ore robot costs ".spec_bytes()) {
            Some(p) => costs_from(p.1, 0),
            None => None,
        },
        None => None,
    }
}

/// The blueprint with the costs `c`.
pub open spec fn blueprint_with(c: Seq<int>) -> Blueprint {
    Blueprint {
        ore_robot_ore_cost: c[0] as i32,
        clay_robot_ore_cost: c[1] as i32,
        obisidian_robot_ore_cost: c[2] as i32,
        obisidian_robot_clay_cost: c[3] as i32,
        geode_robot_ore_cost: c[4] as i32,
        geode_robot_obsidian_cost: c[5] as i32,
    }
}

/// The blueprints that the lines hold.
pub open spec fn blueprints_of(ls: Seq<Seq<u8>>) -> Seq<Blueprint> {
    Seq::new(ls.len(), |i: int| blueprint_with(costs_of(ls[i])->0))
}

/// Whether every line holds a blueprint.
pub open spec fn is_list(ls: Seq<Seq<u8>>) -> bool {
    forall|i: int| 0 <= i < ls.len() ==> costs_of(#[trigger] ls[i]) is Some
}

fn words(k: usize) -> (r: &'static [u8])
    ensures
        r@ == words_after(k as int),
{
    if k == 0 {
        " ore. Each clay robot costs ".as_bytes()
    } else if k == 1 {
        " ore. Each obsidian robot costs ".as_bytes()
    } else if k == 2 {
        " ore and ".as_bytes()
    } else if k == 3 {
        " clay. Each geode robot costs ".as_bytes()
    } else if k == 4 {
        " ore and ".as_bytes()
    } else {
        " obsidian".as_bytes()
    }
}

proof fn lemma_costs_len(rest: Seq<u8>, k: int)
    requires
        0 <= k <= 6,
        costs_from(rest, k) is Some,
    ensures
        costs_from(rest, k)->0.len() == 6 - k,
    decreases 6 - k,
{
    if k < 6 {
        let p = cut_once(rest, words_after(k))->0;
        lemma_costs_len(p.1, k + 1);
    }
}

fn parse_line(line: &[u8]) -> (r: Blueprint)
    requires
        costs_of(line@) is Some,
    ensures
        r == blueprint_with(costs_of(line@)->0),
{
    let rest = match strip_prefix(line, "Blueprint ".as_bytes()) {
        Some(rest) => rest,
        None => Vec::new(),
    };
    let mut rest = match split_once(rest.as_slice(), ": Each ore robot costs ".as_bytes()) {
        Some(p) => p.1,
        None => Vec::new(),
    };
    let ghost all = costs_of(line@)->0;
    let mut costs: Vec<i32> = Vec::new();
    let mut k: usize = 0;
    while k < 6
        invariant
            k <= 6,
            costs@.len() == k,
            costs_from(rest@, k as int) is Some,
            all =~= costs@.map_values(|c: i32| c as int) + costs_from(rest@, k as int)->0,
        decreases 6 - k,
    {
        let ghost before = costs@;
        let p = match split_once(rest.as_slice(), words(k)) {
            Some(p) => p,
            None => (Vec::new(), Vec::new()),
        };
        let n: i32 = match parse_i32(p.0.as_slice()) {
            Some(n) => n,
            None => 0,
        };
        costs.push(n);
        rest = p.1;
        k += 1;
    }
    proof {
        lemma_costs_len(rest@, 6);
    }
    Blueprint {
        ore_robot_ore_cost: costs[0],
        clay_robot_ore_cost: costs[1],
        obisidian_robot_ore_cost: costs[2],
        obisidian_robot_clay_cost: costs[3],
        geode_robot_ore_cost: costs[4],
        geode_robot_obsidian_cost: costs[5],
    }
}

/// The blueprints that the lines of the text hold.
pub fn parse_input(input: &str) -> (r: Vec<Blueprint>)
    requires
        is_list(lines_of(input.spec_bytes())),
    ensures
        r@ == blueprints_of(lines_of(input.spec_bytes())),
{
    let ls = lines(input.as_bytes());
    let ghost lv = lines_of(input.spec_bytes());
    let mut out: Vec<Blueprint> = Vec::new();
    let mut i: usize = 0;
    while i < ls.len()
        invariant
            i <= ls.len(),
            lv == views(ls@),
            is_list(lv),
            out@.len() == i,
            forall|j: int| 0 <= j < i ==> out@[j] == blueprint_with(costs_of(lv[j])->0),
        decreases ls.len() - i,
    {
        assert(ls@[i as int]@ == lv[i as int]);
        out.push(parse_line(ls[i].as_slice()));
        i += 1;
    }
    proof {
        assert(out@ =~= blueprints_of(lv));
    }
    out
}

/// The sum, over the first `k` blueprints, of the place of each, counted
/// from one, times the most geodes that it finds in 24 minutes.
pub open spec fn quality(bps: Seq<Blueprint>, k: nat) -> int
    decreases k,
{
    if k == 0 {
        0
    } else {
        quality(bps, (k - 1) as nat) + k * most_geodes(bps[k - 1], 24)
    }
}

/// The product of the most geodes that each of the first `k` blueprints
/// finds in 32 minutes.
pub open spec fn geode_product(bps: Seq<Blueprint>, k: nat) -> int
    decreases k,
{
    if k == 0 {
        1
    } else {
        geode_product(bps, (k - 1) as nat) * most_geodes(bps[k - 1], 32)
    }
}

/// Whether every line holds a blueprint whose costs lie between zero and
/// the limit.
pub open spec fn is_plan(ls: Seq<Seq<u8>>) -> bool {
    &&& is_list(ls)
    &&& forall|i: int| 0 <= i < ls.len() ==> (#[trigger] blueprints_of(ls)[i]).wf()
}

/// The sum of the quality of the blueprints over 24 minutes.
pub fn day19_1(input: &str) -> (r: usize)
    requires
        is_plan(lines_of(input.spec_bytes())),
        forall|k: nat|
            k <= lines_of(input.spec_bytes()).len() ==> #[trigger] quality(
                blueprints_of(lines_of(input.spec_bytes())),
                k,
            ) <= usize::MAX,
    ensures
        r == quality(
            blueprints_of(lines_of(input.spec_bytes())),
            lines_of(input.spec_bytes()).len(),
        ),
{
    let blueprints = parse_input(input);
    let ghost bps = blueprints_of(lines_of(input.spec_bytes()));
    let mut acc: usize = 0;
    let mut i: usize = 0;
    while i < blueprints.len()
        invariant
            i <= blueprints.len(),
            blueprints@ == bps,
            forall|j: int| 0 <= j < bps.len() ==> (#[trigger] bps[j]).wf(),
            forall|k: nat| k <= bps.len() ==> #[trigger] quality(bps, k) <= usize::MAX,
            acc == quality(bps, i as nat),
        decreases blueprints.len() - i,
    {
        let geo = blueprints[i].simulate_most_geodes::<24>();
        proof {
            assert(quality(bps, (i + 1) as nat) <= usize::MAX);
            assert((i + 1) * geo >= 0) by (nonlinear_arith)
                requires
                    geo >= 0,
                    i >= 0,
            ;
        }
        acc = acc + (i + 1) * (geo as usize);
        i += 1;
    }
    acc
}

/// The product of the most geodes that the first three blueprints find in
/// 32 minutes.
pub fn day19_2(input: &str) -> (r: i32)
    requires
        is_plan(lines_of(input.spec_bytes())),
    ensures
        r == geode_product(
            blueprints_of(lines_of(input.spec_bytes())),
            if lines_of(input.spec_bytes()).len() < 3 {
                lines_of(input.spec_bytes()).len()
            } else {
                3
            },
        ),
{
    let blueprints = parse_input(input);
    let ghost bps = blueprints_of(lines_of(input.spec_bytes()));
    let mut acc: i32 = 1;
    let mut i: usize = 0;
    while i < blueprints.len() && i < 3
        invariant
            i <= blueprints.len(),
            i <= 3,
            blueprints@ == bps,
            forall|j: int| 0 <= j < bps.len() ==> (#[trigger] bps[j]).wf(),
            acc == geode_product(bps, i as nat),
            0 <= acc,
            i == 0 ==> acc <= 1,
            i == 1 ==> acc <= 1024,
            i == 2 ==> acc <= 1048576,
        decreases blueprints.len() - i,
    {
        let geo = blueprints[i].simulate_most_geodes::<32>();
        proof {
            assert(0 <= acc * geo <= COST_LIMIT) by (nonlinear_arith)
                requires
                    0 <= geo <= 1024,
                    0 <= acc <= 1048576,
            ;
            if i == 0 {
                assert(acc * geo <= 1024) by (nonlinear_arith)
                    requires
                        0 <= geo <= 1024,
                        0 <= acc <= 1,
                ;
            }
            if i == 1 {
                assert(acc * geo <= 1048576) by (nonlinear_arith)
                    requires
                        0 <= geo <= 1024,
                        0 <= acc <= 1024,
                ;
            }
        }
        acc = acc * geo;
        i += 1;
    }
    acc
}

} // verus!
