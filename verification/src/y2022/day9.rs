//! A rope of knots: each knot follows the one before it.

use crate::text::{lines, lines_of, parse_i32, parse_int, views};
use vstd::prelude::*;
use vstd::string::*;

verus! {

/// The position of a knot.
#[derive(Debug, Copy, Clone, Hash, PartialEq, Eq, PartialOrd, Ord, Structural)]
pub struct Knot {
    pub x: i64,
    pub y: i64,
}

/// The direction of a step of the head.
#[derive(Debug, Copy, Clone, PartialEq, Eq, Structural)]
pub enum Direction {
    Left,
    Right,
    Up,
    Down,
}

/// `coord` moved one step towards `other`.
pub open spec fn toward(coord: int, other: int) -> int {
    if coord < other {
        coord + 1
    } else if coord == other {
        coord
    } else {
        coord - 1
    }
}

/// Whether `a` and `b` touch: they are the same cell or neighbours, also
/// across a corner.
pub open spec fn touching(a: Knot, b: Knot) -> bool {
    -1 <= a.x - b.x <= 1 && -1 <= a.y - b.y <= 1
}

impl Knot {
    /// Where the knot goes when the knot before it is at `other`: nowhere
    /// if the two touch, else one step towards it along each axis.
    pub open spec fn spec_follow(self, other: Knot) -> Knot {
        if touching(self, other) {
            self
        } else {
            Knot { x: toward(self.x as int, other.x as int) as i64, y: toward(
                self.y as int,
                other.y as int,
            ) as i64 }
        }
    }

    /// Where a step in direction `dir` leads; up is towards greater `y`.
    pub open spec fn spec_follow_dir(self, dir: Direction) -> Knot {
        match dir {
            Direction::Left => Knot { x: (self.x - 1) as i64, y: self.y },
            Direction::Right => Knot { x: (self.x + 1) as i64, y: self.y },
            Direction::Up => Knot { x: self.x, y: (self.y + 1) as i64 },
            Direction::Down => Knot { x: self.x, y: (self.y - 1) as i64 },
        }
    }

    pub fn follow(&self, other: Knot) -> (r: Knot)
        requires
            i64::MIN < other.x < i64::MAX,
            i64::MIN < other.y < i64::MAX,
        ensures
            r == self.spec_follow(other),
    {
        if other.x - 1 <= self.x && self.x <= other.x + 1 && other.y - 1 <= self.y && self.y
            <= other.y + 1 {
            return *self;
        }
        let x = Self::coord_follow(self.x, other.x);
        let y = Self::coord_follow(self.y, other.y);
        Knot { x, y }
    }

    pub fn coord_follow(coord: i64, other: i64) -> (r: i64)
        ensures
            r == toward(coord as int, other as int),
    {
        if coord < other {
            coord + 1
        } else if coord == other {
            coord
        } else {
            coord - 1
        }
    }

    pub fn follow_dir(&self, dir: Direction) -> (r: Knot)
        requires
            i64::MIN < self.x < i64::MAX,
            i64::MIN < self.y < i64::MAX,
        ensures
            r == self.spec_follow_dir(dir),
    {
        match dir {
            Direction::Left => Knot { x: self.x - 1, y: self.y },
            Direction::Right => Knot { x: self.x + 1, y: self.y },
            Direction::Up => Knot { x: self.x, y: self.y + 1 },
            Direction::Down => Knot { x: self.x, y: self.y - 1 },
        }
    }
}

/// The direction that a letter names.
pub open spec fn direction_of(c: char) -> Direction {
    if c == 'L' {
        Direction::Left
    } else if c == 'R' {
        Direction::Right
    } else if c == 'U' {
        Direction::Up
    } else {
        Direction::Down
    }
}

impl Direction {
    /// The direction that one of the letters `L`, `R`, `U`, `D` names.
    pub fn from_char(c: char) -> (r: Direction)
        requires
            c == 'L' || c == 'R' || c == 'U' || c == 'D',
        ensures
            r == direction_of(c),
    {
        if c == 'L' {
            Direction::Left
        } else if c == 'R' {
            Direction::Right
        } else if c == 'U' {
            Direction::Up
        } else {
            Direction::Down
        }
    }
}


/// The move that a line spells: a letter for the direction, one more
/// byte, and the number of steps.
pub open spec fn move_of(line: Seq<u8>) -> Option<(Direction, int)> {
    if line.len() < 2 || !(line[0] == 76 || line[0] == 82 || line[0] == 85 || line[0] == 68) {
        None
    } else {
        match parse_int(line.subrange(2, line.len() as int), i32::MIN as int, i32::MAX as int) {
            Some(n) => Some((direction_of(line[0] as char), n)),
            None => None,
        }
    }
}

/// The number of steps that a line asks for: none where its number is
/// below zero.
pub open spec fn steps_of(line: Seq<u8>) -> nat {
    let m = move_of(line)->0;
    if m.1 > 0 {
        m.1 as nat
    } else {
        0
    }
}

/// The rope after the head has made a step: every knot follows the one
/// before it.
pub open spec fn pulled(rope: Seq<Knot>, dir: Direction, k: nat) -> Seq<Knot>
    decreases k,
{
    if k == 0 {
        Seq::empty()
    } else if k == 1 {
        seq![rope[0].spec_follow_dir(dir)]
    } else {
        let front = pulled(rope, dir, (k - 1) as nat);
        front.push(rope[k - 1].spec_follow(front[k - 2]))
    }
}

/// A rope and the places where its last knot has been.
pub struct Trail {
    pub rope: Seq<Knot>,
    pub seen: Set<Knot>,
}

/// The trail after the first `i` lines and `j` steps of the next.
pub open spec fn trail_after(ls: Seq<Seq<u8>>, knots: nat, i: nat, j: nat) -> Trail
    decreases i, j,
{
    if j > 0 {
        let before = trail_after(ls, knots, i, (j - 1) as nat);
        let m = move_of(ls[i as int])->0;
        let rope = pulled(before.rope, m.0, knots);
        Trail { rope, seen: before.seen.insert(rope[knots - 1]) }
    } else if i > 0 {
        trail_after(ls, knots, (i - 1) as nat, steps_of(ls[i - 1]))
    } else {
        Trail {
            rope: Seq::new(knots, |k: int| Knot { x: 0, y: 0 }),
            seen: set![Knot { x: 0, y: 0 }],
        }
    }
}

/// Whether no knot of the rope is at the edge of the numbers.
pub open spec fn in_range(rope: Seq<Knot>) -> bool {
    forall|k: int|
        0 <= k < rope.len() ==> i64::MIN < (#[trigger] rope[k]).x < i64::MAX && i64::MIN
            < rope[k].y < i64::MAX
}

/// Whether the lines spell moves that keep the rope away from the edge of
/// the numbers.
pub open spec fn can_pull(ls: Seq<Seq<u8>>, knots: nat) -> bool {
    &&& forall|i: int| 0 <= i < ls.len() ==> move_of(#[trigger] ls[i]) is Some
    &&& forall|i: nat, j: nat|
        i < ls.len() && j <= steps_of(ls[i as int]) ==> in_range(
            (#[trigger] trail_after(ls, knots, i, j)).rope,
        )
}

/// The number of places where the last of `knots` knots has been.
pub fn count_tail_places(input: &str, knots: usize) -> (r: usize)
    requires
        knots >= 1,
        can_pull(lines_of(input.spec_bytes()), knots as nat),
    ensures
        r == trail_after(
            lines_of(input.spec_bytes()),
            knots as nat,
            lines_of(input.spec_bytes()).len(),
            0,
        ).seen.len(),
{
    let ls = lines(input.as_bytes());
    let ghost lv = lines_of(input.spec_bytes());
    let mut rope: Vec<Knot> = Vec::new();
    let mut k: usize = 0;
    while k < knots
        invariant
            k <= knots,
            rope@ == Seq::new(k as nat, |j: int| Knot { x: 0, y: 0 }),
        decreases knots - k,
    {
        rope.push(Knot { x: 0, y: 0 });
        k += 1;
        proof {
            assert(rope@ =~= Seq::new(k as nat, |j: int| Knot { x: 0, y: 0 }));
        }
    }
    let mut visited: Vec<Knot> = Vec::new();
    visited.push(Knot { x: 0, y: 0 });
    proof {
        assert(visited@[0] == Knot { x: 0, y: 0 });
        assert(visited@.contains(Knot { x: 0, y: 0 }));
        assert(visited@.to_set() =~= set![Knot { x: 0, y: 0 }]);
    }
    let mut i: usize = 0;
    while i < ls.len()
        invariant
            i <= ls.len(),
            knots >= 1,
            lv == views(ls@),
            can_pull(lv, knots as nat),
            rope@ == trail_after(lv, knots as nat, i as nat, 0).rope,
            rope@.len() == knots,
            visited@.no_duplicates(),
            visited@.to_set() == trail_after(lv, knots as nat, i as nat, 0).seen,
        decreases ls.len() - i,
    {
        assert(ls@[i as int]@ == lv[i as int]);
        assert(move_of(lv[i as int]) is Some);
        let line = ls[i].as_slice();
        let dir = Direction::from_char(line[0] as char);
        let rest = vstd::slice::slice_subrange(line, 2, line.len());
        let qnt: i32 = match parse_i32(rest) {
            Some(n) => n,
            None => {
                proof {
                    assert(false);
                }
                0
            },
        };
        let mut j: i32 = 0;
        while j < qnt
            invariant
                0 <= j,
                j <= qnt || qnt < 0 && j == 0,
                i < ls.len(),
                knots >= 1,
                lv == views(ls@),
                can_pull(lv, knots as nat),
                move_of(lv[i as int]) == Some((dir, qnt as int)),
                rope@ == trail_after(lv, knots as nat, i as nat, j as nat).rope,
                rope@.len() == knots,
                visited@.no_duplicates(),
                visited@.to_set() == trail_after(lv, knots as nat, i as nat, j as nat).seen,
            decreases qnt - j,
        {
            let ghost before = rope@;
            proof {
                assert(in_range(trail_after(lv, knots as nat, i as nat, j as nat).rope));
                assert(in_range(trail_after(lv, knots as nat, i as nat, (j + 1) as nat).rope));
            }
            let head = rope[0].follow_dir(dir);
            rope[0] = head;
            let mut k: usize = 1;
            while k < knots
                invariant
                    1 <= k <= knots,
                    rope@.len() == knots,
                    before.len() == knots,
                    in_range(before),
                    in_range(pulled(before, dir, knots as nat)),
                    forall|m: int| 0 <= m < k ==> #[trigger] rope@[m] == pulled(before, dir, k as nat)[m],
                    forall|m: int| k <= m < knots ==> #[trigger] rope@[m] == before[m],
                    pulled(before, dir, k as nat).len() == k,
                decreases knots - k,
            {
                proof {
                    lemma_pulled(before, dir, k as nat, knots as nat);
                    lemma_pulled(before, dir, (k + 1) as nat, knots as nat);
                    lemma_pulled(before, dir, knots as nat, knots as nat);
                }
                let prev = rope[k - 1];
                proof {
                    assert(prev == pulled(before, dir, knots as nat)[k - 1]);
                }
                let next = rope[k].follow(prev);
                rope[k] = next;
                k += 1;
            }
            proof {
                assert(rope@ =~= pulled(before, dir, knots as nat));
            }
            let tail = rope[knots - 1];
            let mut m: usize = 0;
            let mut known = false;
            while m < visited.len() && !known
                invariant
                    m <= visited.len(),
                    known ==> visited@.contains(tail),
                    !known ==> forall|q: int| 0 <= q < m ==> visited@[q] != tail,
                decreases visited.len() - m + if known { 0int } else { 1int },
            {
                if visited[m].x == tail.x && visited[m].y == tail.y {
                    assert(visited@[m as int] == tail);
                    known = true;
                } else {
                    m += 1;
                }
            }
            let ghost old_seen = visited@;
            if !known {
                visited.push(tail);
                proof {
                    assert(!old_seen.contains(tail));
                    old_seen.lemma_push_to_set_commute(tail);
                }
            } else {
                proof {
                    assert(old_seen.contains(tail));
                    assert(old_seen.to_set().insert(tail) =~= old_seen.to_set());
                }
            }
            j += 1;
        }
        i += 1;
    }
    proof {
        visited@.unique_seq_to_set();
    }
    visited.len()
}

/// The first `k` knots of the pulled rope are the same however many
/// follow.
pub proof fn lemma_pulled(rope: Seq<Knot>, dir: Direction, k: nat, n: nat)
    requires
        1 <= k <= n,
    ensures
        pulled(rope, dir, k).len() == k,
        forall|m: int| 0 <= m < k ==> pulled(rope, dir, k)[m] == pulled(rope, dir, n)[m],
    decreases n,
{
    if k < n {
        lemma_pulled(rope, dir, k, (n - 1) as nat);
        lemma_pulled(rope, dir, (n - 1) as nat, (n - 1) as nat);
    } else if k > 1 {
        lemma_pulled(rope, dir, (k - 1) as nat, (k - 1) as nat);
    }
}

/// The number of places where the tail of a rope of two knots has been.
pub fn day9_1(input: &str) -> (r: usize)
    requires
        can_pull(lines_of(input.spec_bytes()), 2),
    ensures
        r == trail_after(
            lines_of(input.spec_bytes()),
            2,
            lines_of(input.spec_bytes()).len(),
            0,
        ).seen.len(),
{
    count_tail_places(input, 2)
}

/// The number of places where the tail of a rope of ten knots has been.
pub fn day9_2(input: &str) -> (r: usize)
    requires
        can_pull(lines_of(input.spec_bytes()), 10),
    ensures
        r == trail_after(
            lines_of(input.spec_bytes()),
            10,
            lines_of(input.spec_bytes()).len(),
            0,
        ).seen.len(),
{
    count_tail_places(input, 10)
}

} // verus!
