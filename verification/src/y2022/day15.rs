//! Sensors and beacons: diamonds in the plane.

use crate::iters::{
    lemma_stable_sorted, lemma_stable_sorted_len, rising, sorted_by_first, stable_sorted,
};
use crate::text::{after_prefix, cut_once, lines, lines_of, parse_i64, parse_int, split_once, strip_prefix, views};
use vstd::prelude::*;
use vstd::string::*;

verus! {

/// The points within Manhattan distance `radius` of `center`.
#[derive(Debug, Clone, Copy, PartialEq, Eq)]
pub struct Circle {
    pub center: (i64, i64),
    pub radius: usize,
}

/// The distance between `a` and `b` along the axes.
pub open spec fn manhattan(a: (i64, i64), b: (i64, i64)) -> int {
    (if a.0 >= b.0 {
        a.0 - b.0
    } else {
        b.0 - a.0
    }) + (if a.1 >= b.1 {
        a.1 - b.1
    } else {
        b.1 - a.1
    })
}

impl Circle {
    /// Whether the corners can be computed in 64 bits.
    pub open spec fn corners_fit(&self) -> bool {
        &&& self.radius <= i64::MAX
        &&& i64::MIN <= self.center.0 - self.radius
        &&& self.center.0 + self.radius <= i64::MAX
        &&& i64::MIN <= self.center.1 - self.radius
        &&& self.center.1 + self.radius <= i64::MAX
    }

    /// The four corners: right, left, lower (greater `y`), upper.
    pub fn corners(&self) -> (r: [(i64, i64); 4])
        requires
            self.corners_fit(),
        ensures
            r@ == seq![
                ((self.center.0 + self.radius) as i64, self.center.1),
                ((self.center.0 - self.radius) as i64, self.center.1),
                (self.center.0, (self.center.1 + self.radius) as i64),
                (self.center.0, (self.center.1 - self.radius) as i64),
            ],
    {
        let rad: i64 = self.radius as i64;
        let r = [
            (self.center.0 + rad, self.center.1),
            (self.center.0 - rad, self.center.1),
            (self.center.0, self.center.1 + rad),
            (self.center.0, self.center.1 - rad),
        ];
        proof {
            assert(r@ =~= seq![
                ((self.center.0 + self.radius) as i64, self.center.1),
                ((self.center.0 - self.radius) as i64, self.center.1),
                (self.center.0, (self.center.1 + self.radius) as i64),
                (self.center.0, (self.center.1 - self.radius) as i64),
            ]);
        }
        r
    }

    /// The distance between the two centers.
    pub fn distance(&self, other: &Circle) -> (r: usize)
        requires
            manhattan(self.center, other.center) <= i64::MAX,
            manhattan(self.center, other.center) <= usize::MAX,
        ensures
            r == manhattan(self.center, other.center),
    {
        gap(self.center.0, other.center.0) + gap(self.center.1, other.center.1)
    }

    /// Whether the centers are closer than the sum of the radii.
    pub fn intersects(&self, other: &Circle) -> (r: bool)
        requires
            manhattan(self.center, other.center) <= i64::MAX,
            manhattan(self.center, other.center) <= usize::MAX,
            self.radius + other.radius <= usize::MAX,
        ensures
            r == (manhattan(self.center, other.center) < self.radius + other.radius),
    {
        self.distance(other) < self.radius + other.radius
    }

    /// Whether `point` is closer to the center than the radius.
    pub fn inside(&self, point: &(i64, i64)) -> (r: bool)
        requires
            manhattan(self.center, *point) <= i64::MAX,
            manhattan(self.center, *point) <= usize::MAX,
        ensures
            r == (manhattan(self.center, *point) < self.radius),
    {
        let distance = gap(self.center.0, point.0) + gap(self.center.1, point.1);
        distance < self.radius
    }
}

/// The distance between two numbers.
pub fn gap(a: i64, b: i64) -> (r: usize)
    requires
        -(i64::MAX as int) <= a - b <= i64::MAX,
        -(usize::MAX as int) <= a - b <= usize::MAX,
    ensures
        r == if a >= b {
            a - b
        } else {
            b - a
        },
{
    if a >= b {
        (a - b) as usize
    } else {
        (b - a) as usize
    }
}

/// The distance between two numbers.
pub open spec fn apart(a: int, b: int) -> int {
    if a >= b {
        a - b
    } else {
        b - a
    }
}

/// The stretch of row `y` that the sensor covers: from its centre as far
/// to each side as its radius is greater than the distance to the row;
/// `None` where the sensor does not reach the row.
pub open spec fn span_of(c: Circle, y: int) -> Option<(int, int)> {
    let reach = c.radius - apart(c.center.1 as int, y);
    if reach < 0 {
        None
    } else {
        Some((c.center.0 - reach, c.center.0 + reach))
    }
}

/// Where the stretch of row `y` that the sensor covers begins.
pub open spec fn span_begin(c: Circle, y: int) -> int {
    let p = span_of(c, y)->0;
    p.0
}

/// Where the stretch of row `y` that the sensor covers ends.
pub open spec fn span_end(c: Circle, y: int) -> int {
    let p = span_of(c, y)->0;
    p.1
}

/// The stretches of row `y` that the first `k` sensors cover.
pub open spec fn spans(sensors: Seq<Circle>, y: int, k: nat) -> Seq<(i64, i64)>
    decreases k,
{
    if k == 0 {
        Seq::empty()
    } else {
        match span_of(sensors[k - 1], y) {
            Some(p) => spans(sensors, y, (k - 1) as nat).push((p.0 as i64, p.1 as i64)),
            None => spans(sensors, y, (k - 1) as nat),
        }
    }
}

/// Whether the stretches of row `y` can be worked out in 64 bits.
pub open spec fn spans_fit(sensors: Seq<Circle>, y: int) -> bool {
    forall|k: int|
        0 <= k < sensors.len() ==> {
            &&& (#[trigger] sensors[k]).radius <= i64::MAX
            &&& apart(sensors[k].center.1 as int, y) <= i64::MAX
            &&& sensors[k].radius - apart(sensors[k].center.1 as int, y) >= i64::MIN
            &&& span_of(sensors[k], y) is Some ==> i64::MIN < span_begin(sensors[k], y)
                && span_end(sensors[k], y) <= i64::MAX
        }
}

/// The stretches of row `y` that the sensors cover, in the order of the
/// sensors.
pub fn ranges_at(sensors: &[Circle], y: i64) -> (r: Vec<(i64, i64)>)
    requires
        spans_fit(sensors@, y as int),
    ensures
        r@ == spans(sensors@, y as int, sensors@.len()),
{
    let mut out: Vec<(i64, i64)> = Vec::new();
    let mut k: usize = 0;
    while k < sensors.len()
        invariant
            k <= sensors@.len(),
            spans_fit(sensors@, y as int),
            out@ == spans(sensors@, y as int, k as nat),
        decreases sensors.len() - k,
    {
        let c = sensors[k];
        assert(span_of(sensors@[k as int], y as int) is Some ==> i64::MIN < span_begin(
            sensors@[k as int],
            y as int,
        ));
        let distance: i64 = if c.center.1 >= y {
            c.center.1 - y
        } else {
            y - c.center.1
        };
        let range_radius: i64 = c.radius as i64 - distance;
        if range_radius >= 0 {
            out.push((c.center.0 - range_radius, c.center.0 + range_radius));
        }
        k += 1;
    }
    out
}

/// One more than a sum or the sum, as a beacon is taken off or not.
pub open spec fn less_one(hit: bool) -> int {
    if hit {
        1
    } else {
        0
    }
}

/// The number of places counted when the stretches from place `k` on
/// are gone through: `sum` are counted so far, up to the place `prey`. A
/// stretch that ends no further on adds nothing; another adds what it
/// has behind `prey`, less one if the next beacon stands there, which is
/// then passed.
pub open spec fn covered(
    ranges: Seq<(i64, i64)>,
    k: int,
    prey: int,
    beacons: Seq<i64>,
    bi: int,
    sum: int,
) -> int
    decreases ranges.len() - k,
{
    if k < 0 || k >= ranges.len() {
        sum
    } else {
        let x = ranges[k].0 as int;
        let y = ranges[k].1 as int;
        if y <= prey {
            covered(ranges, k + 1, prey, beacons, bi, sum)
        } else {
            let from = if x <= prey {
                prey + 1
            } else {
                x
            };
            let hit = 0 <= bi < beacons.len() && from <= beacons[bi] <= y;
            covered(
                ranges,
                k + 1,
                y,
                beacons,
                bi + less_one(hit),
                sum + (y - from + 1) - less_one(hit),
            )
        }
    }
}

/// The number of places of a row where no beacon can be: the places of
/// the stretches, which lie in the order of their beginnings, less the
/// beacons met on the way, which lie in rising order.
pub open spec fn beacon_free(ranges: Seq<(i64, i64)>, beacons: Seq<i64>) -> int {
    let hit = beacons.len() > 0 && ranges[0].0 <= beacons[0] <= ranges[0].1;
    covered(
        ranges,
        1,
        ranges[0].1 as int,
        beacons,
        less_one(hit),
        ranges[0].1 - ranges[0].0 + 1 - less_one(hit),
    )
}

/// Going through more stretches does not lower the count, if no stretch
/// ends before it begins.
pub proof fn lemma_covered(
    ranges: Seq<(i64, i64)>,
    k: int,
    prey: int,
    beacons: Seq<i64>,
    bi: int,
    sum: int,
)
    requires
        upright(ranges),
    ensures
        covered(ranges, k, prey, beacons, bi, sum) >= sum,
    decreases ranges.len() - k,
{
    if 0 <= k < ranges.len() {
        let x = ranges[k].0 as int;
        let y = ranges[k].1 as int;
        assert(ranges[k].0 <= ranges[k].1);
        if y <= prey {
            lemma_covered(ranges, k + 1, prey, beacons, bi, sum);
        } else {
            let from = if x <= prey {
                prey + 1
            } else {
                x
            };
            let hit = 0 <= bi < beacons.len() && from <= beacons[bi] <= y;
            lemma_covered(
                ranges,
                k + 1,
                y,
                beacons,
                bi + less_one(hit),
                sum + (y - from + 1) - less_one(hit),
            );
        }
    }
}

/// Whether every stretch ends no earlier than it begins.
pub open spec fn upright(ranges: Seq<(i64, i64)>) -> bool {
    forall|k: int| 0 <= k < ranges.len() ==> (#[trigger] ranges[k]).0 <= ranges[k].1
}

/// The number of places of row `y` where no beacon can be. `beacons`
/// holds the beacons of the row from left to right, each once.
pub fn count_beacont_at(sensors: &[Circle], beacons: &[i64], y: i64) -> (r: usize)
    requires
        spans_fit(sensors@, y as int),
        spans(sensors@, y as int, sensors@.len()).len() > 0,
        beacon_free(
            stable_sorted(
                spans(sensors@, y as int, sensors@.len()),
                spans(sensors@, y as int, sensors@.len()).len(),
            ),
            beacons@,
        ) <= i64::MAX,
        beacon_free(
            stable_sorted(
                spans(sensors@, y as int, sensors@.len()),
                spans(sensors@, y as int, sensors@.len()).len(),
            ),
            beacons@,
        ) <= usize::MAX,
    ensures
        r == beacon_free(
            stable_sorted(
                spans(sensors@, y as int, sensors@.len()),
                spans(sensors@, y as int, sensors@.len()).len(),
            ),
            beacons@,
        ),
{
    let unsorted = ranges_at(sensors, y);
    let ranges = sorted_by_first(unsorted.as_slice());
    proof {
        lemma_stable_sorted_len(unsorted@, unsorted@.len());
        lemma_upright(sensors@, y as int, sensors@.len());
        lemma_sorted_upright(unsorted@, unsorted@.len());
    }
    let ghost want = beacon_free(ranges@, beacons@);
    let (prex, first_end) = ranges[0];
    let mut prey: i64 = first_end;
    let mut bi: usize = 0;
    let mut taken: i128 = 0;
    if beacons.len() > 0 {
        let bx = beacons[0];
        if bx <= prey && bx >= prex {
            taken = 1;
            bi = 1;
        }
    }
    proof {
        lemma_covered(
            ranges@,
            1,
            prey as int,
            beacons@,
            bi as int,
            prey - prex + 1 - taken,
        );
    }
    let mut sum: i64 = (prey as i128 - prex as i128 + 1 - taken) as i64;
    let mut k: usize = 1;
    while k < ranges.len()
        invariant
            1 <= k <= ranges@.len(),
            upright(ranges@),
            bi <= beacons@.len(),
            0 <= sum,
            want <= i64::MAX,
            want == covered(ranges@, k as int, prey as int, beacons@, bi as int, sum as int),
        decreases ranges.len() - k,
    {
        let (x, y) = ranges[k];
        if y > prey {
            let from: i128 = if x <= prey {
                prey as i128 + 1
            } else {
                x as i128
            };
            let mut hit: i128 = 0;
            let mut next_bi: usize = bi;
            if bi < beacons.len() {
                let bx = beacons[bi];
                if bx as i128 >= from && bx <= y {
                    hit = 1;
                    next_bi = bi + 1;
                }
            }
            proof {
                assert(ranges@[k as int].0 <= ranges@[k as int].1);
                lemma_covered(
                    ranges@,
                    k + 1,
                    y as int,
                    beacons@,
                    next_bi as int,
                    sum + (y - from + 1) - hit,
                );
            }
            sum = (sum as i128 + (y as i128 - from + 1) - hit) as i64;
            bi = next_bi;
            prey = y;
        }
        k += 1;
    }
    sum as usize
}

/// The stretches of a row end no earlier than they begin.
pub proof fn lemma_upright(sensors: Seq<Circle>, y: int, k: nat)
    requires
        spans_fit(sensors, y),
        k <= sensors.len(),
    ensures
        upright(spans(sensors, y, k)),
    decreases k,
{
    if k > 0 {
        lemma_upright(sensors, y, (k - 1) as nat);
        assert(sensors[k - 1].radius <= i64::MAX);
    }
}

/// What holds of every pair holds of the pairs in order.
pub proof fn lemma_sorted_upright(v: Seq<(i64, i64)>, k: nat)
    requires
        upright(v),
        k <= v.len(),
    ensures
        upright(stable_sorted(v, k)),
    decreases k,
{
    if k > 0 {
        lemma_sorted_upright(v, (k - 1) as nat);
        crate::iters::lemma_slot(stable_sorted(v, (k - 1) as nat), v[k - 1]);
        lemma_stable_sorted_len(v, (k - 1) as nat);
    }
}


/// The places that lie in one of the first `k` stretches.
pub open spec fn places_upto(ranges: Seq<(i64, i64)>, k: int) -> Set<int> {
    Set::new(
        |x: int|
            exists|j: int| 0 <= j < k && j < ranges.len() && (#[trigger] ranges[j]).0 <= x <= ranges[j].1,
    )
}

/// The places that lie in one of the stretches.
pub open spec fn places_of(ranges: Seq<(i64, i64)>) -> Set<int> {
    places_upto(ranges, ranges.len() as int)
}

/// The number of the beacons that lie at one of the places.
pub open spec fn beacons_in(places: Set<int>, beacons: Seq<i64>) -> int
    decreases beacons.len(),
{
    if beacons.len() == 0 {
        0
    } else {
        beacons_in(places, beacons.drop_last()) + less_one(places.contains(beacons.last() as int))
    }
}

/// Of one beacon, one is counted if it lies at one of the places.
pub proof fn lemma_one_beacon(places: Set<int>, beacons: Seq<i64>)
    requires
        beacons.len() <= 1,
    ensures
        beacons_in(places, beacons) == less_one(
            beacons.len() == 1 && places.contains(beacons[0] as int),
        ),
{
    if beacons.len() == 1 {
        assert(beacons.drop_last().len() == 0);
        assert(beacons_in(places, beacons.drop_last()) == 0);
    }
}

/// As many places are counted as lie in the stretches, less the beacon
/// among them, in a row of one beacon at most: the count of the
/// stretches from place `k` on, after `sum` places up to `prey` in the
/// stretches before, `bi` of them taken off for the beacon.
pub proof fn lemma_covered_count(
    ranges: Seq<(i64, i64)>,
    k: int,
    prey: int,
    beacons: Seq<i64>,
    bi: int,
    sum: int,
    w: int,
)
    requires
        rising(ranges),
        upright(ranges),
        1 <= k <= ranges.len(),
        0 <= w < k,
        ranges[w].1 == prey,
        beacons.len() <= 1,
        0 <= bi <= beacons.len(),
        places_upto(ranges, k).finite(),
        places_upto(ranges, k).len() - bi == sum,
        forall|x: int| places_upto(ranges, k).contains(x) ==> x <= prey,
        beacons.len() == 1 ==> (bi == 1 <==> places_upto(ranges, k).contains(beacons[0] as int)),
    ensures
        places_of(ranges).finite(),
        covered(ranges, k, prey, beacons, bi, sum) == places_of(ranges).len() - beacons_in(
            places_of(ranges),
            beacons,
        ),
    decreases ranges.len() - k,
{
    lemma_one_beacon(places_of(ranges), beacons);
    if k < ranges.len() {
        let x = ranges[k].0 as int;
        let y = ranges[k].1 as int;
        let old = places_upto(ranges, k);
        let now = places_upto(ranges, k + 1);
        assert(ranges[w].0 <= ranges[k].0);
        assert(ranges[k].0 <= ranges[k].1);
        if y <= prey {
            assert forall|v: int| now.contains(v) implies old.contains(v) by {
                let j = choose|j: int|
                    0 <= j < k + 1 && j < ranges.len() && (#[trigger] ranges[j]).0 <= v
                        <= ranges[j].1;
                if j == k {
                    assert(ranges[w].0 <= v <= ranges[w].1);
                }
            }
            assert forall|v: int| old.contains(v) implies now.contains(v) by {
                let j = choose|j: int|
                    0 <= j < k && j < ranges.len() && (#[trigger] ranges[j]).0 <= v <= ranges[j].1;
                assert(ranges[j].0 <= v <= ranges[j].1);
            }
            assert(now =~= old);
            lemma_covered_count(ranges, k + 1, prey, beacons, bi, sum, w);
        } else {
            let from = if x <= prey {
                prey + 1
            } else {
                x
            };
            let more = vstd::set_lib::set_int_range(from, y + 1);
            vstd::set_lib::lemma_int_range(from, y + 1);
            assert forall|v: int| now.contains(v) implies (old + more).contains(v) by {
                let j = choose|j: int|
                    0 <= j < k + 1 && j < ranges.len() && (#[trigger] ranges[j]).0 <= v
                        <= ranges[j].1;
                if j == k {
                    if v <= prey {
                        assert(ranges[w].0 <= v <= ranges[w].1);
                        assert(old.contains(v));
                    } else {
                        assert(more.contains(v));
                    }
                } else {
                    assert(ranges[j].0 <= v <= ranges[j].1);
                    assert(old.contains(v));
                }
            }
            assert forall|v: int| (old + more).contains(v) implies now.contains(v) by {
                if old.contains(v) {
                    let j = choose|j: int|
                        0 <= j < k && j < ranges.len() && (#[trigger] ranges[j]).0 <= v
                            <= ranges[j].1;
                    assert(ranges[j].0 <= v <= ranges[j].1);
                } else {
                    assert(ranges[k].0 <= v <= ranges[k].1);
                }
            }
            assert(now =~= old + more);
            assert(old.disjoint(more));
            vstd::set_lib::lemma_set_disjoint_lens(old, more);
            vstd::set_lib::lemma_set_union_finite_iff(old, more);
            assert forall|v: int| now.contains(v) implies v <= y by {
                if !more.contains(v) {
                    assert(old.contains(v));
                }
            }
            let hit = 0 <= bi < beacons.len() && from <= beacons[bi] <= y;
            if beacons.len() == 1 {
                let b = beacons[0] as int;
                assert(more.contains(b) <==> from <= b <= y);
                assert(now.contains(b) <==> old.contains(b) || more.contains(b));
            }
            lemma_covered_count(
                ranges,
                k + 1,
                y,
                beacons,
                bi + less_one(hit),
                sum + (y - from + 1) - less_one(hit),
                k,
            );
        }
    }
}

/// With one beacon at most, the count of a row is the number of places
/// that lie in its stretches, less the beacon if it lies at one of them.
pub proof fn lemma_count_places(ranges: Seq<(i64, i64)>, beacons: Seq<i64>)
    requires
        rising(ranges),
        upright(ranges),
        ranges.len() > 0,
        beacons.len() <= 1,
    ensures
        places_of(ranges).finite(),
        beacon_free(ranges, beacons) == places_of(ranges).len() - beacons_in(
            places_of(ranges),
            beacons,
        ),
{
    let x0 = ranges[0].0 as int;
    let y0 = ranges[0].1 as int;
    assert(ranges[0].0 <= ranges[0].1);
    vstd::set_lib::lemma_int_range(x0, y0 + 1);
    assert forall|v: int| places_upto(ranges, 1).contains(v) implies vstd::set_lib::set_int_range(
        x0,
        y0 + 1,
    ).contains(v) by {
        let j = choose|j: int|
            0 <= j < 1 && j < ranges.len() && (#[trigger] ranges[j]).0 <= v <= ranges[j].1;
    }
    assert forall|v: int| vstd::set_lib::set_int_range(x0, y0 + 1).contains(v) implies places_upto(
        ranges,
        1,
    ).contains(v) by {
        assert(ranges[0].0 <= v <= ranges[0].1);
    }
    assert(places_upto(ranges, 1) =~= vstd::set_lib::set_int_range(x0, y0 + 1));
    let hit = beacons.len() > 0 && ranges[0].0 <= beacons[0] <= ranges[0].1;
    lemma_covered_count(ranges, 1, y0, beacons, less_one(hit), y0 - x0 + 1 - less_one(hit), 0);
}

/// The places of row `y` that are no further from a sensor than its
/// beacon is.
pub open spec fn within_reach(sensors: Seq<Circle>, y: int) -> Set<int> {
    Set::new(
        |x: int|
            exists|k: int|
                0 <= k < sensors.len() && apart((#[trigger] sensors[k]).center.0 as int, x) + apart(
                    sensors[k].center.1 as int,
                    y,
                ) <= sensors[k].radius,
    )
}

/// Whether `r` is the stretch of one of the first `k` sensors.
pub open spec fn is_span(sensors: Seq<Circle>, y: int, k: int, r: (i64, i64)) -> bool {
    exists|i: int|
        0 <= i < k && span_of(#[trigger] sensors[i], y) is Some && r == (
            span_begin(sensors[i], y) as i64,
            span_end(sensors[i], y) as i64,
        )
}

/// The stretches of a row are those of the sensors that reach it.
pub proof fn lemma_spans(sensors: Seq<Circle>, y: int, k: nat)
    requires
        spans_fit(sensors, y),
        k <= sensors.len(),
    ensures
        forall|i: int|
            0 <= i < k && span_of(#[trigger] sensors[i], y) is Some ==> spans(sensors, y, k).contains(
                (span_begin(sensors[i], y) as i64, span_end(sensors[i], y) as i64),
            ),
        forall|j: int|
            0 <= j < spans(sensors, y, k).len() ==> is_span(
                sensors,
                y,
                k as int,
                #[trigger] spans(sensors, y, k)[j],
            ),
    decreases k,
{
    if k > 0 {
        lemma_spans(sensors, y, (k - 1) as nat);
        let before = spans(sensors, y, (k - 1) as nat);
        let now = spans(sensors, y, k);
        assert forall|i: int| 0 <= i < k && span_of(#[trigger] sensors[i], y) is Some implies now.contains(
            (span_begin(sensors[i], y) as i64, span_end(sensors[i], y) as i64),
        ) by {
            let want = (span_begin(sensors[i], y) as i64, span_end(sensors[i], y) as i64);
            if i == k - 1 {
                assert(now[now.len() - 1] == want);
            } else {
                let q = choose|q: int| 0 <= q < before.len() && before[q] == want;
                assert(now[q] == before[q]);
            }
        }
        assert forall|j: int| 0 <= j < now.len() implies is_span(
            sensors,
            y,
            k as int,
            #[trigger] now[j],
        ) by {
            if j < before.len() {
                assert(now[j] == before[j]);
                assert(is_span(sensors, y, k - 1, before[j]));
                let i = choose|i: int|
                    0 <= i < k - 1 && span_of(#[trigger] sensors[i], y) is Some && before[j] == (
                        span_begin(sensors[i], y) as i64,
                        span_end(sensors[i], y) as i64,
                    );
                assert(span_of(sensors[i], y) is Some);
            } else {
                assert(span_of(sensors[k - 1], y) is Some);
            }
        }
    }
}

/// Where a row has one beacon at most, the count of the row is the
/// number of its places that are no further from a sensor than its
/// beacon is, less the beacon of the row if it lies at one of them.
pub proof fn lemma_row_count(sensors: Seq<Circle>, y: int, beacons: Seq<i64>)
    requires
        spans_fit(sensors, y),
        spans(sensors, y, sensors.len()).len() > 0,
        beacons.len() <= 1,
    ensures
        within_reach(sensors, y).finite(),
        beacon_free(row_ranges(sensors, y), beacons) == within_reach(sensors, y).len() - beacons_in(
            within_reach(sensors, y),
            beacons,
        ),
{
    let v = spans(sensors, y, sensors.len());
    let ranges = row_ranges(sensors, y);
    lemma_upright(sensors, y, sensors.len());
    lemma_sorted_upright(v, v.len());
    lemma_stable_sorted(v, v.len());
    lemma_spans(sensors, y, sensors.len());
    lemma_count_places(ranges, beacons);
    assert forall|x: int| places_of(ranges).contains(x) implies within_reach(sensors, y).contains(
        x,
    ) by {
        let j = choose|j: int|
            0 <= j < ranges.len() && j < ranges.len() && (#[trigger] ranges[j]).0 <= x
                <= ranges[j].1;
        let q = choose|q: int| 0 <= q < v.len() && v[q] == ranges[j];
        assert(is_span(sensors, y, sensors.len() as int, v[q]));
        let i = choose|i: int|
            0 <= i < sensors.len() && span_of(#[trigger] sensors[i], y) is Some && v[q] == (
                span_begin(sensors[i], y) as i64,
                span_end(sensors[i], y) as i64,
            );
        assert(sensors[i].radius <= i64::MAX);
        assert(apart(sensors[i].center.0 as int, x) + apart(sensors[i].center.1 as int, y)
            <= sensors[i].radius);
    }
    assert forall|x: int| within_reach(sensors, y).contains(x) implies places_of(ranges).contains(
        x,
    ) by {
        let i = choose|i: int|
            0 <= i < sensors.len() && apart((#[trigger] sensors[i]).center.0 as int, x) + apart(
                sensors[i].center.1 as int,
                y,
            ) <= sensors[i].radius;
        assert(sensors[i].radius <= i64::MAX);
        assert(span_of(sensors[i], y) is Some);
        let want = (span_begin(sensors[i], y) as i64, span_end(sensors[i], y) as i64);
        assert(v.contains(want));
        let q = choose|q: int| 0 <= q < v.len() && v[q] == want;
        assert(ranges.contains(v[q]));
        let j = choose|j: int| 0 <= j < ranges.len() && ranges[j] == want;
        assert(ranges[j].0 <= x <= ranges[j].1);
    }
    assert(places_of(ranges) =~= within_reach(sensors, y));
}

/// The first place from `k` on of a stretch that does not end left of
/// zero.
pub open spec fn first_reaching(ranges: Seq<(i64, i64)>, k: int) -> int
    decreases ranges.len() - k,
{
    if k < 0 || k >= ranges.len() || ranges[k].1 >= 0 {
        k
    } else {
        first_reaching(ranges, k + 1)
    }
}

/// The place before the first stretch from `k` on that begins more than
/// one place behind `prey`, the furthest end so far.
pub open spec fn gap_from(ranges: Seq<(i64, i64)>, k: int, prey: int) -> Option<int>
    decreases ranges.len() - k,
{
    if k < 0 || k >= ranges.len() {
        None
    } else if prey < ranges[k].0 - 1 {
        Some(ranges[k].0 - 1)
    } else {
        gap_from(
            ranges,
            k + 1,
            if prey >= ranges[k].1 {
                prey
            } else {
                ranges[k].1 as int
            },
        )
    }
}

/// A place at or right of zero that the stretches, which lie in the order
/// of their beginnings, leave free: zero, if the first stretch that
/// reaches it begins right of it; else the place before the first
/// stretch that leaves a gap.
pub open spec fn free_place(ranges: Seq<(i64, i64)>) -> Option<int> {
    let i = first_reaching(ranges, 0);
    if ranges[i].0 > 0 {
        Some(0)
    } else {
        gap_from(ranges, i + 1, ranges[i].1 as int)
    }
}

/// The stretches of row `y`, in the order of their beginnings.
pub open spec fn row_ranges(sensors: Seq<Circle>, y: int) -> Seq<(i64, i64)> {
    stable_sorted(spans(sensors, y, sensors.len()), spans(sensors, y, sensors.len()).len())
}

/// No stretch of a row begins at the least number.
pub open spec fn above_least(ranges: Seq<(i64, i64)>) -> bool {
    forall|k: int| 0 <= k < ranges.len() ==> (#[trigger] ranges[k]).0 > i64::MIN
}

/// No stretch of a row begins at the least number.
pub proof fn lemma_above_least(sensors: Seq<Circle>, y: int, k: nat)
    requires
        spans_fit(sensors, y),
        k <= sensors.len(),
    ensures
        above_least(spans(sensors, y, k)),
    decreases k,
{
    if k > 0 {
        lemma_above_least(sensors, y, (k - 1) as nat);
        assert(sensors[k - 1].radius <= i64::MAX);
    }
}

/// What holds of every beginning holds of the beginnings in order.
pub proof fn lemma_sorted_above_least(v: Seq<(i64, i64)>, k: nat)
    requires
        above_least(v),
        k <= v.len(),
    ensures
        above_least(stable_sorted(v, k)),
    decreases k,
{
    if k > 0 {
        lemma_sorted_above_least(v, (k - 1) as nat);
        crate::iters::lemma_slot(stable_sorted(v, (k - 1) as nat), v[k - 1]);
        lemma_stable_sorted_len(v, (k - 1) as nat);
    }
}

/// A place of row `y` at or right of zero that no sensor covers, if the
/// stretches leave one where it is looked for. A stretch must reach
/// zero or beyond.
pub fn find_empty(sensors: &[Circle], y: i64) -> (r: Option<i64>)
    requires
        spans_fit(sensors@, y as int),
        first_reaching(row_ranges(sensors@, y as int), 0) < row_ranges(sensors@, y as int).len(),
    ensures
        match r {
            Some(x) => free_place(row_ranges(sensors@, y as int)) == Some(x as int),
            None => free_place(row_ranges(sensors@, y as int)) is None,
        },
{
    let unsorted = ranges_at(sensors, y);
    let ranges = sorted_by_first(unsorted.as_slice());
    proof {
        lemma_above_least(sensors@, y as int, sensors@.len());
        lemma_sorted_above_least(unsorted@, unsorted@.len());
    }
    let mut i: usize = 0;
    while i < ranges.len() && ranges[i].1 < 0
        invariant
            i <= ranges@.len(),
            first_reaching(ranges@, 0) == first_reaching(ranges@, i as int),
        decreases ranges.len() - i,
    {
        i += 1;
    }
    let (prex, first_end) = ranges[i];
    if prex > 0 {
        return Some(0);
    }
    let mut prey: i64 = first_end;
    let mut k: usize = i + 1;
    while k < ranges.len()
        invariant
            i < k <= ranges@.len(),
            above_least(ranges@),
            ranges@ == row_ranges(sensors@, y as int),
            free_place(ranges@) == gap_from(ranges@, k as int, prey as int),
        decreases ranges.len() - k,
    {
        let (x, end) = ranges[k];
        assert(ranges@[k as int].0 > i64::MIN);
        if prey < x - 1 {
            return Some(x - 1);
        }
        if end > prey {
            prey = end;
        }
        k += 1;
    }
    None
}

/// The greatest number that the coordinates and the radius of a sensor
/// may have for the crossings of its sides to be worked out.
pub open spec fn small_limit() -> int {
    if (usize::MAX as int) / 8 < 0x400_0000_0000_0000 {
        (usize::MAX as int) / 8
    } else {
        0x400_0000_0000_0000
    }
}

/// Whether the coordinates and the radius of the sensor are small.
pub open spec fn small(c: Circle) -> bool {
    &&& -small_limit() <= c.center.0 <= small_limit()
    &&& -small_limit() <= c.center.1 <= small_limit()
    &&& c.radius <= small_limit()
}

/// The corners of a sensor.
pub open spec fn corners_of(c: Circle) -> Seq<(i64, i64)> {
    seq![
        ((c.center.0 + c.radius) as i64, c.center.1),
        ((c.center.0 - c.radius) as i64, c.center.1),
        (c.center.0, (c.center.1 + c.radius) as i64),
        (c.center.0, (c.center.1 - c.radius) as i64),
    ]
}

/// The first `k` of the points that lie inside the sensor.
pub open spec fn points_inside(c: Circle, points: Seq<(i64, i64)>, k: nat) -> Seq<(i64, i64)>
    decreases k,
{
    if k == 0 {
        Seq::empty()
    } else if manhattan(c.center, points[k - 1]) < c.radius {
        points_inside(c, points, (k - 1) as nat).push(points[k - 1])
    } else {
        points_inside(c, points, (k - 1) as nat)
    }
}

/// Half of `a`, rounded towards zero.
pub open spec fn half(a: int) -> int {
    if a >= 0 {
        a / 2
    } else {
        -((-a) / 2)
    }
}

/// The rows in which sides of the two sensors may cross: none unless two
/// corners or more of one lie inside the other; else the two rows that
/// follow from the diagonals through the first two such corners, those
/// of `s2` inside `s1` first.
pub open spec fn crossing_rows(s1: Circle, s2: Circle) -> Seq<i64> {
    let inside = points_inside(s1, corners_of(s2), 4) + points_inside(s2, corners_of(s1), 4);
    if inside.len() < 2 {
        Seq::empty()
    } else {
        let one = inside[0];
        let two = inside[1];
        seq![
            half((one.0 + one.1) + (-two.0 + two.1)) as i64,
            half((-one.0 + one.1) + (two.0 + two.1)) as i64,
        ]
    }
}

/// The rows in which sides of sensor `i1` may cross sides of the sensors
/// from `i1` up to `k`.
pub open spec fn rows_with(sensors: Seq<Circle>, i1: int, k: int) -> Seq<i64>
    decreases k - i1,
{
    if k <= i1 {
        Seq::empty()
    } else {
        rows_with(sensors, i1, k - 1) + crossing_rows(sensors[i1], sensors[k - 1])
    }
}

/// The rows in which sides of the first `n` sensors may cross sides of
/// sensors that do not come before them.
pub open spec fn crossing_lines(sensors: Seq<Circle>, n: nat) -> Seq<i64>
    decreases n,
{
    if n == 0 {
        Seq::empty()
    } else {
        crossing_lines(sensors, (n - 1) as nat) + rows_with(sensors, n - 1, sensors.len() as int)
    }
}

fn half_of(a: i64) -> (r: i64)
    requires
        a > i64::MIN,
    ensures
        r == half(a as int),
{
    if a >= 0 {
        a / 2
    } else {
        -((-a) / 2)
    }
}

fn inside_of(c: &Circle, points: &[(i64, i64); 4], out: &mut Vec<(i64, i64)>)
    requires
        small(*c),
        forall|k: int|
            0 <= k < 4 ==> -2 * small_limit() <= (#[trigger] points@[k]).0 <= 2 * small_limit()
                && -2 * small_limit() <= points@[k].1 <= 2 * small_limit(),
    ensures
        final(out)@ == old(out)@ + points_inside(*c, points@, 4),
{
    let ghost before = out@;
    let mut k: usize = 0;
    while k < 4
        invariant
            k <= 4,
            small(*c),
            forall|j: int|
                0 <= j < 4 ==> -2 * small_limit() <= (#[trigger] points@[j]).0 <= 2
                    * small_limit() && -2 * small_limit() <= points@[j].1 <= 2 * small_limit(),
            out@ == before + points_inside(*c, points@, k as nat),
        decreases 4 - k,
    {
        let p = points[k];
        assert(-2 * small_limit() <= points@[k as int].0 <= 2 * small_limit());
        if c.inside(&p) {
            out.push(p);
            proof {
                assert(out@ =~= before + points_inside(*c, points@, (k + 1) as nat));
            }
        }
        k += 1;
    }
}

/// The rows in which sides of two sensors may cross.
pub fn lines_with_intersections(sensors: &[Circle]) -> (r: Vec<i64>)
    requires
        forall|k: int| 0 <= k < sensors@.len() ==> small(#[trigger] sensors@[k]),
    ensures
        r@ == crossing_lines(sensors@, sensors@.len()),
{
    let mut lines: Vec<i64> = Vec::new();
    let mut i1: usize = 0;
    while i1 < sensors.len()
        invariant
            i1 <= sensors@.len(),
            forall|k: int| 0 <= k < sensors@.len() ==> small(#[trigger] sensors@[k]),
            lines@ == crossing_lines(sensors@, i1 as nat),
        decreases sensors.len() - i1,
    {
        let s1 = &sensors[i1];
        let ghost before = lines@;
        let mut i2: usize = i1;
        while i2 < sensors.len()
            invariant
                i1 <= i2 <= sensors@.len(),
                i1 < sensors@.len(),
                *s1 == sensors@[i1 as int],
                forall|k: int| 0 <= k < sensors@.len() ==> small(#[trigger] sensors@[k]),
                lines@ == before + rows_with(sensors@, i1 as int, i2 as int),
            decreases sensors.len() - i2,
        {
            let s2 = &sensors[i2];
            assert(small(sensors@[i1 as int]) && small(sensors@[i2 as int]));
            let c2 = s2.corners();
            let c1 = s1.corners();
            let mut inside_points: Vec<(i64, i64)> = Vec::new();
            inside_of(s1, &c2, &mut inside_points);
            inside_of(s2, &c1, &mut inside_points);
            proof {
                assert(c2@ == corners_of(*s2));
                assert(c1@ == corners_of(*s1));
                lemma_inside_small(*s1, c2@, 4);
                lemma_inside_small(*s2, c1@, 4);
            }
            let ghost so_far = lines@;
            if inside_points.len() >= 2 {
                let one = inside_points[0];
                let d1 = (one.0 + one.1, -one.0 + one.1);
                let two = inside_points[1];
                let d2 = (two.0 + two.1, -two.0 + two.1);
                let y1 = half_of(d1.0 + d2.1);
                let y2 = half_of(d1.1 + d2.0);
                lines.push(y1);
                lines.push(y2);
                proof {
                    assert(lines@ =~= so_far + crossing_rows(*s1, *s2));
                }
            } else {
                proof {
                    assert(lines@ =~= so_far + crossing_rows(*s1, *s2));
                }
            }
            i2 += 1;
        }
        i1 += 1;
    }
    lines
}

/// Points inside a sensor are among the points looked at.
pub proof fn lemma_inside_small(c: Circle, points: Seq<(i64, i64)>, k: nat)
    requires
        k <= points.len(),
        forall|j: int|
            0 <= j < points.len() ==> -2 * small_limit() <= (#[trigger] points[j]).0 <= 2
                * small_limit() && -2 * small_limit() <= points[j].1 <= 2 * small_limit(),
    ensures
        forall|j: int|
            0 <= j < points_inside(c, points, k).len() ==> -2 * small_limit() <= (
            #[trigger] points_inside(c, points, k)[j]).0 <= 2 * small_limit() && -2
                * small_limit() <= points_inside(c, points, k)[j].1 <= 2 * small_limit(),
    decreases k,
{
    if k > 0 {
        lemma_inside_small(c, points, (k - 1) as nat);
        let before = points_inside(c, points, (k - 1) as nat);
        let now = points_inside(c, points, k);
        assert(-2 * small_limit() <= points[k - 1].0 <= 2 * small_limit());
        assert forall|j: int| 0 <= j < now.len() implies -2 * small_limit() <= (#[trigger] now[j]).0
            <= 2 * small_limit() && -2 * small_limit() <= now[j].1 <= 2 * small_limit() by {
            if j < before.len() {
                assert(now[j] == before[j]);
            }
        }
    }
}


/// The place that a free place of a row stands for.
pub open spec fn free_x(sensors: Seq<Circle>, y: int) -> int {
    free_place(row_ranges(sensors, y))->0
}

/// The first free place in the rows from place `k` on that lie between
/// zero and `limit`, as a number: its `x` times 4000000 and its row.
pub open spec fn distress_from(sensors: Seq<Circle>, rows: Seq<i64>, k: int, limit: int) -> Option<
    int,
>
    decreases rows.len() - k,
{
    if k < 0 || k >= rows.len() {
        None
    } else if 0 <= rows[k] <= limit && free_place(row_ranges(sensors, rows[k] as int)) is Some {
        Some(free_x(sensors, rows[k] as int) * 4000000 + rows[k])
    } else {
        distress_from(sensors, rows, k + 1, limit)
    }
}

/// Whether the rows between zero and `limit` in which sides of sensors
/// may cross can be searched: the sensors are small, a stretch of each
/// such row reaches zero, and the number of a free place fits.
pub open spec fn can_seek(sensors: Seq<Circle>, limit: int) -> bool {
    &&& forall|k: int| 0 <= k < sensors.len() ==> small(#[trigger] sensors[k])
    &&& forall|k: int|
        0 <= k < crossing_lines(sensors, sensors.len()).len() && 0 <= (#[trigger] crossing_lines(
            sensors,
            sensors.len(),
        )[k]) <= limit ==> {
            let y = crossing_lines(sensors, sensors.len())[k] as int;
            &&& spans_fit(sensors, y)
            &&& first_reaching(row_ranges(sensors, y), 0) < row_ranges(sensors, y).len()
            &&& free_place(row_ranges(sensors, y)) is Some ==> 0 <= free_x(sensors, y) && free_x(
                sensors,
                y,
            ) * 4000000 + y <= usize::MAX
        }
}

/// The first free place in a row between zero and `limit` in which
/// sides of sensors may cross, as a number.
pub fn find_distress(sensors: &[Circle], limit: i64) -> (r: Option<usize>)
    requires
        can_seek(sensors@, limit as int),
    ensures
        match r {
            Some(v) => distress_from(
                sensors@,
                crossing_lines(sensors@, sensors@.len()),
                0,
                limit as int,
            ) == Some(v as int),
            None => distress_from(
                sensors@,
                crossing_lines(sensors@, sensors@.len()),
                0,
                limit as int,
            ) is None,
        },
{
    let rows = lines_with_intersections(sensors);
    let mut k: usize = 0;
    while k < rows.len()
        invariant
            k <= rows@.len(),
            rows@ == crossing_lines(sensors@, sensors@.len()),
            can_seek(sensors@, limit as int),
            distress_from(sensors@, rows@, 0, limit as int) == distress_from(
                sensors@,
                rows@,
                k as int,
                limit as int,
            ),
        decreases rows.len() - k,
    {
        let y = rows[k];
        if 0 <= y && y <= limit {
            assert(0 <= crossing_lines(sensors@, sensors@.len())[k as int] <= limit);
            match find_empty(sensors, y) {
                Some(x) => {
                    assert(free_x(sensors@, y as int) == x);
                    return Some(x as usize * 4000000 + y as usize);
                },
                None => {},
            }
        }
        k += 1;
    }
    None
}

/// The four numbers of a line: it begins `Sensor at x=`, and `, y=`,
/// `: closest beacon is at x=` and `, y=` stand between them.
pub open spec fn reading_of(line: Seq<u8>) -> Option<Seq<int>> {
    match after_prefix(line, "Sensor at x=".spec_bytes()) {
        Some(rest) => match cut_once(rest, ", y=".spec_bytes()) {
            Some(a) => match cut_once(a.1, ": closest beacon is at x=".spec_bytes()) {
                Some(b) => match cut_once(b.1, ", y=".spec_bytes()) {
                    Some(c) => match (
                        parse_int(a.0, i64::MIN as int, i64::MAX as int),
                        parse_int(b.0, i64::MIN as int, i64::MAX as int),
                        parse_int(c.0, i64::MIN as int, i64::MAX as int),
                        parse_int(c.1, i64::MIN as int, i64::MAX as int),
                    ) {
                        (Some(x), Some(y), Some(rx), Some(ry)) => Some(seq![x, y, rx, ry]),
                        _ => None,
                    },
                    None => None,
                },
                None => None,
            },
            None => None,
        },
        None => None,
    }
}

/// Whether every line holds a reading whose distance from sensor to
/// beacon fits.
pub open spec fn is_report(ls: Seq<Seq<u8>>) -> bool {
    forall|i: int|
        0 <= i < ls.len() ==> (#[trigger] reading_of(ls[i])) is Some && apart(
            reading_of(ls[i])->0[0],
            reading_of(ls[i])->0[2],
        ) + apart(reading_of(ls[i])->0[1], reading_of(ls[i])->0[3]) <= i64::MAX && apart(
            reading_of(ls[i])->0[0],
            reading_of(ls[i])->0[2],
        ) + apart(reading_of(ls[i])->0[1], reading_of(ls[i])->0[3]) <= usize::MAX
}

/// The sensor of a reading: it reaches as far as its beacon is away.
pub open spec fn sensor_of(r: Seq<int>) -> Circle {
    Circle {
        center: (r[0] as i64, r[1] as i64),
        radius: (apart(r[0], r[2]) + apart(r[1], r[3])) as usize,
    }
}

/// The sensors of the lines.
pub open spec fn sensors_of(ls: Seq<Seq<u8>>) -> Seq<Circle> {
    Seq::new(ls.len(), |i: int| sensor_of(reading_of(ls[i])->0))
}

/// The beacons of the lines.
pub open spec fn beacons_of(ls: Seq<Seq<u8>>) -> Seq<(i64, i64)> {
    Seq::new(ls.len(), |i: int| (reading_of(ls[i])->0[2] as i64, reading_of(ls[i])->0[3] as i64))
}

fn parse_reading(line: &[u8]) -> (r: (i64, i64, i64, i64))
    requires
        reading_of(line@) is Some,
    ensures
        reading_of(line@) == Some(seq![r.0 as int, r.1 as int, r.2 as int, r.3 as int]),
{
    let rest = match strip_prefix(line, "Sensor at x=".as_bytes()) {
        Some(v) => v,
        None => Vec::new(),
    };
    let a = match split_once(rest.as_slice(), ", y=".as_bytes()) {
        Some(p) => p,
        None => (Vec::new(), Vec::new()),
    };
    let b = match split_once(a.1.as_slice(), ": closest beacon is at x=".as_bytes()) {
        Some(p) => p,
        None => (Vec::new(), Vec::new()),
    };
    let c = match split_once(b.1.as_slice(), ", y=".as_bytes()) {
        Some(p) => p,
        None => (Vec::new(), Vec::new()),
    };
    let x = match parse_i64(a.0.as_slice()) {
        Some(v) => v,
        None => 0,
    };
    let y = match parse_i64(b.0.as_slice()) {
        Some(v) => v,
        None => 0,
    };
    let rx = match parse_i64(c.0.as_slice()) {
        Some(v) => v,
        None => 0,
    };
    let ry = match parse_i64(c.1.as_slice()) {
        Some(v) => v,
        None => 0,
    };
    (x, y, rx, ry)
}

/// The sensors and the beacons that the text reports.
pub fn parse_input(input: &str) -> (r: (Vec<Circle>, Vec<(i64, i64)>))
    requires
        is_report(lines_of(input.spec_bytes())),
    ensures
        r.0@ == sensors_of(lines_of(input.spec_bytes())),
        r.1@ == beacons_of(lines_of(input.spec_bytes())),
{
    let ls = lines(input.as_bytes());
    let ghost lv = lines_of(input.spec_bytes());
    let mut circles: Vec<Circle> = Vec::new();
    let mut beacons: Vec<(i64, i64)> = Vec::new();
    let mut i: usize = 0;
    while i < ls.len()
        invariant
            i <= ls@.len(),
            lv == views(ls@),
            is_report(lv),
            circles@.len() == i,
            beacons@.len() == i,
            forall|j: int| 0 <= j < i ==> circles@[j] == sensor_of(reading_of(lv[j])->0),
            forall|j: int|
                0 <= j < i ==> beacons@[j] == (
                    reading_of(lv[j])->0[2] as i64,
                    reading_of(lv[j])->0[3] as i64,
                ),
        decreases ls.len() - i,
    {
        assert(ls@[i as int]@ == lv[i as int]);
        assert(reading_of(lv[i as int]) is Some);
        let (x, y, rx, ry) = parse_reading(ls[i].as_slice());
        let dx: i128 = if x >= rx {
            x as i128 - rx as i128
        } else {
            rx as i128 - x as i128
        };
        let dy: i128 = if y >= ry {
            y as i128 - ry as i128
        } else {
            ry as i128 - y as i128
        };
        circles.push(Circle { center: (x, y), radius: (dx + dy) as usize });
        beacons.push((rx, ry));
        i += 1;
    }
    proof {
        assert(circles@ =~= sensors_of(lv));
        assert(beacons@ =~= beacons_of(lv));
    }
    (circles, beacons)
}

/// The beacons among the first `k` that stand in row `y`, each once, in
/// the order in which they come first.
pub open spec fn row_beacons(beacons: Seq<(i64, i64)>, y: int, k: nat) -> Seq<(i64, i64)>
    decreases k,
{
    if k == 0 {
        Seq::empty()
    } else {
        let before = row_beacons(beacons, y, (k - 1) as nat);
        if beacons[k - 1].1 == y && !before.contains(beacons[k - 1]) {
            before.push(beacons[k - 1])
        } else {
            before
        }
    }
}

/// The places of the beacons of row `y`, from left to right, each once.
pub open spec fn beacons_on(beacons: Seq<(i64, i64)>, y: int) -> Seq<i64> {
    let row = row_beacons(beacons, y, beacons.len());
    Seq::new(row.len(), |i: int| stable_sorted(row, row.len())[i].0)
}

/// The places of the beacons of row `y`, from left to right, each once.
pub fn beacons_at(beacons: &Vec<(i64, i64)>, y: i64) -> (r: Vec<i64>)
    ensures
        r@ == beacons_on(beacons@, y as int),
{
    let mut row: Vec<(i64, i64)> = Vec::new();
    let mut k: usize = 0;
    while k < beacons.len()
        invariant
            k <= beacons@.len(),
            row@ == row_beacons(beacons@, y as int, k as nat),
        decreases beacons.len() - k,
    {
        let b = beacons[k];
        if b.1 == y {
            let mut seen = false;
            let mut j: usize = 0;
            while j < row.len() && !seen
                invariant
                    j <= row@.len(),
                    seen ==> row@.contains(b),
                    !seen ==> forall|q: int| 0 <= q < j ==> row@[q] != b,
                decreases row.len() - j + if seen { 0int } else { 1int },
            {
                if row[j].0 == b.0 && row[j].1 == b.1 {
                    assert(row@[j as int] == b);
                    seen = true;
                } else {
                    j += 1;
                }
            }
            if !seen {
                row.push(b);
            }
        }
        k += 1;
    }
    let sorted = sorted_by_first(row.as_slice());
    proof {
        lemma_stable_sorted_len(row@, row@.len());
    }
    let mut out: Vec<i64> = Vec::new();
    let mut i: usize = 0;
    while i < sorted.len()
        invariant
            i <= sorted@.len(),
            out@.len() == i,
            forall|j: int| 0 <= j < i ==> out@[j] == sorted@[j].0,
        decreases sorted.len() - i,
    {
        out.push(sorted[i].0);
        i += 1;
    }
    proof {
        assert(out@ =~= beacons_on(beacons@, y as int));
    }
    out
}

/// Whether the places of row 2000000 where no beacon can be can be
/// counted.
pub open spec fn can_count(ls: Seq<Seq<u8>>) -> bool {
    &&& is_report(ls)
    &&& spans_fit(sensors_of(ls), 2000000)
    &&& spans(sensors_of(ls), 2000000, ls.len()).len() > 0
    &&& beacon_free(row_ranges(sensors_of(ls), 2000000), beacons_on(beacons_of(ls), 2000000))
        <= i64::MAX
    &&& beacon_free(row_ranges(sensors_of(ls), 2000000), beacons_on(beacons_of(ls), 2000000))
        <= usize::MAX
}

/// The number of places of row 2000000 where no beacon can be.
pub fn day15_1(input: &str) -> (r: usize)
    requires
        can_count(lines_of(input.spec_bytes())),
    ensures
        r == beacon_free(
            row_ranges(sensors_of(lines_of(input.spec_bytes())), 2000000),
            beacons_on(beacons_of(lines_of(input.spec_bytes())), 2000000),
        ),
{
    let line: i64 = 2000000;
    let (sensors, beacons) = parse_input(input);
    let on_line = beacons_at(&beacons, line);
    count_beacont_at(sensors.as_slice(), on_line.as_slice(), line)
}

/// The number of the place between 0 and 4000000 where the beacon in
/// distress can be.
pub fn day15_2(input: &str) -> (r: usize)
    requires
        is_report(lines_of(input.spec_bytes())),
        can_seek(sensors_of(lines_of(input.spec_bytes())), 4000000),
        distress_from(
            sensors_of(lines_of(input.spec_bytes())),
            crossing_lines(
                sensors_of(lines_of(input.spec_bytes())),
                lines_of(input.spec_bytes()).len(),
            ),
            0,
            4000000,
        ) is Some,
    ensures
        Some(r as int) == distress_from(
            sensors_of(lines_of(input.spec_bytes())),
            crossing_lines(
                sensors_of(lines_of(input.spec_bytes())),
                lines_of(input.spec_bytes()).len(),
            ),
            0,
            4000000,
        ),
{
    let limit: i64 = 4000000;
    let (sensors, _) = parse_input(input);
    match find_distress(sensors.as_slice(), limit) {
        Some(v) => v,
        None => 0,
    }
}

} // verus!
