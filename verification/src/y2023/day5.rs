//! Charts that lead from seeds to locations: numbers and ranges of
//! numbers are taken through them, one after the other.

use crate::iters::pairs;
use crate::text::{gap_end, matches_at, occurs_at, read_unsigned, skip_gap, unsigned_at};
use std::ops::Range;
use vstd::prelude::*;
use vstd::string::*;

verus! {

/// The text was no almanac.
#[derive(Debug, PartialEq, Eq)]
pub struct ParseError;

/// What a number of the almanac stands for.
#[derive(Debug, Clone, Copy, PartialEq, Eq, Structural)]
pub enum Category {
    Seed,
    Soil,
    Fertilizer,
    Water,
    Light,
    Temperature,
    Humidity,
    Location,
}

/// A stretch of numbers and where it is taken: `source_start` goes to
/// `destination_start`, and so on for `range_length` numbers.
#[derive(Debug, Clone, Copy, PartialEq, Eq, Structural)]
pub struct MapRange {
    pub source_start: u64,
    pub destination_start: u64,
    pub range_length: u64,
}

impl MapRange {
    /// Neither the stretch nor what it is taken to goes beyond 64 bits.
    pub open spec fn fits(&self) -> bool {
        &&& self.source_start + self.range_length <= u64::MAX
        &&& self.destination_start + self.range_length <= u64::MAX
    }

    /// Whether `id` lies in the stretch.
    pub open spec fn holds(&self, id: int) -> bool {
        self.source_start <= id < self.source_start + self.range_length
    }

    /// Where the stretch ends.
    pub open spec fn source_end(&self) -> int {
        self.source_start + self.range_length
    }

    /// Where `id` is taken, if it lies in the stretch.
    pub fn convert(&self, id: u64) -> (r: Option<u64>)
        requires
            self.fits(),
        ensures
            r == if self.holds(id as int) {
                Some((id - self.source_start + self.destination_start) as u64)
            } else {
                None
            },
    {
        if self.source_start <= id && id < self.source_start + self.range_length {
            Some(id - self.source_start + self.destination_start)
        } else {
            None
        }
    }
}

/// Where `id` is taken by the first of the stretches from place `k` on
/// that holds it; `id` itself where none does.
pub open spec fn taken(ranges: Seq<MapRange>, k: int, id: int) -> int
    decreases ranges.len() - k,
{
    if k < 0 || k >= ranges.len() {
        id
    } else if ranges[k].holds(id) {
        id - ranges[k].source_start + ranges[k].destination_start
    } else {
        taken(ranges, k + 1, id)
    }
}

/// A chart from one category to another.
#[derive(Debug)]
pub struct CategoryMap {
    pub source_category: Category,
    pub destination_category: Category,
    pub ranges: Vec<MapRange>,
}

/// The stretch from `a` up to `b`, unless it is empty.
pub open spec fn kept(a: int, b: int) -> Seq<(int, int)> {
    if b > a {
        seq![(a, b)]
    } else {
        Seq::empty()
    }
}

/// The first place from `k` on whose stretch ends behind `lo`.
pub open spec fn first_behind(ranges: Seq<MapRange>, k: int, lo: int) -> int
    decreases ranges.len() - k,
{
    if k < 0 || k >= ranges.len() || ranges[k].source_end() > lo {
        k
    } else {
        first_behind(ranges, k + 1, lo)
    }
}

/// The stretches to which the numbers from `lo` up to `hi` are taken by
/// the stretches from place `k` on, which lie in rising order: what lies
/// before a stretch stays, what lies in it is taken along, and what lies
/// behind it is left for the next.
pub open spec fn pieces(ranges: Seq<MapRange>, k: int, lo: int, hi: int) -> Seq<(int, int)>
    decreases ranges.len() - k,
{
    if k < 0 || k >= ranges.len() || hi < ranges[k].source_start {
        kept(lo, hi)
    } else {
        let m = ranges[k];
        let from = if m.source_start < lo {
            lo
        } else {
            m.source_start as int
        };
        let before = if m.source_start < lo {
            Seq::empty()
        } else {
            kept(lo, m.source_start as int)
        };
        if hi <= m.source_end() {
            before + kept(
                from - m.source_start + m.destination_start,
                hi - m.source_start + m.destination_start,
            )
        } else {
            before + kept(
                from - m.source_start + m.destination_start,
                m.destination_start + m.range_length,
            ) + pieces(ranges, k + 1, m.source_end(), hi)
        }
    }
}

/// The stretches that the ranges stand for.
pub open spec fn spans(v: Seq<Range<u64>>) -> Seq<(int, int)> {
    Seq::new(v.len(), |i: int| (v[i].start as int, v[i].end as int))
}

/// Every stretch has a number in it.
pub open spec fn none_empty(v: Seq<(int, int)>) -> bool {
    forall|i: int| 0 <= i < v.len() ==> (#[trigger] v[i]).0 < v[i].1
}

fn push_to_res(res: &mut Vec<Range<u64>>, start: u64, end: u64)
    requires
        none_empty(spans(old(res)@)),
    ensures
        spans(final(res)@) == spans(old(res)@) + kept(start as int, end as int),
        none_empty(spans(final(res)@)),
{
    if end > start {
        res.push(Range { start, end });
        proof {
            assert(spans(res@) =~= spans(old(res)@) + kept(start as int, end as int));
        }
    } else {
        proof {
            assert(spans(res@) =~= spans(old(res)@) + kept(start as int, end as int));
        }
    }
}

impl CategoryMap {
    /// No stretch goes beyond 64 bits.
    pub open spec fn fits(&self) -> bool {
        forall|k: int| 0 <= k < self.ranges@.len() ==> (#[trigger] self.ranges@[k]).fits()
    }

    /// No stretch goes beyond 64 bits, and each ends before the next
    /// begins.
    pub open spec fn tidy(&self) -> bool {
        &&& self.fits()
        &&& forall|k: int, j: int|
            0 <= k < j < self.ranges@.len() ==> (#[trigger] self.ranges@[k]).source_end() <= (
            #[trigger] self.ranges@[j]).source_start
    }

    /// Where the chart takes `id`.
    pub fn convert(&self, id: u64) -> (r: u64)
        requires
            self.fits(),
        ensures
            r == taken(self.ranges@, 0, id as int),
    {
        let mut k: usize = 0;
        while k < self.ranges.len()
            invariant
                k <= self.ranges@.len(),
                self.fits(),
                taken(self.ranges@, 0, id as int) == taken(self.ranges@, k as int, id as int),
            decreases self.ranges.len() - k,
        {
            match self.ranges[k].convert(id) {
                Some(convertion) => {
                    return convertion;
                },
                None => {},
            }
            k += 1;
        }
        id
    }

    /// The stretches to which the chart takes the numbers of `range`.
    pub fn convert_range(&self, range: Range<u64>) -> (r: Vec<Range<u64>>)
        requires
            self.tidy(),
            range.start <= range.end,
        ensures
            spans(r@) == pieces(
                self.ranges@,
                first_behind(self.ranges@, 0, range.start as int),
                range.start as int,
                range.end as int,
            ),
            none_empty(spans(r@)),
    {
        let ghost all = self.ranges@;
        let ghost lo0 = range.start as int;
        let ghost hi = range.end as int;
        let mut range = range;
        let mut res: Vec<Range<u64>> = Vec::new();
        let mut init: usize = 0;
        while init < self.ranges.len() && self.ranges[init].source_start
            + self.ranges[init].range_length <= range.start
            invariant
                init <= all.len(),
                all == self.ranges@,
                self.tidy(),
                range.start == lo0,
                first_behind(all, 0, lo0) == first_behind(all, init as int, lo0),
            decreases self.ranges.len() - init,
        {
            init += 1;
        }
        let ghost want = pieces(all, init as int, lo0, hi);
        proof {
            assert(spans(res@) =~= Seq::<(int, int)>::empty());
        }
        let mut k: usize = init;
        let mut done = false;
        while k < self.ranges.len() && !done
            invariant
                init <= k <= all.len(),
                all == self.ranges@,
                self.tidy(),
                range.end == hi,
                lo0 <= range.start <= range.end,
                k > init ==> all[k - 1].source_end() == range.start,
                k == init ==> range.start == lo0,
                init < all.len() ==> all[init as int].source_end() > lo0,
                !done ==> want == spans(res@) + pieces(all, k as int, range.start as int, hi),
                done ==> want == spans(res@),
                none_empty(spans(res@)),
            decreases self.ranges.len() - k + if done { 0int } else { 1int },
        {
            let range_map = self.ranges[k];
            let ghost so_far = spans(res@);
            let ghost lo = range.start as int;
            proof {
                assert(all[k as int].fits());
                if k > init {
                    assert(all[k - 1].source_end() <= all[k as int].source_start);
                } else {
                    assert(all[init as int].source_end() > lo0);
                }
            }
            if range.end < range_map.source_start {
                push_to_res(&mut res, range.start, range.end);
                done = true;
            } else {
                let source_end = range_map.source_start + range_map.range_length;
                let destination_end = range_map.destination_start + range_map.range_length;
                if range_map.source_start >= range.start {
                    push_to_res(&mut res, range.start, range_map.source_start);
                    if range.end <= source_end {
                        let mapped_range_length = range.end - range_map.source_start;
                        let destination_end = range_map.destination_start + mapped_range_length;
                        push_to_res(&mut res, range_map.destination_start, destination_end);
                        done = true;
                    } else {
                        push_to_res(&mut res, range_map.destination_start, destination_end);
                        range.start = source_end;
                        k += 1;
                    }
                } else {
                    if range.end <= source_end {
                        let destination_start = range_map.destination_start + (range.start
                            - range_map.source_start);
                        let destination_end = destination_start + (range.end - range.start);
                        push_to_res(&mut res, destination_start, destination_end);
                        done = true;
                    } else {
                        let mapped_range_length = source_end - range.start;
                        let destination_start = destination_end - mapped_range_length;
                        push_to_res(&mut res, destination_start, destination_end);
                        range.start = source_end;
                        k += 1;
                    }
                }
            }
        }
        if !done {
            push_to_res(&mut res, range.start, range.end);
        }
        res
    }
}


/// Whether each stretch ends before the next begins.
pub open spec fn in_rising_order(ranges: Seq<MapRange>) -> bool {
    forall|k: int, j: int|
        0 <= k < j < ranges.len() ==> (#[trigger] ranges[k]).source_end() <= (
        #[trigger] ranges[j]).source_start
}

/// Whether `v` lies in one of the stretches.
pub open spec fn in_pieces(p: Seq<(int, int)>, v: int) -> bool {
    exists|j: int| 0 <= j < p.len() && (#[trigger] p[j]).0 <= v < p[j].1
}

/// A number lies in one of two lists of stretches if it lies in either.
pub proof fn lemma_in_both(a: Seq<(int, int)>, b: Seq<(int, int)>, v: int)
    ensures
        in_pieces(a + b, v) == (in_pieces(a, v) || in_pieces(b, v)),
{
    let c = a + b;
    if in_pieces(a, v) {
        let j = choose|j: int| 0 <= j < a.len() && (#[trigger] a[j]).0 <= v < a[j].1;
        assert(c[j] == a[j]);
    }
    if in_pieces(b, v) {
        let j = choose|j: int| 0 <= j < b.len() && (#[trigger] b[j]).0 <= v < b[j].1;
        assert(c[a.len() + j] == b[j]);
    }
    if in_pieces(c, v) {
        let j = choose|j: int| 0 <= j < c.len() && (#[trigger] c[j]).0 <= v < c[j].1;
        if j < a.len() {
            assert(a[j] == c[j]);
        } else {
            assert(b[j - a.len()] == c[j]);
        }
    }
}

/// A number lies in the stretch from `a` up to `b`, as it is kept, if it
/// lies between them.
pub proof fn lemma_in_kept(a: int, b: int, v: int)
    ensures
        in_pieces(kept(a, b), v) == (a <= v < b),
{
    if a <= v < b {
        assert(kept(a, b)[0] == (a, b));
    }
}

/// A number that no stretch before place `k` holds is taken where the
/// stretches from `k` on take it.
pub proof fn lemma_taken_skips(ranges: Seq<MapRange>, from: int, k: int, id: int)
    requires
        0 <= from <= k <= ranges.len(),
        forall|j: int| from <= j < k ==> !(#[trigger] ranges[j]).holds(id),
    ensures
        taken(ranges, from, id) == taken(ranges, k, id),
    decreases k - from,
{
    if from < k {
        lemma_taken_skips(ranges, from + 1, k, id);
    }
}

/// A number that lies before the stretch at place `k` stays what it is.
pub proof fn lemma_taken_before(ranges: Seq<MapRange>, k: int, id: int)
    requires
        in_rising_order(ranges),
        0 <= k <= ranges.len(),
        k < ranges.len() ==> id < ranges[k].source_start,
    ensures
        taken(ranges, k, id) == id,
    decreases ranges.len() - k,
{
    if k < ranges.len() {
        if k + 1 < ranges.len() {
            assert(ranges[k].source_end() <= ranges[k + 1].source_start);
        }
        lemma_taken_before(ranges, k + 1, id);
    }
}

/// The stretches from place `k` on take the numbers from `lo` up to `hi`
/// exactly to the numbers of `pieces`, if the stretch at `k` does not
/// end at or before `lo` after beginning before it.
pub proof fn lemma_pieces(ranges: Seq<MapRange>, k: int, lo: int, hi: int)
    requires
        in_rising_order(ranges),
        0 <= k <= ranges.len(),
        lo <= hi,
        k < ranges.len() ==> ranges[k].source_start >= lo || ranges[k].source_end() > lo,
    ensures
        forall|id: int|
            lo <= id < hi ==> in_pieces(pieces(ranges, k, lo, hi), #[trigger] taken(ranges, k, id)),
        forall|v: int| #[trigger]
            in_pieces(pieces(ranges, k, lo, hi), v) ==> exists|id: int|
                lo <= id < hi && #[trigger] taken(ranges, k, id) == v,
    decreases ranges.len() - k,
{
    let p = pieces(ranges, k, lo, hi);
    if k >= ranges.len() || hi < ranges[k].source_start {
        assert forall|id: int| lo <= id < hi implies in_pieces(p, #[trigger] taken(ranges, k, id)) by {
            lemma_taken_before(ranges, k, id);
            lemma_in_kept(lo, hi, id);
        }
        assert forall|v: int| #[trigger] in_pieces(p, v) implies exists|id: int|
            lo <= id < hi && #[trigger] taken(ranges, k, id) == v by {
            lemma_in_kept(lo, hi, v);
            lemma_taken_before(ranges, k, v);
            assert(lo <= v < hi && taken(ranges, k, v) == v);
        }
    } else {
        let m = ranges[k];
        let src = m.source_start as int;
        let dst = m.destination_start as int;
        let se = m.source_end();
        let from = if src < lo {
            lo
        } else {
            src
        };
        let before = if src < lo {
            Seq::<(int, int)>::empty()
        } else {
            kept(lo, src)
        };
        let to = if hi <= se {
            hi
        } else {
            se
        };
        let mapped = kept(from - src + dst, to - src + dst);
        let rest = if hi <= se {
            Seq::<(int, int)>::empty()
        } else {
            pieces(ranges, k + 1, se, hi)
        };
        assert(p =~= before + mapped + rest);
        if hi > se {
            if k + 1 < ranges.len() {
                assert(ranges[k].source_end() <= ranges[k + 1].source_start);
            }
            lemma_pieces(ranges, k + 1, se, hi);
        }
        assert forall|id: int| lo <= id < hi implies in_pieces(p, #[trigger] taken(ranges, k, id)) by {
            let t = taken(ranges, k, id);
            lemma_in_both(before + mapped, rest, t);
            lemma_in_both(before, mapped, t);
            if id < src {
                if k + 1 < ranges.len() {
                    assert(ranges[k].source_end() <= ranges[k + 1].source_start);
                }
                lemma_taken_before(ranges, k + 1, id);
                lemma_in_kept(lo, src, id);
            } else if id < se {
                lemma_in_kept(from - src + dst, to - src + dst, t);
            } else {
                assert(taken(ranges, k, id) == taken(ranges, k + 1, id));
            }
        }
        assert forall|v: int| #[trigger] in_pieces(p, v) implies exists|id: int|
            lo <= id < hi && #[trigger] taken(ranges, k, id) == v by {
            lemma_in_both(before + mapped, rest, v);
            lemma_in_both(before, mapped, v);
            if in_pieces(before, v) {
                lemma_in_kept(lo, src, v);
                if k + 1 < ranges.len() {
                    assert(ranges[k].source_end() <= ranges[k + 1].source_start);
                }
                lemma_taken_before(ranges, k + 1, v);
                assert(lo <= v < hi && taken(ranges, k, v) == v);
            } else if in_pieces(mapped, v) {
                lemma_in_kept(from - src + dst, to - src + dst, v);
                let id = v - dst + src;
                assert(lo <= id < hi && taken(ranges, k, id) == v);
            } else {
                let id = choose|id: int| se <= id < hi && #[trigger] taken(ranges, k + 1, id) == v;
                assert(taken(ranges, k, id) == taken(ranges, k + 1, id));
                assert(lo <= id < hi && taken(ranges, k, id) == v);
            }
        }
    }
}

/// Every stretch before the first that ends behind `lo` ends at or
/// before `lo`.
pub proof fn lemma_first_behind(ranges: Seq<MapRange>, k: int, lo: int)
    requires
        0 <= k <= ranges.len(),
    ensures
        k <= first_behind(ranges, k, lo) <= ranges.len(),
        forall|j: int| k <= j < first_behind(ranges, k, lo) ==> (#[trigger] ranges[j]).source_end() <= lo,
        first_behind(ranges, k, lo) < ranges.len() ==> ranges[first_behind(ranges, k, lo)].source_end()
            > lo,
    decreases ranges.len() - k,
{
    if k < ranges.len() && ranges[k].source_end() <= lo {
        lemma_first_behind(ranges, k + 1, lo);
    }
}

/// The stretches that a chart in rising order makes of the numbers from
/// `lo` up to `hi` hold exactly the numbers to which the chart takes
/// these: every such number lies in one of them, and every number of
/// theirs is one to which the chart takes a number from `lo` up to `hi`.
pub proof fn lemma_range_image(ranges: Seq<MapRange>, lo: int, hi: int)
    requires
        in_rising_order(ranges),
        lo <= hi,
    ensures
        forall|id: int|
            lo <= id < hi ==> in_pieces(
                pieces(ranges, first_behind(ranges, 0, lo), lo, hi),
                #[trigger] taken(ranges, 0, id),
            ),
        forall|v: int| #[trigger]
            in_pieces(pieces(ranges, first_behind(ranges, 0, lo), lo, hi), v) ==> exists|id: int|
                lo <= id < hi && #[trigger] taken(ranges, 0, id) == v,
{
    let k = first_behind(ranges, 0, lo);
    lemma_first_behind(ranges, 0, lo);
    lemma_pieces(ranges, k, lo, hi);
    assert forall|id: int| lo <= id implies #[trigger] taken(ranges, 0, id) == taken(ranges, k, id) by {
        assert forall|j: int| 0 <= j < k implies !(#[trigger] ranges[j]).holds(id) by {
            assert(ranges[j].source_end() <= lo);
        }
        lemma_taken_skips(ranges, 0, k, id);
    }
    assert forall|v: int| #[trigger]
        in_pieces(pieces(ranges, k, lo, hi), v) implies exists|id: int|
        lo <= id < hi && #[trigger] taken(ranges, 0, id) == v by {
        let id = choose|id: int| lo <= id < hi && #[trigger] taken(ranges, k, id) == v;
        assert(taken(ranges, 0, id) == taken(ranges, k, id));
    }
}

/// The category with the number `k` in the order in which their names
/// are tried.
pub open spec fn category_at(k: int) -> Category {
    if k == 0 {
        Category::Seed
    } else if k == 1 {
        Category::Soil
    } else if k == 2 {
        Category::Fertilizer
    } else if k == 3 {
        Category::Water
    } else if k == 4 {
        Category::Light
    } else if k == 5 {
        Category::Temperature
    } else if k == 6 {
        Category::Humidity
    } else {
        Category::Location
    }
}

/// The name of the category with the number `k`.
pub open spec fn name_at(k: int) -> Seq<u8> {
    if k == 0 {
        "seed".spec_bytes()
    } else if k == 1 {
        "soil".spec_bytes()
    } else if k == 2 {
        "fertilizer".spec_bytes()
    } else if k == 3 {
        "water".spec_bytes()
    } else if k == 4 {
        "light".spec_bytes()
    } else if k == 5 {
        "temperature".spec_bytes()
    } else if k == 6 {
        "humidity".spec_bytes()
    } else {
        "location".spec_bytes()
    }
}

/// The first category, from the number `k` on, whose name stands in `s`
/// at `i`, with the index behind the name.
pub open spec fn named_at(s: Seq<u8>, i: int, k: int) -> Option<(Category, int)>
    decreases 8 - k,
{
    if k < 0 || k >= 8 {
        None
    } else if name_at(k).len() > 0 && matches_at(s, name_at(k), i) {
        Some((category_at(k), i + name_at(k).len()))
    } else {
        named_at(s, i, k + 1)
    }
}

fn name(k: usize) -> (r: &'static [u8])
    ensures
        r@ == name_at(k as int),
{
    if k == 0 {
        "seed".as_bytes()
    } else if k == 1 {
        "soil".as_bytes()
    } else if k == 2 {
        "fertilizer".as_bytes()
    } else if k == 3 {
        "water".as_bytes()
    } else if k == 4 {
        "light".as_bytes()
    } else if k == 5 {
        "temperature".as_bytes()
    } else if k == 6 {
        "humidity".as_bytes()
    } else {
        "location".as_bytes()
    }
}

fn category(k: usize) -> (r: Category)
    ensures
        r == category_at(k as int),
{
    if k == 0 {
        Category::Seed
    } else if k == 1 {
        Category::Soil
    } else if k == 2 {
        Category::Fertilizer
    } else if k == 3 {
        Category::Water
    } else if k == 4 {
        Category::Light
    } else if k == 5 {
        Category::Temperature
    } else if k == 6 {
        Category::Humidity
    } else {
        Category::Location
    }
}

impl Category {
    /// The category whose name stands in `input` at `i`, with the index
    /// behind the name.
    pub fn parse(input: &[u8], i: usize) -> (r: Option<(Self, usize)>)
        requires
            i <= input@.len(),
        ensures
            match r {
                Some(p) => named_at(input@, i as int, 0) == Some((p.0, p.1 as int)) && i < p.1
                    <= input@.len(),
                None => named_at(input@, i as int, 0) is None,
            },
    {
        let mut k: usize = 0;
        while k < 8
            invariant
                k <= 8,
                i <= input@.len(),
                named_at(input@, i as int, 0) == named_at(input@, i as int, k as int),
            decreases 8 - k,
        {
            let word = name(k);
            let total: usize = input.len();
            if word.len() > 0 && occurs_at(input, word, i) {
                assert(i + word@.len() <= total);
                return Some((category(k), i + word.len()));
            }
            k += 1;
        }
        None
    }
}


/// The number that stands in `s` at `i` after a gap, with the index
/// behind it.
pub open spec fn seed_at(s: Seq<u8>, i: int) -> Option<(int, int)> {
    unsigned_at(s, gap_end(s, i), u64::MAX as int)
}

/// The numbers that follow at `i`, each after a blank and a gap, with
/// the index behind the last.
pub open spec fn more_seeds(s: Seq<u8>, i: int) -> (Seq<u64>, int)
    decreases s.len() - i,
{
    if 0 <= i < s.len() && s[i] == 32 && seed_at(s, i + 1) is Some {
        let p = seed_at(s, i + 1)->0;
        if i < p.1 <= s.len() {
            let rest = more_seeds(s, p.1);
            (seq![p.0 as u64] + rest.0, rest.1)
        } else {
            (Seq::empty(), i)
        }
    } else {
        (Seq::empty(), i)
    }
}

/// The list of seeds with which the text begins: after a gap the word
/// `seeds:`, then one number or more, with the index behind the last.
pub open spec fn seeds_of(s: Seq<u8>) -> Option<(Seq<u64>, int)> {
    let j = gap_end(s, 0);
    if matches_at(s, "seeds:".spec_bytes(), j) {
        match seed_at(s, j + "seeds:".spec_bytes().len()) {
            Some(p) => {
                let rest = more_seeds(s, p.1);
                Some((seq![p.0 as u64] + rest.0, rest.1))
            },
            None => None,
        }
    } else {
        None
    }
}

fn parse_seed(input: &[u8], i: usize) -> (r: Option<(u64, usize)>)
    requires
        i <= input@.len(),
    ensures
        match r {
            Some(p) => seed_at(input@, i as int) == Some((p.0 as int, p.1 as int)) && i < p.1
                <= input@.len(),
            None => seed_at(input@, i as int) is None,
        },
{
    let j = skip_gap(input, i);
    read_unsigned(input, j, u64::MAX)
}

/// The list of seeds with which the text begins, with the index behind
/// it.
pub fn parse_seed_list(input: &[u8]) -> (r: Option<(Vec<u64>, usize)>)
    ensures
        match r {
            Some(p) => seeds_of(input@) == Some((p.0@, p.1 as int)) && p.1 <= input@.len()
                && p.0@.len() > 0,
            None => seeds_of(input@) is None,
        },
{
    let j = skip_gap(input, 0);
    let tag = "seeds:".as_bytes();
    if !occurs_at(input, tag, j) {
        return None;
    }
    let total: usize = input.len();
    assert(j + tag@.len() <= total);
    let first = match parse_seed(input, j + tag.len()) {
        Some(p) => p,
        None => {
            return None;
        },
    };
    let mut seeds: Vec<u64> = Vec::new();
    seeds.push(first.0);
    let mut i: usize = first.1;
    let mut more = true;
    let ghost all = seeds_of(input@)->0;
    proof {
        assert(seeds@ =~= seq![first.0]);
    }
    while more
        invariant
            i <= input@.len(),
            seeds@.len() > 0,
            all.0 =~= seeds@ + more_seeds(input@, i as int).0,
            all.1 == more_seeds(input@, i as int).1,
            !more ==> more_seeds(input@, i as int) == (Seq::<u64>::empty(), i as int),
        decreases input@.len() - i + if more { 1int } else { 0int },
    {
        if i < input.len() && input[i] == 32 {
            match parse_seed(input, i + 1) {
                Some(p) => {
                    seeds.push(p.0);
                    i = p.1;
                },
                None => {
                    more = false;
                },
            }
        } else {
            more = false;
        }
    }
    Some((seeds, i))
}

/// The stretch that stands in `s` at `i`: three numbers with a blank
/// between them, first where it is taken, then where it begins, then its
/// length; with the index behind it.
pub open spec fn range_at(s: Seq<u8>, i: int) -> Option<(MapRange, int)> {
    match unsigned_at(s, i, u64::MAX as int) {
        Some(a) => if a.1 < s.len() && s[a.1] == 32 {
            match unsigned_at(s, a.1 + 1, u64::MAX as int) {
                Some(b) => if b.1 < s.len() && s[b.1] == 32 {
                    match unsigned_at(s, b.1 + 1, u64::MAX as int) {
                        Some(c) => Some(
                            (
                                MapRange {
                                    source_start: b.0 as u64,
                                    destination_start: a.0 as u64,
                                    range_length: c.0 as u64,
                                },
                                c.1,
                            ),
                        ),
                        None => None,
                    }
                } else {
                    None
                },
                None => None,
            }
        } else {
            None
        },
        None => None,
    }
}

impl MapRange {
    /// The stretch that stands in `input` at `i`, with the index behind
    /// it.
    pub fn parse(input: &[u8], i: usize) -> (r: Option<(MapRange, usize)>)
        requires
            i <= input@.len(),
        ensures
            match r {
                Some(p) => range_at(input@, i as int) == Some((p.0, p.1 as int)) && i < p.1
                    <= input@.len(),
                None => range_at(input@, i as int) is None,
            },
    {
        let (destination_start, i1) = match read_unsigned(input, i, u64::MAX) {
            Some(p) => p,
            None => {
                return None;
            },
        };
        if !(i1 < input.len() && input[i1] == 32) {
            return None;
        }
        let (source_start, i2) = match read_unsigned(input, i1 + 1, u64::MAX) {
            Some(p) => p,
            None => {
                return None;
            },
        };
        if !(i2 < input.len() && input[i2] == 32) {
            return None;
        }
        let (range_length, i3) = match read_unsigned(input, i2 + 1, u64::MAX) {
            Some(p) => p,
            None => {
                return None;
            },
        };
        Some((MapRange { destination_start, source_start, range_length }, i3))
    }
}

/// The stretches that follow at `i`, each after a line feed, with the
/// index behind the last.
pub open spec fn more_ranges(s: Seq<u8>, i: int) -> (Seq<MapRange>, int)
    decreases s.len() - i,
{
    if 0 <= i < s.len() && s[i] == 10 && range_at(s, i + 1) is Some {
        let p = range_at(s, i + 1)->0;
        if i < p.1 <= s.len() {
            let rest = more_ranges(s, p.1);
            (seq![p.0] + rest.0, rest.1)
        } else {
            (Seq::empty(), i)
        }
    } else {
        (Seq::empty(), i)
    }
}

/// The place of `r` among the stretches `sorted`: behind the last that
/// does not begin behind it.
pub open spec fn slot(sorted: Seq<MapRange>, r: MapRange) -> int
    decreases sorted.len(),
{
    if sorted.len() == 0 || sorted.last().source_start <= r.source_start {
        sorted.len() as int
    } else {
        slot(sorted.drop_last(), r)
    }
}

/// The first `k` of the stretches, in the order of their beginnings;
/// where two begin at the same number, the one that came first stays
/// first.
pub open spec fn in_order(ranges: Seq<MapRange>, k: nat) -> Seq<MapRange>
    decreases k,
{
    if k == 0 {
        Seq::empty()
    } else {
        let before = in_order(ranges, (k - 1) as nat);
        before.insert(slot(before, ranges[k - 1]), ranges[k - 1])
    }
}

/// A place among `sorted` is one of its indices or its length.
pub proof fn lemma_slot(sorted: Seq<MapRange>, r: MapRange)
    ensures
        0 <= slot(sorted, r) <= sorted.len(),
    decreases sorted.len(),
{
    if !(sorted.len() == 0 || sorted.last().source_start <= r.source_start) {
        lemma_slot(sorted.drop_last(), r);
    }
}

/// As many stretches are in order as were put in order.
pub proof fn lemma_in_order_len(ranges: Seq<MapRange>, k: nat)
    ensures
        in_order(ranges, k).len() == k,
    decreases k,
{
    if k > 0 {
        lemma_in_order_len(ranges, (k - 1) as nat);
        lemma_slot(in_order(ranges, (k - 1) as nat), ranges[k - 1]);
    }
}

/// The stretches in the order of their beginnings.
pub fn sort_by_start(ranges: &Vec<MapRange>) -> (r: Vec<MapRange>)
    ensures
        r@ == in_order(ranges@, ranges@.len()),
{
    let mut out: Vec<MapRange> = Vec::new();
    let mut k: usize = 0;
    while k < ranges.len()
        invariant
            k <= ranges@.len(),
            out@ == in_order(ranges@, k as nat),
            out@.len() == k,
        decreases ranges.len() - k,
    {
        let r = ranges[k];
        let mut j: usize = out.len();
        proof {
            assert(out@.subrange(0, j as int) =~= out@);
        }
        while j > 0 && out[j - 1].source_start > r.source_start
            invariant
                j <= out@.len(),
                slot(out@, r) == slot(out@.subrange(0, j as int), r),
            decreases j,
        {
            proof {
                assert(out@.subrange(0, j as int).drop_last() =~= out@.subrange(0, j - 1));
            }
            j -= 1;
        }
        proof {
            assert(out@.subrange(0, out@.len() as int) =~= out@);
            if j > 0 {
                assert(out@.subrange(0, j as int).last() == out@[j - 1]);
            }
            lemma_in_order_len(ranges@, (k + 1) as nat);
        }
        out.insert(j, r);
        k += 1;
    }
    out
}

/// A chart as a value of mathematics.
pub struct Chart {
    pub source: Category,
    pub destination: Category,
    pub ranges: Seq<MapRange>,
}

impl CategoryMap {
    /// The chart that the map holds.
    pub open spec fn view(&self) -> Chart {
        Chart {
            source: self.source_category,
            destination: self.destination_category,
            ranges: self.ranges@,
        }
    }
}

/// The chart that stands in `s` at `i`: after a gap the names of two
/// categories with `-to-` between them, ` map:` and a line feed, then
/// one stretch or more, a line each; with the index behind the last. The
/// stretches of the chart are in the order of their beginnings.
pub open spec fn chart_at(s: Seq<u8>, i: int) -> Option<(Chart, int)> {
    match named_at(s, gap_end(s, i), 0) {
        Some(a) => if matches_at(s, "-to-".spec_bytes(), a.1) {
            match named_at(s, a.1 + "-to-".spec_bytes().len(), 0) {
                Some(b) => if matches_at(s, " map:\n".spec_bytes(), b.1) {
                    match range_at(s, b.1 + " map:\n".spec_bytes().len()) {
                        Some(first) => {
                            let rest = more_ranges(s, first.1);
                            let all = seq![first.0] + rest.0;
                            Some(
                                (
                                    Chart {
                                        source: a.0,
                                        destination: b.0,
                                        ranges: in_order(all, all.len()),
                                    },
                                    rest.1,
                                ),
                            )
                        },
                        None => None,
                    }
                } else {
                    None
                },
                None => None,
            }
        } else {
            None
        },
        None => None,
    }
}

impl CategoryMap {
    /// The chart that stands in `input` at `i`, with the index behind it.
    pub fn parse(input: &[u8], i: usize) -> (r: Option<(CategoryMap, usize)>)
        requires
            i <= input@.len(),
        ensures
            match r {
                Some(p) => chart_at(input@, i as int) == Some((p.0@, p.1 as int)) && i < p.1
                    <= input@.len(),
                None => chart_at(input@, i as int) is None,
            },
    {
        let total: usize = input.len();
        let j = skip_gap(input, i);
        let (source_category, a) = match Category::parse(input, j) {
            Some(p) => p,
            None => {
                return None;
            },
        };
        let to = "-to-".as_bytes();
        if !occurs_at(input, to, a) {
            return None;
        }
        assert(a + to@.len() <= total);
        let (destination_category, b) = match Category::parse(input, a + to.len()) {
            Some(p) => p,
            None => {
                return None;
            },
        };
        let map = " map:\n".as_bytes();
        if !occurs_at(input, map, b) {
            return None;
        }
        assert(b + map@.len() <= total);
        let first = match MapRange::parse(input, b + map.len()) {
            Some(p) => p,
            None => {
                return None;
            },
        };
        let mut ranges: Vec<MapRange> = Vec::new();
        ranges.push(first.0);
        let mut pos: usize = first.1;
        let mut more = true;
        let ghost rest = more_ranges(input@, first.1 as int);
        let ghost all = seq![first.0] + rest.0;
        while more
            invariant
                i < pos <= input@.len(),
                all =~= ranges@ + more_ranges(input@, pos as int).0,
                rest.1 == more_ranges(input@, pos as int).1,
                !more ==> more_ranges(input@, pos as int) == (Seq::<MapRange>::empty(), pos as int),
            decreases input@.len() - pos + if more { 1int } else { 0int },
        {
            if pos < input.len() && input[pos] == 10 {
                match MapRange::parse(input, pos + 1) {
                    Some(p) => {
                        ranges.push(p.0);
                        pos = p.1;
                    },
                    None => {
                        more = false;
                    },
                }
            } else {
                more = false;
            }
        }
        let ranges = sort_by_start(&ranges);
        Some((CategoryMap { source_category, destination_category, ranges }, pos))
    }
}

/// The charts that follow at `i`, each after an empty line.
pub open spec fn more_charts(s: Seq<u8>, i: int) -> Seq<Chart>
    decreases s.len() - i,
{
    if matches_at(s, "\n\n".spec_bytes(), i) && chart_at(s, i + "\n\n".spec_bytes().len()) is Some {
        let p = chart_at(s, i + "\n\n".spec_bytes().len())->0;
        if i < p.1 <= s.len() {
            seq![p.0] + more_charts(s, p.1)
        } else {
            Seq::empty()
        }
    } else {
        Seq::empty()
    }
}

/// The seeds and the charts that the text holds: the list of seeds, then
/// one chart or more.
pub open spec fn almanac_of(s: Seq<u8>) -> Option<(Seq<u64>, Seq<Chart>)> {
    match seeds_of(s) {
        Some(seeds) => match chart_at(s, seeds.1) {
            Some(first) => Some((seeds.0, seq![first.0] + more_charts(s, first.1))),
            None => None,
        },
        None => None,
    }
}

/// The charts that the maps hold.
pub open spec fn charts(maps: Seq<CategoryMap>) -> Seq<Chart> {
    Seq::new(maps.len(), |i: int| maps[i]@)
}

/// The seeds and the charts that the text holds.
pub fn parse_input(input: &str) -> (r: Result<(Vec<u64>, Vec<CategoryMap>), ParseError>)
    ensures
        match r {
            Ok(p) => almanac_of(input.spec_bytes()) == Some((p.0@, charts(p.1@))) && p.0@.len() > 0
                && p.1@.len() > 0,
            Err(_) => almanac_of(input.spec_bytes()) is None,
        },
{
    let s = input.as_bytes();
    let total: usize = s.len();
    let (seeds, i) = match parse_seed_list(s) {
        Some(p) => p,
        None => {
            return Err(ParseError);
        },
    };
    let first = match CategoryMap::parse(s, i) {
        Some(p) => p,
        None => {
            return Err(ParseError);
        },
    };
    let ghost want = seq![first.0@] + more_charts(s@, first.1 as int);
    let mut maps: Vec<CategoryMap> = Vec::new();
    let mut pos: usize = first.1;
    maps.push(first.0);
    let mut more = true;
    let gap = "\n\n".as_bytes();
    while more
        invariant
            pos <= s@.len(),
            total == s@.len(),
            gap@ == "\n\n".spec_bytes(),
            maps@.len() > 0,
            want =~= charts(maps@) + more_charts(s@, pos as int),
            !more ==> more_charts(s@, pos as int) == Seq::<Chart>::empty(),
        decreases s@.len() - pos + if more { 1int } else { 0int },
    {
        if occurs_at(s, gap, pos) {
            assert(pos + gap@.len() <= total);
            match CategoryMap::parse(s, pos + gap.len()) {
                Some(p) => {
                    let ghost before = charts(maps@);
                    let ghost c = p.0@;
                    maps.push(p.0);
                    proof {
                        assert(charts(maps@) =~= before.push(c));
                    }
                    pos = p.1;
                },
                None => {
                    more = false;
                },
            }
        } else {
            more = false;
        }
    }
    Ok((seeds, maps))
}


/// The first chart from place `k` on that leads on from `cat`.
pub open spec fn chart_for(cs: Seq<Chart>, cat: Category, k: int) -> Option<Chart>
    decreases cs.len() - k,
{
    if k < 0 || k >= cs.len() {
        None
    } else if cs[k].source == cat {
        Some(cs[k])
    } else {
        chart_for(cs, cat, k + 1)
    }
}

/// The category reached from seeds after `n` charts; `None` behind the
/// locations and where no chart leads on.
pub open spec fn stage(cs: Seq<Chart>, n: nat) -> Option<Category>
    decreases n,
{
    if n == 0 {
        Some(Category::Seed)
    } else {
        match stage(cs, (n - 1) as nat) {
            Some(c) => if c == Category::Location {
                None
            } else {
                match chart_for(cs, c, 0) {
                    Some(chart) => Some(chart.destination),
                    None => None,
                }
            },
            None => None,
        }
    }
}

/// The chart that is used as the `n`-th, counted from zero.
pub open spec fn chart_of_stage(cs: Seq<Chart>, n: nat) -> Chart {
    chart_for(cs, stage(cs, n)->0, 0)->0
}

/// Whether the charts lead from seeds to locations in `n` steps.
pub open spec fn arrives(cs: Seq<Chart>, n: nat) -> bool {
    stage(cs, n) == Some(Category::Location)
}

/// Before the locations every step leads on.
pub proof fn lemma_stages(cs: Seq<Chart>, n: nat, m: nat)
    requires
        stage(cs, n) is Some,
        m < n,
    ensures
        stage(cs, m) is Some,
        stage(cs, m)->0 != Category::Location,
        chart_for(cs, stage(cs, m)->0, 0) is Some,
    decreases n,
{
    if m + 1 < n {
        lemma_stages(cs, (n - 1) as nat, m);
    }
}

/// Where the first `n` charts take `id`.
pub open spec fn through(cs: Seq<Chart>, id: int, n: nat) -> int
    decreases n,
{
    if n == 0 {
        id
    } else {
        taken(chart_of_stage(cs, (n - 1) as nat).ranges, 0, through(cs, id, (n - 1) as nat))
    }
}

/// Whether `v` is the least of the numbers `s`.
pub open spec fn is_least(v: int, s: Seq<int>) -> bool {
    &&& exists|i: int| 0 <= i < s.len() && #[trigger] s[i] == v
    &&& forall|i: int| 0 <= i < s.len() ==> v <= #[trigger] s[i]
}

/// No stretch of a chart goes beyond 64 bits.
pub open spec fn charts_fit(cs: Seq<Chart>) -> bool {
    forall|k: int, j: int|
        0 <= k < cs.len() && 0 <= j < cs[k].ranges.len() ==> (#[trigger] cs[k].ranges[j]).fits()
}

/// Whether the first part can be answered for the text: if it holds an
/// almanac, its charts lead from seeds to locations, and no stretch goes
/// beyond 64 bits.
pub open spec fn can_follow(s: Seq<u8>) -> bool {
    almanac_of(s) is Some ==> {
        &&& exists|n: nat| arrives((almanac_of(s)->0).1, n)
        &&& charts_fit((almanac_of(s)->0).1)
    }
}

/// The place of the chart that leads on from `cat`.
fn find_map(maps: &Vec<CategoryMap>, cat: Category) -> (r: usize)
    requires
        chart_for(charts(maps@), cat, 0) is Some,
    ensures
        r < maps@.len(),
        chart_for(charts(maps@), cat, 0) == Some(maps@[r as int]@),
{
    let mut m: usize = 0;
    while m < maps.len() && maps[m].source_category != cat
        invariant
            m <= maps@.len(),
            chart_for(charts(maps@), cat, 0) == chart_for(charts(maps@), cat, m as int),
        decreases maps.len() - m,
    {
        m += 1;
    }
    m
}

/// The least of the numbers.
fn least(ids: &Vec<u64>) -> (r: u64)
    requires
        ids@.len() > 0,
    ensures
        is_least(r as int, ids@.map_values(|v: u64| v as int)),
{
    let ghost s = ids@.map_values(|v: u64| v as int);
    let mut best: u64 = ids[0];
    let mut i: usize = 1;
    let ghost mut at: int = 0;
    while i < ids.len()
        invariant
            1 <= i <= ids@.len(),
            s == ids@.map_values(|v: u64| v as int),
            0 <= at < i,
            s[at] == best,
            forall|j: int| 0 <= j < i ==> best <= #[trigger] s[j],
        decreases ids.len() - i,
    {
        if ids[i] < best {
            best = ids[i];
            proof {
                at = i as int;
            }
        }
        i += 1;
    }
    best
}

/// The least location to which a seed is taken.
pub fn day5_1(input: &str) -> (r: Result<u64, ParseError>)
    requires
        can_follow(input.spec_bytes()),
    ensures
        match r {
            Ok(v) => almanac_of(input.spec_bytes()) is Some && exists|n: nat| #[trigger]
                arrives((almanac_of(input.spec_bytes())->0).1, n) && is_least(
                    v as int,
                    Seq::new(
                        (almanac_of(input.spec_bytes())->0).0.len(),
                        |i: int|
                            through(
                                (almanac_of(input.spec_bytes())->0).1,
                                (almanac_of(input.spec_bytes())->0).0[i] as int,
                                n,
                            ),
                    ),
                ),
            Err(_) => almanac_of(input.spec_bytes()) is None,
        },
{
    let (mut ids, maps) = match parse_input(input) {
        Ok(p) => p,
        Err(e) => {
            return Err(e);
        },
    };
    let ghost seeds = ids@;
    let ghost cs = charts(maps@);
    let ghost n = choose|n: nat| arrives(cs, n);
    let ghost mut steps: nat = 0;
    let mut curr_cat = Category::Seed;
    while curr_cat != Category::Location
        invariant
            cs == charts(maps@),
            charts_fit(cs),
            arrives(cs, n),
            steps <= n,
            stage(cs, steps) == Some(curr_cat),
            ids@.len() == seeds.len(),
            forall|i: int| 0 <= i < ids@.len() ==> #[trigger] ids@[i] == through(cs, seeds[i] as int, steps),
        decreases n - steps,
    {
        proof {
            lemma_stages(cs, n, steps);
        }
        let m = find_map(&maps, curr_cat);
        let map = &maps[m];
        proof {
            assert(forall|j: int| 0 <= j < cs[m as int].ranges.len() ==> (#[trigger] cs[m as int].ranges[j]).fits());
        }
        let mut i: usize = 0;
        while i < ids.len()
            invariant
                i <= ids@.len(),
                ids@.len() == seeds.len(),
                map.fits(),
                map@ == chart_of_stage(cs, steps),
                forall|j: int| 0 <= j < i ==> #[trigger] ids@[j] == through(cs, seeds[j] as int, steps + 1),
                forall|j: int| i <= j < ids@.len() ==> #[trigger] ids@[j] == through(cs, seeds[j] as int, steps),
            decreases ids.len() - i,
        {
            let v = map.convert(ids[i]);
            ids.set(i, v);
            i += 1;
        }
        curr_cat = map.destination_category;
        proof {
            steps = steps + 1;
        }
    }
    proof {
        if steps < n {
            lemma_stages(cs, n, steps);
        }
    }
    let v = least(&ids);
    proof {
        let want = Seq::new(seeds.len(), |i: int| through(cs, seeds[i] as int, n));
        assert(ids@.map_values(|v: u64| v as int) =~= want);
    }
    Ok(v)
}


/// The stretches that the seeds stand for when read two by two: a
/// beginning and a length.
pub open spec fn seed_spans(seeds: Seq<u64>) -> Seq<(int, int)> {
    Seq::new(
        (seeds.len() / 2) as nat,
        |i: int| (seeds[2 * i] as int, seeds[2 * i] + seeds[2 * i + 1]),
    )
}

/// The stretches to which the chart takes the first `k` of the stretches
/// `v`, one after the other.
pub open spec fn all_pieces(ranges: Seq<MapRange>, v: Seq<(int, int)>, k: nat) -> Seq<(int, int)>
    decreases k,
{
    if k == 0 {
        Seq::empty()
    } else {
        all_pieces(ranges, v, (k - 1) as nat) + pieces(
            ranges,
            first_behind(ranges, 0, v[k - 1].0),
            v[k - 1].0,
            v[k - 1].1,
        )
    }
}

/// The stretches to which the first `n` charts take the stretches of
/// seeds.
pub open spec fn spans_after(cs: Seq<Chart>, seeds: Seq<u64>, n: nat) -> Seq<(int, int)>
    decreases n,
{
    if n == 0 {
        seed_spans(seeds)
    } else {
        all_pieces(
            chart_of_stage(cs, (n - 1) as nat).ranges,
            spans_after(cs, seeds, (n - 1) as nat),
            spans_after(cs, seeds, (n - 1) as nat).len(),
        )
    }
}

/// The stretches of the chart lie in rising order, none beyond 64 bits,
/// each ending before the next begins.
pub open spec fn is_tidy(c: Chart) -> bool {
    &&& forall|k: int| 0 <= k < c.ranges.len() ==> (#[trigger] c.ranges[k]).fits()
    &&& forall|k: int, j: int|
        0 <= k < j < c.ranges.len() ==> (#[trigger] c.ranges[k]).source_end() <= (
        #[trigger] c.ranges[j]).source_start
}

/// The beginnings of the stretches.
pub open spec fn starts(v: Seq<(int, int)>) -> Seq<int> {
    Seq::new(v.len(), |i: int| v[i].0)
}

/// Whether the second part can be answered for the text: if it holds an
/// almanac, no stretch of seeds goes beyond 64 bits, the charts are tidy
/// and lead from seeds to locations, and a stretch of locations is left.
pub open spec fn can_follow_ranges(s: Seq<u8>) -> bool {
    almanac_of(s) is Some ==> {
        let seeds = (almanac_of(s)->0).0;
        let cs = (almanac_of(s)->0).1;
        &&& forall|i: int| 0 <= i < seed_spans(seeds).len() ==> (#[trigger] seed_spans(seeds)[i]).1 <= u64::MAX
        &&& forall|k: int| 0 <= k < cs.len() ==> is_tidy(#[trigger] cs[k])
        &&& exists|n: nat| arrives(cs, n) && spans_after(cs, seeds, n).len() > 0
    }
}

/// The least location to which a seed of the stretches of seeds is taken.
pub fn day5_2(input: &str) -> (r: Result<u64, ParseError>)
    requires
        can_follow_ranges(input.spec_bytes()),
    ensures
        match r {
            Ok(v) => almanac_of(input.spec_bytes()) is Some && exists|n: nat| #[trigger]
                arrives((almanac_of(input.spec_bytes())->0).1, n) && is_least(
                    v as int,
                    starts(
                        spans_after(
                            (almanac_of(input.spec_bytes())->0).1,
                            (almanac_of(input.spec_bytes())->0).0,
                            n,
                        ),
                    ),
                ),
            Err(_) => almanac_of(input.spec_bytes()) is None,
        },
{
    let (seeds, maps) = match parse_input(input) {
        Ok(p) => p,
        Err(e) => {
            return Err(e);
        },
    };
    let ghost cs = charts(maps@);
    let ghost n = choose|n: nat| arrives(cs, n) && spans_after(cs, seeds@, n).len() > 0;
    let two = pairs(seeds.as_slice());
    let mut ranges: Vec<Range<u64>> = Vec::new();
    let mut i: usize = 0;
    while i < two.len()
        invariant
            i <= two@.len(),
            two@.len() == seeds@.len() / 2,
            forall|j: int| 0 <= j < two@.len() ==> #[trigger] two@[j] == (seeds@[2 * j], seeds@[2 * j + 1]),
            forall|j: int|
                0 <= j < seed_spans(seeds@).len() ==> (#[trigger] seed_spans(seeds@)[j]).1
                    <= u64::MAX,
            ranges@.len() == i,
            forall|j: int|
                0 <= j < i ==> (#[trigger] ranges@[j]).start == seeds@[2 * j] && ranges@[j].end
                    == seeds@[2 * j] + seeds@[2 * j + 1],
        decreases two.len() - i,
    {
        let (begin, length) = two[i];
        proof {
            assert(seed_spans(seeds@)[i as int].1 <= u64::MAX);
        }
        ranges.push(Range { start: begin, end: begin + length });
        i += 1;
    }
    proof {
        assert(spans(ranges@) =~= seed_spans(seeds@));
    }
    let ghost mut steps: nat = 0;
    let mut curr_cat = Category::Seed;
    while curr_cat != Category::Location
        invariant
            cs == charts(maps@),
            forall|k: int| 0 <= k < cs.len() ==> is_tidy(#[trigger] cs[k]),
            arrives(cs, n),
            steps <= n,
            stage(cs, steps) == Some(curr_cat),
            spans(ranges@) == spans_after(cs, seeds@, steps),
            forall|j: int| 0 <= j < ranges@.len() ==> (#[trigger] ranges@[j]).start <= ranges@[j].end,
        decreases n - steps,
    {
        proof {
            lemma_stages(cs, n, steps);
        }
        let m = find_map(&maps, curr_cat);
        let map = &maps[m];
        proof {
            assert(is_tidy(cs[m as int]));
            assert(cs[m as int].ranges == map.ranges@);
            assert(map.fits());
            assert(map.tidy());
        }
        let ghost before = spans(ranges@);
        let mut ranges_aux: Vec<Range<u64>> = Vec::new();
        let mut k: usize = 0;
        proof {
            assert(spans(ranges_aux@) =~= Seq::<(int, int)>::empty());
        }
        while k < ranges.len()
            invariant
                k <= ranges@.len(),
                map.tidy(),
                before == spans(ranges@),
                forall|j: int|
                    0 <= j < ranges@.len() ==> (#[trigger] ranges@[j]).start <= ranges@[j].end,
                spans(ranges_aux@) == all_pieces(map.ranges@, before, k as nat),
                none_empty(spans(ranges_aux@)),
            decreases ranges.len() - k,
        {
            let one = Range { start: ranges[k].start, end: ranges[k].end };
            let mut converted = map.convert_range(one);
            let ghost so_far = spans(ranges_aux@);
            let ghost added = spans(converted@);
            proof {
                assert(before[k as int] == (ranges@[k as int].start as int, ranges@[k as int].end as int));
            }
            ranges_aux.append(&mut converted);
            proof {
                assert(spans(ranges_aux@) =~= so_far + added);
            }
            k += 1;
        }
        proof {
            assert forall|j: int| 0 <= j < ranges_aux@.len() implies (#[trigger] ranges_aux@[j]).start
                <= ranges_aux@[j].end by {
                assert(spans(ranges_aux@)[j].0 < spans(ranges_aux@)[j].1);
            }
        }
        ranges = ranges_aux;
        curr_cat = map.destination_category;
        proof {
            steps = steps + 1;
        }
    }
    proof {
        if steps < n {
            lemma_stages(cs, n, steps);
        }
    }
    let mut smallest: u64 = ranges[0].start;
    let ghost mut at: int = 0;
    let ghost s = starts(spans(ranges@));
    let mut k: usize = 1;
    while k < ranges.len()
        invariant
            1 <= k <= ranges@.len(),
            s == starts(spans(ranges@)),
            0 <= at < k,
            s[at] == smallest,
            forall|j: int| 0 <= j < k ==> smallest <= #[trigger] s[j],
        decreases ranges.len() - k,
    {
        if ranges[k].start < smallest {
            smallest = ranges[k].start;
            proof {
                at = k as int;
            }
        }
        k += 1;
    }
    Ok(smallest)
}

} // verus!
