//! Rows of springs, some of unknown state, and the ways in which groups of
//! damaged springs of given sizes can lie in them.

use crate::text::{gap_end, lines, lines_of, read_unsigned, skip_gap, unsigned_at, views};
use crate::y2023::grid::{Grid, MutGrid, VecGrid};
use vstd::prelude::*;
use vstd::string::*;

verus! {

/// The text was no list of rows.
#[derive(Debug, PartialEq, Eq)]
pub struct ParseError;

/// The state of a spring.
#[derive(Debug, Clone, Copy, PartialEq, Eq, Structural)]
pub enum Status {
    Operational,
    Damaged,
    Unknown,
}

/// The state that `b` names: `.`, `#` or `?`.
pub open spec fn status_of(b: u8) -> Option<Status> {
    if b == 46 {
        Some(Status::Operational)
    } else if b == 35 {
        Some(Status::Damaged)
    } else if b == 63 {
        Some(Status::Unknown)
    } else {
        None
    }
}

/// Where the states end that begin at `i`.
pub open spec fn statuses_end(s: Seq<u8>, i: int) -> int
    decreases s.len() - i,
{
    if 0 <= i < s.len() && status_of(s[i]) is Some {
        statuses_end(s, i + 1)
    } else {
        i
    }
}

impl Status {
    pub fn is_damaged(&self) -> (r: bool)
        ensures
            r == (*self == Status::Damaged),
    {
        *self == Status::Damaged
    }

    pub fn is_operational(&self) -> (r: bool)
        ensures
            r == (*self == Status::Operational),
    {
        *self == Status::Operational
    }

    /// The state that stands in `input` at `i`, with the index behind it.
    pub fn parse(input: &[u8], i: usize) -> (r: Option<(Self, usize)>)
        ensures
            match r {
                Some(p) => i < input@.len() && status_of(input@[i as int]) == Some(p.0) && p.1
                    == i + 1,
                None => i >= input@.len() || status_of(input@[i as int]) is None,
            },
    {
        if i >= input.len() {
            None
        } else if input[i] == 46 {
            Some((Status::Operational, i + 1))
        } else if input[i] == 35 {
            Some((Status::Damaged, i + 1))
        } else if input[i] == 63 {
            Some((Status::Unknown, i + 1))
        } else {
            None
        }
    }

    /// Whether `c` names a state.
    pub fn is_status_byte(c: u8) -> (r: bool)
        ensures
            r == status_of(c) is Some,
    {
        c == 46 || c == 35 || c == 63
    }

    /// The states that the bytes name, if each names one.
    pub fn transmute_from_bytes(bytes: &[u8]) -> (r: Option<Vec<Self>>)
        ensures
            match r {
                Some(v) => v@.len() == bytes@.len() && forall|i: int|
                    0 <= i < bytes@.len() ==> status_of(#[trigger] bytes@[i]) == Some(v@[i]),
                None => exists|i: int| 0 <= i < bytes@.len() && status_of(#[trigger] bytes@[i]) is None,
            },
    {
        let mut out: Vec<Status> = Vec::new();
        let mut i: usize = 0;
        while i < bytes.len()
            invariant
                i <= bytes@.len(),
                out@.len() == i,
                forall|j: int| 0 <= j < i ==> status_of(#[trigger] bytes@[j]) == Some(out@[j]),
            decreases bytes.len() - i,
        {
            match Status::parse(bytes, i) {
                Some(p) => {
                    out.push(p.0);
                },
                None => {
                    assert(status_of(bytes@[i as int]) is None);
                    return None;
                },
            }
            i += 1;
        }
        Some(out)
    }

    /// The states with which `input` goes on at `i`, as many as there
    /// are, with the index behind them.
    pub fn parse_list(input: &[u8], i: usize) -> (r: (Vec<Status>, usize))
        requires
            i <= input@.len(),
        ensures
            r.1 == statuses_end(input@, i as int),
            i <= r.1 <= input@.len(),
            r.0@.len() == r.1 - i,
            forall|j: int| 0 <= j < r.0@.len() ==> status_of(#[trigger] input@[i + j]) == Some(r.0@[j]),
    {
        let mut out: Vec<Status> = Vec::new();
        let mut pos: usize = i;
        let mut more = true;
        while more
            invariant
                i <= pos <= input@.len(),
                out@.len() == pos - i,
                statuses_end(input@, i as int) == statuses_end(input@, pos as int),
                forall|j: int| 0 <= j < out@.len() ==> status_of(#[trigger] input@[i + j]) == Some(out@[j]),
                !more ==> statuses_end(input@, pos as int) == pos,
            decreases input@.len() - pos + if more { 1int } else { 0int },
        {
            match Status::parse(input, pos) {
                Some(p) => {
                    out.push(p.0);
                    pos = p.1;
                },
                None => {
                    more = false;
                },
            }
        }
        (out, pos)
    }
}

/// A row as it is written: the states of its springs and the sizes of its
/// groups of damaged springs.
pub struct Record {
    pub statuses: Seq<Status>,
    pub sizes: Seq<usize>,
}

/// The sizes that follow at `i`, each after a comma.
pub open spec fn more_sizes(s: Seq<u8>, i: int) -> Seq<usize>
    decreases s.len() - i,
{
    if 0 <= i < s.len() && s[i] == 44 && unsigned_at(s, i + 1, usize::MAX as int) is Some {
        let p = unsigned_at(s, i + 1, usize::MAX as int)->0;
        if i < p.1 <= s.len() {
            seq![p.0 as usize] + more_sizes(s, p.1)
        } else {
            Seq::empty()
        }
    } else {
        Seq::empty()
    }
}

/// The row that the line holds: after a gap the states, as many as there
/// are, and after a gap one size or more with commas between them.
pub open spec fn record_of(line: Seq<u8>) -> Option<Record> {
    let j = gap_end(line, 0);
    let e = statuses_end(line, j);
    match unsigned_at(line, gap_end(line, e), usize::MAX as int) {
        Some(p) => Some(
            Record {
                statuses: Seq::new((e - j) as nat, |i: int| status_of(line[j + i])->0),
                sizes: seq![p.0 as usize] + more_sizes(line, p.1),
            },
        ),
        None => None,
    }
}

/// The row that the line holds.
pub fn parse_line(input: &[u8]) -> (r: Option<(Vec<Status>, Vec<usize>)>)
    ensures
        match r {
            Some(p) => record_of(input@) == Some(Record { statuses: p.0@, sizes: p.1@ }),
            None => record_of(input@) is None,
        },
{
    let j = skip_gap(input, 0);
    let (statuses, e) = Status::parse_list(input, j);
    let k = skip_gap(input, e);
    let first = match read_unsigned(input, k, usize::MAX as u64) {
        Some(p) => p,
        None => {
            return None;
        },
    };
    let mut sizes: Vec<usize> = Vec::new();
    sizes.push(first.0 as usize);
    let mut pos: usize = first.1;
    let mut more = true;
    let ghost want = seq![first.0 as usize] + more_sizes(input@, first.1 as int);
    while more
        invariant
            pos <= input@.len(),
            want =~= sizes@ + more_sizes(input@, pos as int),
            !more ==> more_sizes(input@, pos as int) == Seq::<usize>::empty(),
        decreases input@.len() - pos + if more { 1int } else { 0int },
    {
        if pos < input.len() && input[pos] == 44 {
            match read_unsigned(input, pos + 1, usize::MAX as u64) {
                Some(p) => {
                    sizes.push(p.0 as usize);
                    pos = p.1;
                },
                None => {
                    more = false;
                },
            }
        } else {
            more = false;
        }
    }
    proof {
        assert(statuses@ =~= Seq::new((e - j) as nat, |i: int| status_of(input@[j + i])->0));
    }
    Some((statuses, sizes))
}


/// A number of arrangements.
pub type NumArrangements = u64;

/// The sum of the sizes from place `b` on.
pub open spec fn sum_from(sizes: Seq<usize>, b: int) -> int
    decreases sizes.len() - b,
{
    if b < 0 || b >= sizes.len() {
        0
    } else {
        sizes[b] + sum_from(sizes, b + 1)
    }
}

/// Whether no spring from place `a` on is known to be damaged.
pub open spec fn none_damaged(st: Seq<Status>, a: int) -> bool {
    forall|i: int| a <= i < st.len() ==> #[trigger] st[i] != Status::Damaged
}

/// Whether a group of `size` damaged springs can lie at `start`: none of
/// them is known to work, and the row ends behind it or the next spring
/// may work.
pub open spec fn group_fits(st: Seq<Status>, start: int, size: int) -> bool {
    &&& start + size == st.len() || st[start + size] != Status::Damaged
    &&& forall|i: int| start <= i < start + size ==> #[trigger] st[i] != Status::Operational
}

/// The number of ways in which the groups from place `b` on can lie in
/// the springs from place `a` on.
pub open spec fn ways(st: Seq<Status>, sizes: Seq<usize>, a: int, b: int) -> nat
    decreases sizes.len() - b, st.len() + 1,
{
    if b < 0 || a < 0 || a > st.len() {
        0
    } else if b >= sizes.len() {
        if none_damaged(st, a) {
            1
        } else {
            0
        }
    } else if st.len() - a < sum_from(sizes, b) {
        0
    } else {
        ways_from(st, sizes, a, b, 0)
    }
}

/// The number of ways in which the groups from place `b` on can lie in
/// the springs from place `a` on, the first group no less than `start`
/// springs behind `a`: the first group lies there or further on, but not
/// behind a spring that is known to be damaged.
pub open spec fn ways_from(st: Seq<Status>, sizes: Seq<usize>, a: int, b: int, start: int) -> nat
    decreases sizes.len() - b, st.len() - a - start,
{
    if b < 0 || b >= sizes.len() || a < 0 || start < 0 || a + start >= st.len() || start
        > st.len() - a - sum_from(sizes, b) {
        0
    } else {
        let behind = a + start + sizes[b] + 1;
        let here = if group_fits(st, a + start, sizes[b] as int) {
            ways(
                st,
                sizes,
                if behind < st.len() {
                    behind
                } else {
                    st.len() as int
                },
                b + 1,
            )
        } else {
            0
        };
        if st[a + start] == Status::Damaged {
            here
        } else {
            here + ways_from(st, sizes, a, b, start + 1)
        }
    }
}

/// Whether the ways can be counted: no group is empty, the sizes of all
/// can be added up, a table of all the places can be held, and no count
/// goes beyond 64 bits.
pub open spec fn can_count(st: Seq<Status>, sizes: Seq<usize>) -> bool {
    &&& forall|b: int| 0 <= b < sizes.len() ==> #[trigger] sizes[b] >= 1
    &&& sum_from(sizes, 0) < usize::MAX
    &&& (st.len() + 1) * (sizes.len() + 1) <= usize::MAX
    &&& forall|a: int, b: int|
        0 <= a <= st.len() && 0 <= b <= sizes.len() ==> #[trigger] ways(st, sizes, a, b)
            <= u64::MAX
}

/// What the table knows is true: it has a cell for each pair of places,
/// and a count in a cell is the number of ways from these places on.
pub open spec fn cache_ok(cache: &VecGrid<Option<u64>>, st: Seq<Status>, sizes: Seq<usize>) -> bool {
    &&& cache.wf()
    &&& cache.width == sizes.len() + 1
    &&& cache.height == st.len() + 1
    &&& forall|a: int, b: int|
        0 <= a <= st.len() && 0 <= b <= sizes.len() && (#[trigger] cache.at(b, a)) is Some
            && cache.at(b, a)->0 is Some ==> cache.at(b, a)->0->0 == ways(st, sizes, a, b)
}

/// The sum of the sizes from a place on is the sum from the place behind
/// it and the size at it, and no less than zero.
pub proof fn lemma_sum_from(sizes: Seq<usize>, b: int)
    requires
        0 <= b <= sizes.len(),
    ensures
        0 <= sum_from(sizes, b) <= sum_from(sizes, 0),
    decreases b,
{
    lemma_sum_pos(sizes, b);
    if b > 0 {
        lemma_sum_from(sizes, b - 1);
    }
}

/// A sum of sizes is not below zero.
pub proof fn lemma_sum_pos(sizes: Seq<usize>, b: int)
    ensures
        0 <= sum_from(sizes, b),
    decreases sizes.len() - b,
{
    if 0 <= b < sizes.len() {
        lemma_sum_pos(sizes, b + 1);
    }
}

fn sum_sizes(sizes: &[usize], from: usize) -> (r: usize)
    requires
        from <= sizes@.len(),
        sum_from(sizes@, 0) < usize::MAX,
    ensures
        r == sum_from(sizes@, from as int),
{
    proof {
        lemma_sum_from(sizes@, from as int);
    }
    let mut total: usize = 0;
    let mut k: usize = sizes.len();
    while k > from
        invariant
            from <= k <= sizes@.len(),
            sum_from(sizes@, 0) < usize::MAX,
            total == sum_from(sizes@, k as int),
        decreases k,
    {
        proof {
            lemma_sum_from(sizes@, k - 1);
        }
        k -= 1;
        total = total + sizes[k];
    }
    total
}

/// Notes in the table that `res` is the number of ways from the places
/// `from` and `group` on. No other cell of the table changes.
fn remember(
    cache: &mut VecGrid<Option<u64>>,
    from: usize,
    group: usize,
    res: u64,
    Ghost(st): Ghost<Seq<Status>>,
    Ghost(sizes): Ghost<Seq<usize>>,
)
    requires
        cache_ok(old(cache), st, sizes),
        from <= st.len(),
        group <= sizes.len(),
        res == ways(st, sizes, from as int, group as int),
    ensures
        cache_ok(final(cache), st, sizes),
        final(cache).at(group as int, from as int) == Some(Some(res)),
        forall|a: int, b: int|
            (a != from || b != group) ==> #[trigger] final(cache).at(b, a) == old(cache).at(b, a),
{
    proof {
        cache.lemma_at_inside(group as int, from as int);
    }
    match cache.get_mut(group, from) {
        Some(cell) => {
            *cell = Some(res);
        },
        None => {},
    }
}

/// The number of ways in which the groups from place `group` on can lie
/// in the springs from place `from` on. What it finds it notes in the
/// table, and what the table knows it does not count again.
pub fn status_arrangements(
    cache: &mut VecGrid<Option<u64>>,
    statuses: &[Status],
    sizes: &[usize],
    from: usize,
    group: usize,
) -> (r: u64)
    requires
        cache_ok(old(cache), statuses@, sizes@),
        can_count(statuses@, sizes@),
        from <= statuses@.len(),
        group <= sizes@.len(),
    ensures
        cache_ok(final(cache), statuses@, sizes@),
        r == ways(statuses@, sizes@, from as int, group as int),
    decreases sizes@.len() - group,
{
    let ghost st = statuses@;
    let ghost sz = sizes@;
    proof {
        cache.lemma_at_inside(group as int, from as int);
    }
    match cache.get(group, from) {
        Some(known) => {
            match known {
                Some(res) => {
                    return *res;
                },
                None => {},
            }
        },
        None => {},
    }
    if group == sizes.len() {
        let mut clean = true;
        let mut i: usize = from;
        while i < statuses.len() && clean
            invariant
                from <= i <= statuses@.len(),
                clean ==> forall|j: int| from <= j < i ==> #[trigger] statuses@[j] != Status::Damaged,
                !clean ==> !none_damaged(statuses@, from as int),
            decreases statuses.len() - i + if clean { 1int } else { 0int },
        {
            if statuses[i].is_damaged() {
                clean = false;
                assert(statuses@[i as int] == Status::Damaged);
            } else {
                i += 1;
            }
        }
        let res: u64 = if clean {
            1
        } else {
            0
        };
        remember(cache, from, group, res, Ghost(st), Ghost(sz));
        return res;
    }
    let size: usize = sizes[group];
    let rem_size: usize = sum_sizes(sizes, group + 1);
    proof {
        lemma_sum_from(sizes@, group as int);
    }
    if statuses.len() - from < size + rem_size {
        remember(cache, from, group, 0, Ghost(st), Ghost(sz));
        return 0;
    }
    let mut res: u64 = 0;
    let max_start: usize = statuses.len() - from - size - rem_size;
    let mut start: usize = 0;
    let mut done = false;
    while start <= max_start && !done
        invariant
            st == statuses@,
            sz == sizes@,
            cache_ok(cache, st, sz),
            can_count(st, sz),
            from <= st.len(),
            group < sz.len(),
            size == sz[group as int],
            size >= 1,
            rem_size == sum_from(sz, group + 1),
            max_start == st.len() - from - size - rem_size,
            start <= max_start + 1,
            !done ==> res + ways_from(st, sz, from as int, group as int, start as int)
                == ways_from(st, sz, from as int, group as int, 0),
            done ==> res == ways_from(st, sz, from as int, group as int, 0),
            ways_from(st, sz, from as int, group as int, 0) == ways(
                st,
                sz,
                from as int,
                group as int,
            ),
        decreases max_start + 1 - start + if done { 0int } else { 1int },
    {
        let at: usize = from + start;
        let can_be_separated = at + size == statuses.len() || !statuses[at + size].is_damaged();
        let mut possibly_all_damaged = true;
        let mut i: usize = at;
        let end: usize = at + size;
        while i < end && possibly_all_damaged
            invariant
                end == at + size,
                at <= i <= at + size <= statuses@.len(),
                possibly_all_damaged ==> forall|j: int|
                    at <= j < i ==> #[trigger] statuses@[j] != Status::Operational,
                !possibly_all_damaged ==> exists|j: int|
                    at <= j < at + size && #[trigger] statuses@[j] == Status::Operational,
            decreases end - i + if possibly_all_damaged { 1int } else { 0int },
        {
            if statuses[i].is_operational() {
                possibly_all_damaged = false;
                assert(statuses@[i as int] == Status::Operational);
            } else {
                i += 1;
            }
        }
        if can_be_separated && possibly_all_damaged {
            assert(group_fits(st, at as int, size as int));
            let next_slice_start: usize = if at + size + 1 < statuses.len() {
                at + size + 1
            } else {
                statuses.len()
            };
            let more = status_arrangements(cache, statuses, sizes, next_slice_start, group + 1);
            proof {
                assert(ways(st, sz, from as int, group as int) <= u64::MAX);
            }
            res = res + more;
        } else {
            assert(!group_fits(st, at as int, size as int));
        }
        let has_left_damaged = statuses[at].is_damaged();
        if has_left_damaged {
            done = true;
        } else {
            start += 1;
        }
    }
    remember(cache, from, group, res, Ghost(st), Ghost(sz));
    res
}


/// The states `st` written `k` times, a spring of unknown state between
/// one and the next.
pub open spec fn copies(st: Seq<Status>, k: nat) -> Seq<Status>
    decreases k,
{
    if k == 0 {
        Seq::empty()
    } else if k == 1 {
        st
    } else {
        copies(st, (k - 1) as nat) + seq![Status::Unknown] + st
    }
}

/// The sizes written `k` times.
pub open spec fn size_copies(sizes: Seq<usize>, k: nat) -> Seq<usize>
    decreases k,
{
    if k == 0 {
        Seq::empty()
    } else {
        size_copies(sizes, (k - 1) as nat) + sizes
    }
}

/// The row as it is counted: as written, or, where `unfold` holds, five
/// times over.
pub open spec fn counted_row(r: Record, unfold: bool) -> Record {
    if unfold {
        Record { statuses: copies(r.statuses, 5), sizes: size_copies(r.sizes, 5) }
    } else {
        r
    }
}

/// The sum of the numbers of ways of the rows that the first `k` lines
/// hold, if each holds a row.
pub open spec fn total(ls: Seq<Seq<u8>>, unfold: bool, k: nat) -> Option<int>
    decreases k,
{
    if k == 0 {
        Some(0)
    } else {
        match (total(ls, unfold, (k - 1) as nat), record_of(ls[k - 1])) {
            (Some(t), Some(r)) => Some(
                t + ways(counted_row(r, unfold).statuses, counted_row(r, unfold).sizes, 0, 0),
            ),
            _ => None,
        }
    }
}

/// Whether the ways of every row can be counted, and their sums in 64
/// bits, as far as the lines hold rows.
pub open spec fn can_total(ls: Seq<Seq<u8>>, unfold: bool) -> bool {
    forall|k: nat|
        1 <= k <= ls.len() && (#[trigger] total(ls, unfold, k)) is Some ==> total(ls, unfold, k)->0
            <= u64::MAX && can_count(
            counted_row(record_of(ls[k - 1])->0, unfold).statuses,
            counted_row(record_of(ls[k - 1])->0, unfold).sizes,
        )
}

/// What the counting of the rows of the lines leads to.
pub open spec fn answer(ls: Seq<Seq<u8>>, unfold: bool) -> Result<u64, ParseError> {
    match total(ls, unfold, ls.len()) {
        Some(t) => Ok(t as u64),
        None => Err(ParseError),
    }
}

/// Where a line holds no row, the lines have no total.
pub proof fn lemma_total_fails(ls: Seq<Seq<u8>>, unfold: bool, k: nat, n: nat)
    requires
        total(ls, unfold, k) is None,
        k <= n,
    ensures
        total(ls, unfold, n) is None,
    decreases n,
{
    if k < n {
        lemma_total_fails(ls, unfold, k, (n - 1) as nat);
    }
}

fn count_rows(input: &str, unfold: bool) -> (r: Result<u64, ParseError>)
    requires
        can_total(lines_of(input.spec_bytes()), unfold),
    ensures
        r == answer(lines_of(input.spec_bytes()), unfold),
{
    let ls = lines(input.as_bytes());
    let ghost lv = lines_of(input.spec_bytes());
    let mut res: u64 = 0;
    let mut i: usize = 0;
    while i < ls.len()
        invariant
            i <= ls@.len(),
            lv == views(ls@),
            lv == lines_of(input.spec_bytes()),
            can_total(lv, unfold),
            total(lv, unfold, i as nat) == Some(res as int),
        decreases ls.len() - i,
    {
        assert(ls@[i as int]@ == lv[i as int]);
        let (statuses, sizes) = match parse_line(ls[i].as_slice()) {
            Some(p) => p,
            None => {
                proof {
                    assert(total(lv, unfold, (i + 1) as nat) is None);
                    lemma_total_fails(lv, unfold, (i + 1) as nat, lv.len());
                }
                return Err(ParseError);
            },
        };
        let ghost row = Record { statuses: statuses@, sizes: sizes@ };
        let mut all_statuses: Vec<Status> = Vec::new();
        let mut all_sizes: Vec<usize> = Vec::new();
        let times: usize = if unfold {
            5
        } else {
            1
        };
        let mut k: usize = 0;
        while k < times
            invariant
                k <= times,
                times == 5 || times == 1,
                all_statuses@ == copies(statuses@, k as nat),
                all_sizes@ == size_copies(sizes@, k as nat),
            decreases times - k,
        {
            if k > 0 {
                all_statuses.push(Status::Unknown);
            }
            let ghost before = all_statuses@;
            let ghost sizes_before = all_sizes@;
            let mut j: usize = 0;
            while j < statuses.len()
                invariant
                    j <= statuses@.len(),
                    all_statuses@ == before + statuses@.subrange(0, j as int),
                decreases statuses.len() - j,
            {
                all_statuses.push(statuses[j]);
                j += 1;
                proof {
                    assert(all_statuses@ =~= before + statuses@.subrange(0, j as int));
                }
            }
            let mut j: usize = 0;
            while j < sizes.len()
                invariant
                    j <= sizes@.len(),
                    all_sizes@ == sizes_before + sizes@.subrange(0, j as int),
                decreases sizes.len() - j,
            {
                all_sizes.push(sizes[j]);
                j += 1;
                proof {
                    assert(all_sizes@ =~= sizes_before + sizes@.subrange(0, j as int));
                }
            }
            proof {
                assert(statuses@.subrange(0, statuses@.len() as int) =~= statuses@);
                assert(sizes@.subrange(0, sizes@.len() as int) =~= sizes@);
                if k == 0 {
                    assert(all_statuses@ =~= statuses@);
                }
            }
            k += 1;
        }
        proof {
            reveal_with_fuel(copies, 2);
            reveal_with_fuel(size_copies, 2);
            assert(size_copies(sizes@, 1) =~= sizes@);
            assert(all_statuses@ == counted_row(row, unfold).statuses);
            assert(all_sizes@ == counted_row(row, unfold).sizes);
            assert(total(lv, unfold, (i + 1) as nat) is Some);
            assert(can_count(all_statuses@, all_sizes@));
            assert(all_statuses@.len() + 1 <= (all_statuses@.len() + 1) * (all_sizes@.len() + 1)
                && all_sizes@.len() + 1 <= (all_statuses@.len() + 1) * (all_sizes@.len() + 1))
                by (nonlinear_arith);
        }
        let mut cache: VecGrid<Option<u64>> = VecGrid::new(
            all_sizes.len() + 1,
            all_statuses.len() + 1,
            None,
        );
        proof {
            assert forall|a: int, b: int|
                0 <= a <= all_statuses@.len() && 0 <= b <= all_sizes@.len() implies !((
                #[trigger] cache.at(b, a)) is Some && cache.at(b, a)->0 is Some) by {
                cache.lemma_index(b, a);
            }
        }
        let n = status_arrangements(
            &mut cache,
            all_statuses.as_slice(),
            all_sizes.as_slice(),
            0,
            0,
        );
        res = res + n;
        i += 1;
    }
    Ok(res)
}

/// The sum over the rows of the number of ways in which the groups can
/// lie in them.
pub fn day12_1(input: &str) -> (r: Result<u64, ParseError>)
    requires
        can_total(lines_of(input.spec_bytes()), false),
    ensures
        r == answer(lines_of(input.spec_bytes()), false),
{
    count_rows(input, false)
}

/// The same sum for the rows written five times over.
pub fn day12_2(input: &str) -> (r: Result<u64, ParseError>)
    requires
        can_total(lines_of(input.spec_bytes()), true),
    ensures
        r == answer(lines_of(input.spec_bytes()), true),
{
    count_rows(input, true)
}

} // verus!
