//! Splitting and reading of puzzle text, as bytes.

use vstd::prelude::*;
use vstd::string::*;

verus! {

/// Whether `b` is an ASCII decimal digit.
pub open spec fn is_digit(b: u8) -> bool {
    48 <= b <= 57
}

/// Whether `b` is ASCII white space.
pub open spec fn is_space(b: u8) -> bool {
    b == 32 || (9 <= b <= 13)
}

pub fn byte_is_digit(b: u8) -> (r: bool)
    ensures
        r == is_digit(b),
{
    48 <= b && b <= 57
}

pub fn byte_is_space(b: u8) -> (r: bool)
    ensures
        r == is_space(b),
{
    b == 32 || (9 <= b && b <= 13)
}

/// Whether `pat` occurs in `s` at index `i`.
pub open spec fn matches_at(s: Seq<u8>, pat: Seq<u8>, i: int) -> bool {
    &&& 0 <= i
    &&& i + pat.len() <= s.len()
    &&& s.subrange(i, i + pat.len()) == pat
}

/// The first index at or after `from` where `pat` occurs in `s`, or
/// `s.len()` when there is none.
pub open spec fn first_match(s: Seq<u8>, pat: Seq<u8>, from: int) -> int
    decreases s.len() - from,
{
    if from < 0 || from >= s.len() {
        s.len() as int
    } else if matches_at(s, pat, from) {
        from
    } else {
        first_match(s, pat, from + 1)
    }
}

pub proof fn lemma_first_match_bounds(s: Seq<u8>, pat: Seq<u8>, from: int)
    requires
        0 <= from <= s.len(),
    ensures
        from <= first_match(s, pat, from) <= s.len(),
        first_match(s, pat, from) < s.len() ==> matches_at(s, pat, first_match(s, pat, from)),
        forall|i: int| from <= i < first_match(s, pat, from) ==> !matches_at(s, pat, i),
    decreases s.len() - from,
{
    if from >= s.len() {
    } else if matches_at(s, pat, from) {
    } else {
        lemma_first_match_bounds(s, pat, from + 1);
    }
}

/// Whether `pat` occurs in `s` at index `i`.
pub fn occurs_at(s: &[u8], pat: &[u8], i: usize) -> (r: bool)
    ensures
        r == matches_at(s@, pat@, i as int),
{
    if pat.len() > s.len() || i > s.len() - pat.len() {
        return false;
    }
    let mut k: usize = 0;
    while k < pat.len()
        invariant
            k <= pat.len(),
            i + pat.len() <= s.len(),
            forall|j: int| 0 <= j < k ==> s@[i + j] == pat@[j],
        decreases pat.len() - k,
    {
        if s[i + k] != pat[k] {
            proof {
                assert(s@.subrange(i as int, i + pat@.len())[k as int] == s@[i + k]);
            }
            return false;
        }
        k += 1;
    }
    proof {
        assert(s@.subrange(i as int, i + pat@.len()) =~= pat@);
    }
    true
}

/// Index of the first occurrence of `pat` in `s` at or after `from`; the
/// length of `s` when there is none.
pub fn find_from(s: &[u8], pat: &[u8], from: usize) -> (r: usize)
    requires
        from <= s.len(),
    ensures
        r == first_match(s@, pat@, from as int),
        from <= r <= s.len(),
{
    let mut i: usize = from;
    proof {
        lemma_first_match_bounds(s@, pat@, from as int);
    }
    while i < s.len()
        invariant
            from <= i <= s.len(),
            first_match(s@, pat@, from as int) == first_match(s@, pat@, i as int),
        decreases s.len() - i,
    {
        if occurs_at(s, pat, i) {
            return i;
        }
        i += 1;
    }
    i
}


/// The pieces of `s` from `pos` on, cut at each occurrence of `pat`.
pub open spec fn split_from(s: Seq<u8>, pat: Seq<u8>, pos: int) -> Seq<Seq<u8>>
    decreases s.len() - pos,
{
    if pos < 0 || pos > s.len() || pat.len() == 0 {
        Seq::empty()
    } else {
        let i = first_match(s, pat, pos);
        if i >= s.len() {
            seq![s.subrange(pos, s.len() as int)]
        } else {
            proof {
                lemma_first_match_bounds(s, pat, pos);
            }
            seq![s.subrange(pos, i)] + split_from(s, pat, i + pat.len())
        }
    }
}

/// The pieces of `s` between the occurrences of `pat`. A text that ends in
/// `pat` has an empty last piece; the empty text has one empty piece.
pub open spec fn split_on(s: Seq<u8>, pat: Seq<u8>) -> Seq<Seq<u8>> {
    split_from(s, pat, 0)
}

/// The views of the byte vectors of `v`.
pub open spec fn views(v: Seq<Vec<u8>>) -> Seq<Seq<u8>> {
    Seq::new(v.len(), |i: int| v[i]@)
}

/// A copy of `s[from..to]`.
pub fn copy_range(s: &[u8], from: usize, to: usize) -> (r: Vec<u8>)
    requires
        from <= to <= s.len(),
    ensures
        r@ == s@.subrange(from as int, to as int),
{
    let mut out: Vec<u8> = Vec::new();
    let mut i: usize = from;
    while i < to
        invariant
            from <= i <= to <= s.len(),
            out@ == s@.subrange(from as int, i as int),
        decreases to - i,
    {
        out.push(s[i]);
        i += 1;
        proof {
            assert(out@ =~= s@.subrange(from as int, i as int));
        }
    }
    out
}

/// Whether two byte strings are equal.
pub fn bytes_eq(a: &[u8], b: &[u8]) -> (r: bool)
    ensures
        r == (a@ == b@),
{
    if a.len() != b.len() {
        return false;
    }
    let r = occurs_at(a, b, 0);
    proof {
        assert(a@.subrange(0, a@.len() as int) =~= a@);
    }
    r
}

/// Cuts `s` at each occurrence of `pat`.
pub fn split(s: &[u8], pat: &[u8]) -> (r: Vec<Vec<u8>>)
    requires
        pat.len() > 0,
    ensures
        views(r@) == split_on(s@, pat@),
{
    let mut out: Vec<Vec<u8>> = Vec::new();
    let mut pos: usize = 0;
    proof {
        assert(views(out@) =~= Seq::empty());
        assert(split_on(s@, pat@) =~= views(out@) + split_from(s@, pat@, 0));
    }
    loop
        invariant
            pos <= s.len(),
            pat.len() > 0,
            split_on(s@, pat@) == views(out@) + split_from(s@, pat@, pos as int),
        decreases s.len() - pos,
    {
        let i = find_from(s, pat, pos);
        proof {
            lemma_first_match_bounds(s@, pat@, pos as int);
        }
        let ghost before = out@;
        if i >= s.len() {
            out.push(copy_range(s, pos, s.len()));
            proof {
                assert(views(out@) =~= views(before) + seq![s@.subrange(pos as int, s@.len() as int)]);
            }
            return out;
        }
        out.push(copy_range(s, pos, i));
        proof {
            assert(views(out@) =~= views(before) + seq![s@.subrange(pos as int, i as int)]);
            assert(views(before) + (seq![s@.subrange(pos as int, i as int)] + split_from(
                s@,
                pat@,
                i + pat@.len(),
            )) =~= views(out@) + split_from(s@, pat@, i + pat@.len()));
        }
        pos = i + pat.len();
    }
}

/// `l` without one trailing carriage return.
pub open spec fn strip_cr(l: Seq<u8>) -> Seq<u8> {
    if l.len() > 0 && l.last() == 13 {
        l.drop_last()
    } else {
        l
    }
}

/// The lines of `s` from `pos` on.
pub open spec fn lines_from(s: Seq<u8>, pos: int) -> Seq<Seq<u8>>
    decreases s.len() - pos,
{
    if pos < 0 || pos >= s.len() {
        Seq::empty()
    } else {
        let e = first_match(s, seq![10u8], pos);
        if e >= s.len() {
            seq![s.subrange(pos, s.len() as int)]
        } else {
            proof {
                lemma_first_match_bounds(s, seq![10u8], pos);
            }
            seq![strip_cr(s.subrange(pos, e))] + lines_from(s, e + 1)
        }
    }
}

/// The lines of `s`: each ends at a line feed, which is left out together
/// with a carriage return before it; a last line without line feed counts
/// when it is not empty.
pub open spec fn lines_of(s: Seq<u8>) -> Seq<Seq<u8>> {
    lines_from(s, 0)
}

/// Index of the first line feed in `s` at or after `from`, or the length.
pub fn find_newline(s: &[u8], from: usize) -> (r: usize)
    requires
        from <= s.len(),
    ensures
        r == first_match(s@, seq![10u8], from as int),
        from <= r <= s.len(),
        r < s.len() ==> s@[r as int] == 10,
        forall|i: int| from <= i < r ==> s@[i] != 10,
{
    let mut i: usize = from;
    proof {
        lemma_first_match_bounds(s@, seq![10u8], from as int);
    }
    while i < s.len()
        invariant
            from <= i <= s.len(),
            first_match(s@, seq![10u8], from as int) == first_match(s@, seq![10u8], i as int),
            forall|j: int| from <= j < i ==> s@[j] != 10,
        decreases s.len() - i,
    {
        proof {
            assert(s@.subrange(i as int, i + 1) =~= seq![s@[i as int]]);
            assert(seq![s@[i as int]][0] == s@[i as int]);
            assert(seq![10u8][0] == 10u8);
        }
        if s[i] == 10 {
            return i;
        }
        i += 1;
    }
    i
}

/// The lines of `s`.
pub fn lines(s: &[u8]) -> (r: Vec<Vec<u8>>)
    ensures
        views(r@) == lines_of(s@),
{
    let mut out: Vec<Vec<u8>> = Vec::new();
    let mut pos: usize = 0;
    proof {
        assert(lines_of(s@) =~= views(out@) + lines_from(s@, 0));
    }
    while pos < s.len()
        invariant
            pos <= s.len(),
            lines_of(s@) == views(out@) + lines_from(s@, pos as int),
        decreases s.len() - pos,
    {
        let e = find_newline(s, pos);
        let ghost before = out@;
        if e >= s.len() {
            out.push(copy_range(s, pos, s.len()));
            proof {
                assert(views(out@) =~= views(before) + seq![s@.subrange(pos as int, s@.len() as int)]);
                assert(lines_from(s@, s@.len() as int) =~= Seq::empty());
                assert(lines_of(s@) =~= views(out@) + lines_from(s@, s@.len() as int));
            }
            pos = s.len();
        } else {
            let stop: usize = if e > pos && s[e - 1] == 13 {
                (e - 1) as usize
            } else {
                e
            };
            out.push(copy_range(s, pos, stop));
            proof {
                let piece = s@.subrange(pos as int, e as int);
                assert(strip_cr(piece) =~= s@.subrange(pos as int, stop as int));
                assert(views(out@) =~= views(before) + seq![strip_cr(piece)]);
                assert(views(before) + (seq![strip_cr(piece)] + lines_from(s@, e + 1)) =~= views(
                    out@,
                ) + lines_from(s@, e + 1));
            }
            pos = e + 1;
        }
    }
    proof {
        assert(lines_from(s@, pos as int) =~= Seq::empty());
        assert(views(out@) + Seq::<Seq<u8>>::empty() =~= views(out@));
    }
    out
}

/// The number that the decimal digits of `s` spell.
pub open spec fn digits_value(s: Seq<u8>) -> int
    decreases s.len(),
{
    if s.len() == 0 {
        0
    } else {
        digits_value(s.drop_last()) * 10 + (s.last() - 48)
    }
}

/// Whether every byte of `s` is a decimal digit.
pub open spec fn all_digits(s: Seq<u8>) -> bool {
    forall|i: int| 0 <= i < s.len() ==> is_digit(#[trigger] s[i])
}

/// The integer that `s` spells, if it is one between `min` and `max`: an
/// optional sign (`-` only where `min` is negative), then one or more digits.
pub open spec fn parse_int(s: Seq<u8>, min: int, max: int) -> Option<int> {
    let neg = min < 0 && s.len() > 0 && s[0] == 45;
    let body = if s.len() > 0 && (s[0] == 43 || neg) {
        s.subrange(1, s.len() as int)
    } else {
        s
    };
    let v = if neg {
        -digits_value(body)
    } else {
        digits_value(body)
    };
    if body.len() > 0 && all_digits(body) && min <= v <= max {
        Some(v)
    } else {
        None
    }
}

pub proof fn lemma_digits_monotone(s: Seq<u8>, k: int)
    requires
        all_digits(s),
        0 <= k <= s.len(),
    ensures
        0 <= digits_value(s.subrange(0, k)) <= digits_value(s),
    decreases s.len(),
{
    if s.len() == 0 {
        assert(s.subrange(0, k) =~= s);
    } else if k == s.len() {
        assert(s.subrange(0, k) =~= s);
        lemma_digits_monotone(s.drop_last(), k - 1);
        assert(s.drop_last().subrange(0, k - 1) =~= s.drop_last());
    } else {
        lemma_digits_monotone(s.drop_last(), k);
        assert(s.drop_last().subrange(0, k) =~= s.subrange(0, k));
    }
}

/// Reads the digits `s[from..]` as a number of at most `limit`.
fn parse_digits(s: &[u8], from: usize, limit: u64) -> (r: Option<u64>)
    requires
        from <= s.len(),
    ensures
        r is Some <==> from < s.len() && all_digits(s@.subrange(from as int, s@.len() as int))
            && digits_value(s@.subrange(from as int, s@.len() as int)) <= limit,
        r is Some ==> r->0 == digits_value(s@.subrange(from as int, s@.len() as int)),
{
    let ghost body = s@.subrange(from as int, s@.len() as int);
    if from >= s.len() {
        return None;
    }
    let mut acc: u64 = 0;
    let mut i: usize = from;
    proof {
        assert(body.subrange(0, 0) =~= Seq::empty());
    }
    while i < s.len()
        invariant
            from <= i <= s.len(),
            body == s@.subrange(from as int, s@.len() as int),
            all_digits(body.subrange(0, i - from)),
            acc == digits_value(body.subrange(0, i - from)),
            acc <= limit,
        decreases s.len() - i,
    {
        let b = s[i];
        if !byte_is_digit(b) {
            proof {
                assert(body[i - from] == b);
            }
            return None;
        }
        let d: u64 = (b - 48) as u64;
        proof {
            let next = body.subrange(0, i - from + 1);
            assert(next.drop_last() =~= body.subrange(0, i - from));
            assert(next.last() == b);
            assert forall|j: int| 0 <= j < next.len() implies is_digit(#[trigger] next[j]) by {
                if j < i - from {
                    assert(body.subrange(0, i - from)[j] == next[j]);
                }
            }
            if all_digits(body) {
                lemma_digits_monotone(body, i - from + 1);
            }
        }
        let wide: u128 = acc as u128 * 10 + d as u128;
        if wide > limit as u128 {
            return None;
        }
        acc = acc * 10 + d;
        i += 1;
    }
    proof {
        assert(body.subrange(0, i - from) =~= body);
    }
    Some(acc)
}


/// Reads `s` as an `i64`, as `str::parse` does.
pub fn parse_i64(s: &[u8]) -> (r: Option<i64>)
    ensures
        match r {
            Some(v) => parse_int(s@, i64::MIN as int, i64::MAX as int) == Some(v as int),
            None => parse_int(s@, i64::MIN as int, i64::MAX as int) is None,
        },
{
    if s.len() == 0 {
        return None;
    }
    if s[0] == 45 {
        match parse_digits(s, 1, 9223372036854775808) {
            Some(v) => {
                if v == 9223372036854775808 {
                    Some(i64::MIN)
                } else {
                    Some(-(v as i64))
                }
            },
            None => None,
        }
    } else if s[0] == 43 {
        match parse_digits(s, 1, 9223372036854775807) {
            Some(v) => Some(v as i64),
            None => None,
        }
    } else {
        proof {
            assert(s@.subrange(0, s@.len() as int) =~= s@);
        }
        match parse_digits(s, 0, 9223372036854775807) {
            Some(v) => Some(v as i64),
            None => None,
        }
    }
}

/// Reads `s` as a `u64`, as `str::parse` does.
pub fn parse_u64(s: &[u8]) -> (r: Option<u64>)
    ensures
        match r {
            Some(v) => parse_int(s@, 0, u64::MAX as int) == Some(v as int),
            None => parse_int(s@, 0, u64::MAX as int) is None,
        },
{
    if s.len() == 0 {
        return None;
    }
    if s[0] == 43 {
        proof {
            if all_digits(s@.subrange(1, s@.len() as int)) {
                lemma_digits_monotone(s@.subrange(1, s@.len() as int), 0);
            }
        }
        parse_digits(s, 1, u64::MAX)
    } else {
        proof {
            assert(s@.subrange(0, s@.len() as int) =~= s@);
            if all_digits(s@) {
                lemma_digits_monotone(s@, 0);
            }
        }
        parse_digits(s, 0, u64::MAX)
    }
}

/// Reads `s` as an `i32`.
pub fn parse_i32(s: &[u8]) -> (r: Option<i32>)
    ensures
        match r {
            Some(v) => parse_int(s@, i32::MIN as int, i32::MAX as int) == Some(v as int),
            None => parse_int(s@, i32::MIN as int, i32::MAX as int) is None,
        },
{
    match parse_i64(s) {
        Some(v) => {
            if -2147483648 <= v && v <= 2147483647 {
                Some(v as i32)
            } else {
                None
            }
        },
        None => None,
    }
}

/// Reads `s` as an `i16`.
pub fn parse_i16(s: &[u8]) -> (r: Option<i16>)
    ensures
        match r {
            Some(v) => parse_int(s@, i16::MIN as int, i16::MAX as int) == Some(v as int),
            None => parse_int(s@, i16::MIN as int, i16::MAX as int) is None,
        },
{
    match parse_i64(s) {
        Some(v) => {
            if -32768 <= v && v <= 32767 {
                Some(v as i16)
            } else {
                None
            }
        },
        None => None,
    }
}

/// Reads `s` as a `u32`.
pub fn parse_u32(s: &[u8]) -> (r: Option<u32>)
    ensures
        match r {
            Some(v) => parse_int(s@, 0, u32::MAX as int) == Some(v as int),
            None => parse_int(s@, 0, u32::MAX as int) is None,
        },
{
    match parse_u64(s) {
        Some(v) => {
            if v <= 4294967295 {
                Some(v as u32)
            } else {
                None
            }
        },
        None => None,
    }
}

/// Reads `s` as a `usize`.
pub fn parse_usize(s: &[u8]) -> (r: Option<usize>)
    ensures
        match r {
            Some(v) => parse_int(s@, 0, usize::MAX as int) == Some(v as int),
            None => parse_int(s@, 0, usize::MAX as int) is None,
        },
{
    match parse_u64(s) {
        Some(v) => {
            if v <= usize::MAX as u64 {
                Some(v as usize)
            } else {
                None
            }
        },
        None => None,
    }
}

/// The first index at or after `from` whose byte is white space (when
/// `space` holds) or is not (when it does not); `s.len()` when none is.
pub open spec fn first_space_is(s: Seq<u8>, space: bool, from: int) -> int
    decreases s.len() - from,
{
    if from < 0 || from >= s.len() {
        s.len() as int
    } else if is_space(s[from]) == space {
        from
    } else {
        first_space_is(s, space, from + 1)
    }
}

pub proof fn lemma_first_space_bounds(s: Seq<u8>, space: bool, from: int)
    requires
        0 <= from <= s.len(),
    ensures
        from <= first_space_is(s, space, from) <= s.len(),
        first_space_is(s, space, from) < s.len() ==> is_space(s[first_space_is(s, space, from)])
            == space,
        forall|i: int|
            from <= i < first_space_is(s, space, from) ==> is_space(#[trigger] s[i]) != space,
    decreases s.len() - from,
{
    if from < s.len() && is_space(s[from]) != space {
        lemma_first_space_bounds(s, space, from + 1);
    }
}

/// The words of `s` from `pos` on: the longest runs without white space.
pub open spec fn tokens_from(s: Seq<u8>, pos: int) -> Seq<Seq<u8>>
    decreases s.len() - pos,
{
    if pos < 0 || pos >= s.len() {
        Seq::empty()
    } else {
        let b = first_space_is(s, false, pos);
        let e = first_space_is(s, true, b);
        if b >= s.len() {
            Seq::empty()
        } else {
            proof {
                lemma_first_space_bounds(s, false, pos);
                lemma_first_space_bounds(s, true, b);
            }
            seq![s.subrange(b, e)] + tokens_from(s, e)
        }
    }
}

/// The words of `s`, as `split_whitespace` gives them for ASCII text.
pub open spec fn tokens_of(s: Seq<u8>) -> Seq<Seq<u8>> {
    tokens_from(s, 0)
}

/// Index of the first byte at or after `from` that is white space, or is
/// not, as `space` says.
pub fn find_space_is(s: &[u8], space: bool, from: usize) -> (r: usize)
    requires
        from <= s.len(),
    ensures
        r == first_space_is(s@, space, from as int),
        from <= r <= s.len(),
{
    let mut i: usize = from;
    while i < s.len()
        invariant
            from <= i <= s.len(),
            first_space_is(s@, space, from as int) == first_space_is(s@, space, i as int),
        decreases s.len() - i,
    {
        if byte_is_space(s[i]) == space {
            return i;
        }
        i += 1;
    }
    i
}

/// The words of `s`.
pub fn tokens(s: &[u8]) -> (r: Vec<Vec<u8>>)
    ensures
        views(r@) == tokens_of(s@),
{
    let mut out: Vec<Vec<u8>> = Vec::new();
    let mut pos: usize = 0;
    proof {
        assert(tokens_of(s@) =~= views(out@) + tokens_from(s@, 0));
    }
    while pos < s.len()
        invariant
            pos <= s.len(),
            tokens_of(s@) == views(out@) + tokens_from(s@, pos as int),
        decreases s.len() - pos,
    {
        let b = find_space_is(s, false, pos);
        if b >= s.len() {
            proof {
                assert(tokens_from(s@, pos as int) =~= tokens_from(s@, s@.len() as int));
            }
            pos = s.len();
        } else {
            let e = find_space_is(s, true, b);
            let ghost before = out@;
            proof {
                lemma_first_space_bounds(s@, false, pos as int);
                lemma_first_space_bounds(s@, true, b as int);
            }
            out.push(copy_range(s, b, e));
            proof {
                let piece = s@.subrange(b as int, e as int);
                assert(views(out@) =~= views(before) + seq![piece]);
                assert(views(before) + (seq![piece] + tokens_from(s@, e as int)) =~= views(out@)
                    + tokens_from(s@, e as int));
            }
            pos = e;
        }
    }
    proof {
        assert(views(out@) + Seq::<Seq<u8>>::empty() =~= views(out@));
    }
    out
}

/// Where the white space at the end of `s` begins.
pub open spec fn trim_end_index(s: Seq<u8>) -> int
    decreases s.len(),
{
    if s.len() == 0 || !is_space(s.last()) {
        s.len() as int
    } else {
        trim_end_index(s.drop_last())
    }
}

/// `s` without the white space at its two ends.
pub open spec fn trimmed(s: Seq<u8>) -> Seq<u8> {
    let b = first_space_is(s, false, 0);
    let e = trim_end_index(s);
    if b >= e {
        Seq::empty()
    } else {
        s.subrange(b, e)
    }
}

/// `s` without the white space at its two ends.
pub fn trim(s: &[u8]) -> (r: Vec<u8>)
    ensures
        r@ == trimmed(s@),
{
    let b = find_space_is(s, false, 0);
    let mut e: usize = s.len();
    proof {
        assert(s@.subrange(0, e as int) =~= s@);
    }
    while e > 0 && byte_is_space(s[e - 1])
        invariant
            e <= s.len(),
            trim_end_index(s@) == trim_end_index(s@.subrange(0, e as int)),
        decreases e,
    {
        proof {
            assert(s@.subrange(0, e as int).drop_last() =~= s@.subrange(0, e - 1));
        }
        e -= 1;
    }
    if b >= e {
        Vec::new()
    } else {
        copy_range(s, b, e)
    }
}

/// What follows `pre` in `s`, when `s` begins with `pre`.
pub open spec fn after_prefix(s: Seq<u8>, pre: Seq<u8>) -> Option<Seq<u8>> {
    if matches_at(s, pre, 0) {
        Some(s.subrange(pre.len() as int, s.len() as int))
    } else {
        None
    }
}

/// What follows `pre` in `s`, when `s` begins with `pre`.
pub fn strip_prefix(s: &[u8], pre: &[u8]) -> (r: Option<Vec<u8>>)
    ensures
        match r {
            Some(rest) => after_prefix(s@, pre@) == Some(rest@),
            None => after_prefix(s@, pre@) is None,
        },
{
    if occurs_at(s, pre, 0) {
        Some(copy_range(s, pre.len(), s.len()))
    } else {
        None
    }
}

/// The parts of `s` before and after the first occurrence of `pat`.
pub open spec fn cut_once(s: Seq<u8>, pat: Seq<u8>) -> Option<(Seq<u8>, Seq<u8>)> {
    let i = first_match(s, pat, 0);
    if i < s.len() {
        Some((s.subrange(0, i), s.subrange(i + pat.len(), s.len() as int)))
    } else {
        None
    }
}

/// The parts of `s` before and after the first occurrence of `pat`.
pub fn split_once(s: &[u8], pat: &[u8]) -> (r: Option<(Vec<u8>, Vec<u8>)>)
    ensures
        match r {
            Some(p) => cut_once(s@, pat@) == Some((p.0@, p.1@)),
            None => cut_once(s@, pat@) is None,
        },
{
    let i = find_from(s, pat, 0);
    proof {
        lemma_first_match_bounds(s@, pat@, 0);
    }
    if i < s.len() {
        Some((copy_range(s, 0, i), copy_range(s, i + pat.len(), s.len())))
    } else {
        None
    }
}


/// There is a line, and all lines are as long as the first.
pub open spec fn is_rect(lines: Seq<Seq<u8>>) -> bool {
    &&& lines.len() > 0
    &&& forall|i: int| 0 <= i < lines.len() ==> (#[trigger] lines[i]).len() == lines[0].len()
}

/// The bytes of the lines of a rectangle, row after row: the byte at
/// column `x` of line `y` stands at `y * width + x`.
pub open spec fn flat(lines: Seq<Seq<u8>>) -> Seq<u8> {
    Seq::new(
        lines.len() * lines[0].len(),
        |i: int| lines[i / (lines[0].len() as int)][i % (lines[0].len() as int)],
    )
}

/// Where a byte of a rectangle stands in its flat form.
pub proof fn lemma_flat_index(lines: Seq<Seq<u8>>, x: int, y: int)
    requires
        is_rect(lines),
        0 <= y < lines.len(),
        0 <= x < lines[0].len(),
    ensures
        0 <= y * lines[0].len() + x < flat(lines).len(),
        flat(lines)[y * lines[0].len() + x] == lines[y][x],
{
    let w = lines[0].len() as int;
    let h = lines.len() as int;
    assert(0 <= y * w && y * w + w <= h * w) by (nonlinear_arith)
        requires
            0 <= y < h,
            0 <= w,
    ;
    vstd::arithmetic::div_mod::lemma_fundamental_div_mod_converse(y * w + x, w, y, x);
}

/// The bytes of the lines of a rectangle, row after row.
pub fn rect_cells(lines: &Vec<Vec<u8>>) -> (r: Vec<u8>)
    requires
        is_rect(views(lines@)),
    ensures
        r@ == flat(views(lines@)),
        r.len() == lines.len() * lines@[0].len(),
{
    let ghost ls = views(lines@);
    let w: usize = lines[0].len();
    let mut out: Vec<u8> = Vec::new();
    let mut y: usize = 0;
    while y < lines.len()
        invariant
            y <= lines.len(),
            ls == views(lines@),
            is_rect(ls),
            w == ls[0].len(),
            out.len() == y * w,
            forall|i: int| 0 <= i < out.len() ==> #[trigger] out@[i] == ls[i / (w as int)][i % (w as int)],
        decreases lines.len() - y,
    {
        let line = &lines[y];
        assert(line@ == ls[y as int]);
        let mut x: usize = 0;
        while x < w
            invariant
                y < lines.len(),
                ls == views(lines@),
                is_rect(ls),
                w == ls[0].len(),
                line@ == ls[y as int],
                x <= w,
                out.len() == y * w + x,
                forall|i: int|
                    0 <= i < out.len() ==> #[trigger] out@[i] == ls[i / (w as int)][i % (w as int)],
            decreases w - x,
        {
            proof {
                assert(0 <= y * w) by (nonlinear_arith)
                    requires
                        0 <= y,
                        0 <= w,
                ;
                vstd::arithmetic::div_mod::lemma_fundamental_div_mod_converse(
                    y * w + x,
                    w as int,
                    y as int,
                    x as int,
                );
            }
            out.push(line[x]);
            x += 1;
        }
        proof {
            assert((y + 1) * w == y * w + w) by (nonlinear_arith);
        }
        y += 1;
    }
    proof {
        assert(out@ =~= flat(ls));
    }
    out
}


/// The characters that the ASCII bytes `b` stand for.
pub open spec fn ascii_chars(b: Seq<u8>) -> Seq<char> {
    Seq::new(b.len(), |i: int| b[i] as char)
}

/// Whether every byte of `b` is an ASCII character.
pub open spec fn all_ascii(b: Seq<u8>) -> bool {
    forall|i: int| 0 <= i < b.len() ==> #[trigger] b[i] < 128
}

/// `String::push`: appends one character.
#[verifier::external_body]
pub(crate) fn string_push(s: &mut String, c: char)
    ensures
        final(s)@ == old(s)@.push(c),
{
    s.push(c)
}

/// The string of the ASCII bytes `b`.
pub fn ascii_string(b: &[u8]) -> (r: String)
    requires
        all_ascii(b@),
    ensures
        r@ == ascii_chars(b@),
{
    let mut out = String::new();
    let mut i: usize = 0;
    while i < b.len()
        invariant
            i <= b.len(),
            all_ascii(b@),
            out@ == ascii_chars(b@.subrange(0, i as int)),
        decreases b.len() - i,
    {
        let c = b[i] as char;
        string_push(&mut out, c);
        i += 1;
        proof {
            assert(out@ =~= ascii_chars(b@.subrange(0, i as int)));
        }
    }
    proof {
        assert(b@.subrange(0, i as int) =~= b@);
    }
    out
}

/// A text whose characters are those of the ASCII bytes `b` has exactly
/// the bytes `b`.
pub proof fn lemma_ascii_bytes(s: &str, b: Seq<u8>)
    requires
        all_ascii(b),
        s@ == ascii_chars(b),
    ensures
        s.spec_bytes() == b,
{
    assert(is_ascii(s)) by {
        assert forall|i: int| 0 <= i < s@.len() implies '\0' <= #[trigger] s@[i] <= '\u{7f}' by {
            assert(s@[i] == b[i] as char);
        }
    }
    is_ascii_spec_bytes(s);
    assert(s.spec_bytes() =~= b) by {
        assert forall|i: int| 0 <= i < b.len() implies s.spec_bytes()[i] == b[i] by {
            assert(s@[i] == b[i] as char);
        }
    }
}


/// Where the digits that begin at `i` end.
pub open spec fn digits_end(s: Seq<u8>, i: int) -> int
    decreases s.len() - i,
{
    if i < 0 || i >= s.len() || !is_digit(s[i]) {
        i
    } else {
        digits_end(s, i + 1)
    }
}

pub proof fn lemma_digits_end(s: Seq<u8>, i: int)
    requires
        0 <= i <= s.len(),
    ensures
        i <= digits_end(s, i) <= s.len(),
        all_digits(s.subrange(i, digits_end(s, i))),
        digits_value(s.subrange(i, digits_end(s, i))) >= 0,
    decreases s.len() - i,
{
    if i < s.len() && is_digit(s[i]) {
        lemma_digits_end(s, i + 1);
        let e = digits_end(s, i);
        assert forall|k: int| 0 <= k < e - i implies is_digit(#[trigger] s.subrange(i, e)[k]) by {
            if k > 0 {
                assert(s.subrange(i + 1, e)[k - 1] == s.subrange(i, e)[k]);
            }
        }
    }
    lemma_digits_monotone(s.subrange(i, digits_end(s, i)), 0);
}

/// The number without sign that stands in `s` at `i`, with the index
/// behind it: the digits from `i` on, as many as there are; `None` where
/// no digit stands at `i` or the number is greater than `max`.
pub open spec fn unsigned_at(s: Seq<u8>, i: int, max: int) -> Option<(int, int)> {
    let to = digits_end(s, i);
    let v = digits_value(s.subrange(i, to));
    if 0 <= i < to && v <= max {
        Some((v, to))
    } else {
        None
    }
}

/// The number without sign that stands in `s` at `i`, with the index
/// behind it.
pub fn read_unsigned(s: &[u8], i: usize, max: u64) -> (r: Option<(u64, usize)>)
    requires
        i <= s.len(),
    ensures
        match r {
            Some((v, to)) => unsigned_at(s@, i as int, max as int) == Some((v as int, to as int))
                && i < to <= s.len() && v <= max,
            None => unsigned_at(s@, i as int, max as int) is None,
        },
{
    let mut to: usize = i;
    while to < s.len() && byte_is_digit(s[to])
        invariant
            i <= to <= s.len(),
            digits_end(s@, i as int) == digits_end(s@, to as int),
        decreases s.len() - to,
    {
        to += 1;
    }
    proof {
        lemma_digits_end(s@, i as int);
    }
    if i >= to {
        return None;
    }
    proof {
        assert(s@.subrange(i as int, to as int) =~= s@.subrange(0, to as int).subrange(
            i as int,
            to as int,
        ));
    }
    let head = vstd::slice::slice_subrange(s, 0, to);
    parse_digits_to(head, i, max)
}

/// Reads the digits `s[from..]`, of which there is one at least, as a
/// number of at most `limit`.
fn parse_digits_to(s: &[u8], from: usize, limit: u64) -> (r: Option<(u64, usize)>)
    requires
        from < s.len(),
        all_digits(s@.subrange(from as int, s@.len() as int)),
    ensures
        match r {
            Some((v, to)) => v == digits_value(s@.subrange(from as int, s@.len() as int)) && v
                <= limit && to == s@.len(),
            None => digits_value(s@.subrange(from as int, s@.len() as int)) > limit,
        },
{
    match parse_digits(s, from, limit) {
        Some(v) => Some((v, s.len())),
        None => None,
    }
}


/// Whether `b` is a blank, a tab, a line feed or a carriage return.
pub open spec fn is_gap(b: u8) -> bool {
    b == 32 || b == 9 || b == 10 || b == 13
}

/// Where the gap ends that begins at `i`.
pub open spec fn gap_end(s: Seq<u8>, i: int) -> int
    decreases s.len() - i,
{
    if 0 <= i < s.len() && is_gap(s[i]) {
        gap_end(s, i + 1)
    } else {
        i
    }
}

/// A gap ends at or behind its beginning, and inside the text.
pub proof fn lemma_gap_end(s: Seq<u8>, i: int)
    requires
        0 <= i <= s.len(),
    ensures
        i <= gap_end(s, i) <= s.len(),
    decreases s.len() - i,
{
    if i < s.len() && is_gap(s[i]) {
        lemma_gap_end(s, i + 1);
    }
}

/// Where the gap ends that begins at `i`.
pub fn skip_gap(s: &[u8], i: usize) -> (r: usize)
    requires
        i <= s@.len(),
    ensures
        r == gap_end(s@, i as int),
        i <= r <= s@.len(),
{
    let mut j: usize = i;
    while j < s.len() && (s[j] == 32 || s[j] == 9 || s[j] == 10 || s[j] == 13)
        invariant
            i <= j <= s@.len(),
            gap_end(s@, i as int) == gap_end(s@, j as int),
        decreases s.len() - j,
    {
        j += 1;
    }
    j
}

} // verus!
