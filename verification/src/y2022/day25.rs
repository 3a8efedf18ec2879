//! Balanced quinary numerals: digits `=`, `-`, `0`, `1`, `2` for -2 to 2.

use crate::text::{all_ascii, ascii_chars, ascii_string, lemma_ascii_bytes, lines, lines_of, views};
use vstd::prelude::*;
use vstd::string::*;

verus! {

/// Whether `c` is one of the five digits.
pub open spec fn is_snafu_digit(c: u8) -> bool {
    c == 61 || c == 45 || c == 48 || c == 49 || c == 50
}

/// The value of the digit `c`.
pub open spec fn digit_value(c: u8) -> int {
    if c == 61 {
        -2
    } else if c == 45 {
        -1
    } else {
        c - 48
    }
}

/// The digit of the value `d`, which lies between -2 and 2.
pub open spec fn digit_byte(d: int) -> u8 {
    if d == -2 {
        61
    } else if d == -1 {
        45
    } else {
        (48 + d) as u8
    }
}

/// Whether `s` is a numeral: digits only.
pub open spec fn is_snafu(s: Seq<u8>) -> bool {
    forall|i: int| 0 <= i < s.len() ==> is_snafu_digit(#[trigger] s[i])
}

/// The number that the numeral `s` denotes; the empty numeral denotes 0.
pub open spec fn snafu_value(s: Seq<u8>) -> int
    decreases s.len(),
{
    if s.len() == 0 {
        0
    } else {
        snafu_value(s.drop_last()) * 5 + digit_value(s.last())
    }
}

/// The last digit of the numeral of `n`: the value between -2 and 2 that
/// differs from `n` by a multiple of 5.
pub open spec fn low_digit(n: int) -> int {
    (n + 2) % 5 - 2
}

/// The numeral of `n`, without leading zeros.
pub open spec fn snafu_digits(n: int) -> Seq<u8>
    decreases
            (if n < 0 {
                -n
            } else {
                n
            }),
{
    if -2 <= n <= 2 {
        seq![digit_byte(n)]
    } else {
        snafu_digits((n - low_digit(n)) / 5).push(digit_byte(low_digit(n)))
    }
}

/// 5 to the power of `k`.
pub open spec fn pow5(k: nat) -> int
    decreases k,
{
    if k == 0 {
        1
    } else {
        5 * pow5((k - 1) as nat)
    }
}

/// A numeral of `k` digits denotes a number of at most half of `5^k`.
pub proof fn lemma_value_bound(s: Seq<u8>)
    requires
        is_snafu(s),
    ensures
        -pow5(s.len()) < 2 * snafu_value(s) < pow5(s.len()),
    decreases s.len(),
{
    if s.len() > 0 {
        let t = s.drop_last();
        assert forall|i: int| 0 <= i < t.len() implies is_snafu_digit(#[trigger] t[i]) by {
            assert(t[i] == s[i]);
        }
        lemma_value_bound(t);
        assert(is_snafu_digit(s[s.len() - 1]));
    }
}

/// The powers of 5 grow, and the 27th fits in 63 bits.
pub proof fn lemma_pow5(j: nat, k: nat)
    requires
        j <= k <= 27,
    ensures
        0 < pow5(j) <= pow5(k) <= 7450580596923828125,
{
    reveal_with_fuel(pow5, 28);
    assert(pow5(27) == 7450580596923828125);
    lemma_pow5_grows(j, k);
    lemma_pow5_grows(k, 27);
}

proof fn lemma_pow5_grows(j: nat, k: nat)
    requires
        j <= k,
    ensures
        0 < pow5(j) <= pow5(k),
    decreases k,
{
    if k == 0 {
    } else if j == k {
        lemma_pow5_grows((k - 1) as nat, (k - 1) as nat);
    } else {
        lemma_pow5_grows(j, (k - 1) as nat);
    }
}

/// Reading the numeral of a number gives the number back.
pub proof fn lemma_round_trip(n: int)
    ensures
        is_snafu(snafu_digits(n)),
        snafu_digits(n).len() > 0,
        snafu_value(snafu_digits(n)) == n,
    decreases
            (if n < 0 {
                -n
            } else {
                n
            }),
{
    if -2 <= n <= 2 {
        let s = seq![digit_byte(n)];
        assert(s.drop_last() =~= Seq::<u8>::empty());
        assert(snafu_value(s.drop_last()) == 0);
        assert(s.last() == digit_byte(n));
    } else {
        let d = low_digit(n);
        let m = (n - d) / 5;
        lemma_round_trip(m);
        let s = snafu_digits(m).push(digit_byte(d));
        assert(s.drop_last() =~= snafu_digits(m));
        assert(s.last() == digit_byte(d));
        assert forall|i: int| 0 <= i < s.len() implies is_snafu_digit(#[trigger] s[i]) by {
            if i < s.len() - 1 {
                assert(s[i] == snafu_digits(m)[i]);
            }
        }
    }
}

/// The number that the numeral `line` denotes.
pub fn parse_line(line: &str) -> (r: i64)
    requires
        is_snafu(line.spec_bytes()),
        line.spec_bytes().len() <= 27,
    ensures
        r == snafu_value(line.spec_bytes()),
{
    parse_digits(line.as_bytes())
}

/// The number that the numeral `s` denotes.
pub fn parse_digits(s: &[u8]) -> (r: i64)
    requires
        is_snafu(s@),
        s@.len() <= 27,
    ensures
        r == snafu_value(s@),
{
    let mut acc: i64 = 0;
    let mut i: usize = 0;
    proof {
        assert(s@.subrange(0, 0) =~= Seq::<u8>::empty());
    }
    while i < s.len()
        invariant
            i <= s.len() <= 27,
            is_snafu(s@),
            acc == snafu_value(s@.subrange(0, i as int)),
        decreases s.len() - i,
    {
        let c = s[i];
        let d: i64 = if c == 61 {
            -2
        } else if c == 45 {
            -1
        } else {
            (c - 48) as i64
        };
        proof {
            let before = s@.subrange(0, i as int);
            let after = s@.subrange(0, i + 1);
            assert(after.drop_last() =~= before);
            assert(after.last() == c);
            assert forall|j: int| 0 <= j < before.len() implies is_snafu_digit(
                #[trigger] before[j],
            ) by {
                assert(before[j] == s@[j]);
            }
            assert forall|j: int| 0 <= j < after.len() implies is_snafu_digit(
                #[trigger] after[j],
            ) by {
                assert(after[j] == s@[j]);
            }
            lemma_value_bound(before);
            lemma_value_bound(after);
            lemma_pow5(i as nat, (i + 1) as nat);
            lemma_pow5((i + 1) as nat, 27);
        }
        acc = acc * 5 + d;
        i += 1;
    }
    proof {
        assert(s@.subrange(0, i as int) =~= s@);
    }
    acc
}

/// The numeral of `n`.
pub fn to_snafu(n: i64) -> (r: String)
    ensures
        r@ == ascii_chars(snafu_digits(n as int)),
{
    let digits = to_digits(n);
    proof {
        lemma_round_trip(n as int);
    }
    ascii_string(digits.as_slice())
}

/// The digits of the numeral of `n`.
pub fn to_digits(n: i64) -> (r: Vec<u8>)
    ensures
        r@ == snafu_digits(n as int),
{
    let mut low_first: Vec<u8> = Vec::new();
    let mut m: i128 = n as i128;
    proof {
        assert(snafu_digits(m as int) + low_first@.reverse() =~= snafu_digits(n as int));
    }
    while m < -2 || m > 2
        invariant
            snafu_digits(n as int) == snafu_digits(m as int) + low_first@.reverse(),
            i64::MIN <= m <= i64::MAX,
        decreases
                (if m < 0 {
                    -(m as int)
                } else {
                    m as int
                }),
    {
        let d: i128 = if m >= 0 {
            (m % 5 + 2) % 5 - 2
        } else {
            let k: i128 = (-(m + 2)) % 5;
            (5 - k) % 5 - 2
        };
        assert(d == low_digit(m as int));
        let x: i128 = m - d;
        let q: i128 = if x >= 0 {
            x / 5
        } else {
            -((-x) / 5)
        };
        assert(q == (m - d) / 5);
        let b: u8 = if d == -2 {
            61
        } else if d == -1 {
            45
        } else {
            (48 + d) as u8
        };
        let ghost before = low_first@;
        low_first.push(b);
        proof {
            assert(low_first@.reverse() =~= seq![b] + before.reverse());
            assert(snafu_digits(q as int).push(b) + before.reverse() =~= snafu_digits(q as int)
                + low_first@.reverse());
        }
        m = q;
    }
    let b: u8 = if m == -2 {
        61
    } else if m == -1 {
        45
    } else {
        (48 + m) as u8
    };
    let ghost before = low_first@;
    low_first.push(b);
    let mut out: Vec<u8> = Vec::new();
    let mut i: usize = low_first.len();
    while i > 0
        invariant
            i <= low_first.len(),
            out@ == low_first@.reverse().subrange(0, low_first.len() - i),
        decreases i,
    {
        i -= 1;
        out.push(low_first[i]);
        proof {
            assert(out@ =~= low_first@.reverse().subrange(0, low_first.len() - i));
        }
    }
    proof {
        assert(low_first@.reverse() =~= seq![b] + before.reverse());
        assert(out@ =~= low_first@.reverse());
    }
    out
}

/// The sum of the first `k` numerals of `ls`.
pub open spec fn sum_of(ls: Seq<Seq<u8>>, k: nat) -> int
    decreases k,
{
    if k == 0 {
        0
    } else {
        sum_of(ls, (k - 1) as nat) + snafu_value(ls[k - 1])
    }
}

/// Whether the text is a list of numerals whose sums can be computed in 64
/// bits.
pub open spec fn is_list(s: Seq<u8>) -> bool {
    let ls = lines_of(s);
    &&& forall|i: int| 0 <= i < ls.len() ==> is_snafu(#[trigger] ls[i]) && ls[i].len() <= 27
    &&& forall|k: nat| k <= ls.len() ==> i64::MIN <= #[trigger] sum_of(ls, k) <= i64::MAX
}

/// The numeral of the sum of the numerals of the text, one to a line.
pub fn day25_1(input: &str) -> (r: String)
    requires
        is_list(input.spec_bytes()),
    ensures
        r@ == ascii_chars(
            snafu_digits(
                sum_of(lines_of(input.spec_bytes()), lines_of(input.spec_bytes()).len()),
            ),
        ),
{
    let ls = lines(input.as_bytes());
    let ghost lv = lines_of(input.spec_bytes());
    let mut sum: i64 = 0;
    let mut i: usize = 0;
    while i < ls.len()
        invariant
            i <= ls.len(),
            lv == views(ls@),
            lv == lines_of(input.spec_bytes()),
            is_list(input.spec_bytes()),
            sum == sum_of(lv, i as nat),
        decreases ls.len() - i,
    {
        assert(ls@[i as int]@ == lv[i as int]);
        assert(is_snafu(lv[i as int]));
        let v = parse_digits(ls[i].as_slice());
        proof {
            assert(sum_of(lv, (i + 1) as nat) == sum_of(lv, i as nat) + snafu_value(lv[i as int]));
        }
        sum = sum + v;
        i += 1;
    }
    to_snafu(sum)
}

/// Reading what `to_snafu` wrote gives the number back.
pub proof fn lemma_parse_inverts_to_snafu(n: i64, written: &str)
    requires
        written@ == ascii_chars(snafu_digits(n as int)),
    ensures
        is_snafu(written.spec_bytes()),
        snafu_value(written.spec_bytes()) == n,
{
    lemma_round_trip(n as int);
    assert(all_ascii(snafu_digits(n as int)));
    lemma_ascii_bytes(written, snafu_digits(n as int));
}

} // verus!
