//! A list of numbers that is mixed: each number moves as many places as
//! it says, round the list.

use crate::text::{lines, lines_of, parse_i16, parse_i64, parse_int, views};
use vstd::prelude::*;
use vstd::string::*;

verus! {

/// The first place from `k` on where `v` stands in `ix`, or the length
/// of `ix` where it stands nowhere.
pub open spec fn place(ix: Seq<i16>, v: int, k: int) -> int
    decreases ix.len() - k,
{
    if k < 0 || k >= ix.len() || ix[k] == v {
        k
    } else {
        place(ix, v, k + 1)
    }
}

/// The list after the number that came as the `nth` has moved `n`
/// places on: it is taken out and put in again at the place that
/// follows from where it stood and `n`, counted round the list without
/// it.
pub open spec fn moved(ix: Seq<i16>, nth: int, n: int) -> Seq<i16> {
    let i = place(ix, nth, 0);
    ix.remove(i).insert((i + n) % (ix.len() - 1), ix[i])
}

/// The list after the first `k` numbers have moved, each as far as it
/// says.
pub open spec fn mixed(numbers: Seq<int>, ix: Seq<i16>, k: nat) -> Seq<i16>
    decreases k,
{
    if k == 0 {
        ix
    } else {
        moved(mixed(numbers, ix, (k - 1) as nat), k - 1, numbers[k - 1])
    }
}

/// The list after it has been mixed `r` times.
pub open spec fn mixed_times(numbers: Seq<int>, r: nat) -> Seq<i16>
    decreases r,
{
    if r == 0 {
        Seq::new(numbers.len(), |i: int| i as i16)
    } else {
        mixed(numbers, mixed_times(numbers, (r - 1) as nat), numbers.len())
    }
}

/// Whether the list of `n` numbers holds every number from zero up to
/// `n`, and no other.
pub open spec fn has_all(ix: Seq<i16>, n: int) -> bool {
    &&& ix.len() == n
    &&& forall|v: int| 0 <= v < n ==> 0 <= #[trigger] place(ix, v, 0) < n
    &&& forall|j: int| 0 <= j < n ==> 0 <= #[trigger] ix[j] < n
}

/// Where a number stands from a place on, it stands, and not before.
pub proof fn lemma_place(ix: Seq<i16>, v: int, k: int)
    requires
        0 <= k <= ix.len(),
    ensures
        k <= place(ix, v, k) <= ix.len(),
        place(ix, v, k) < ix.len() ==> ix[place(ix, v, k)] == v,
        forall|j: int| k <= j < place(ix, v, k) ==> ix[j] != v,
    decreases ix.len() - k,
{
    if k < ix.len() && ix[k] != v {
        lemma_place(ix, v, k + 1);
    }
}

/// A number that stands somewhere has a place.
pub proof fn lemma_found(ix: Seq<i16>, v: int, at: int)
    requires
        0 <= at < ix.len(),
        ix[at] == v,
    ensures
        0 <= place(ix, v, 0) <= at,
{
    lemma_place(ix, v, 0);
}

/// A list that holds every number still holds every number when one has
/// moved.
pub proof fn lemma_moved(ix: Seq<i16>, nth: int, n: int)
    requires
        ix.len() >= 2,
        ix.len() <= i16::MAX,
        has_all(ix, ix.len() as int),
        0 <= nth < ix.len(),
    ensures
        has_all(moved(ix, nth, n), ix.len() as int),
        0 <= (place(ix, nth, 0) + n) % (ix.len() - 1) < ix.len() - 1,
{
    let len = ix.len() as int;
    let i = place(ix, nth, 0);
    let j = (i + n) % (len - 1);
    vstd::arithmetic::div_mod::lemma_mod_bound(i + n, len - 1);
    lemma_place(ix, nth, 0);
    let out = ix.remove(i);
    let new = out.insert(j, ix[i]);
    assert forall|v: int| 0 <= v < len implies 0 <= #[trigger] place(new, v, 0) < len by {
        let p = place(ix, v, 0);
        lemma_place(ix, v, 0);
        if p == i {
            assert(new[j] == v);
            lemma_found(new, v, j);
        } else {
            let q = if p < i {
                p
            } else {
                p - 1
            };
            assert(out[q] == v);
            let r = if q < j {
                q
            } else {
                q + 1
            };
            assert(new[r] == v);
            lemma_found(new, v, r);
        }
    }
    assert forall|r: int| 0 <= r < len implies 0 <= #[trigger] new[r] < len by {
        if r == j {
            assert(new[r] == ix[i]);
        } else {
            let q = if r < j {
                r
            } else {
                r - 1
            };
            assert(new[r] == out[q]);
            let p = if q < i {
                q
            } else {
                q + 1
            };
            assert(out[q] == ix[p]);
        }
    }
}

/// A list that holds every number still holds every number when it is
/// mixed.
pub proof fn lemma_mixed(numbers: Seq<int>, ix: Seq<i16>, k: nat)
    requires
        ix.len() >= 2,
        ix.len() <= i16::MAX,
        numbers.len() == ix.len(),
        has_all(ix, ix.len() as int),
        k <= numbers.len(),
    ensures
        has_all(mixed(numbers, ix, k), ix.len() as int),
    decreases k,
{
    if k > 0 {
        lemma_mixed(numbers, ix, (k - 1) as nat);
        lemma_moved(mixed(numbers, ix, (k - 1) as nat), k - 1, numbers[k - 1]);
    }
}

/// The numbers of the list in the order in which the list holds them.
pub open spec fn arranged(numbers: Seq<int>, ix: Seq<i16>) -> Seq<int> {
    Seq::new(ix.len(), |i: int| numbers[ix[i] as int])
}

/// The first place from `k` on where zero stands among the numbers.
pub open spec fn zero_place(v: Seq<int>, k: int) -> int
    decreases v.len() - k,
{
    if k < 0 || k >= v.len() || v[k] == 0 {
        k
    } else {
        zero_place(v, k + 1)
    }
}

/// The sum of the numbers that stand 1000, 2000 and 3000 places behind
/// the first zero, counted round the list.
pub open spec fn grove(v: Seq<int>) -> int {
    let zero = zero_place(v, 0);
    v[(zero + 1000) % (v.len() as int)] + v[(zero + 2000) % (v.len() as int)] + v[(zero + 3000) % (
    v.len() as int)]
}

fn position(indices: &Vec<i16>, nth: usize) -> (r: usize)
    requires
        nth <= i16::MAX,
    ensures
        r == place(indices@, nth as int, 0),
        r <= indices@.len(),
{
    let mut i: usize = 0;
    while i < indices.len() && !(indices[i] >= 0 && indices[i] as usize == nth)
        invariant
            i <= indices@.len(),
            place(indices@, nth as int, 0) == place(indices@, nth as int, i as int),
        decreases indices.len() - i,
    {
        i += 1;
    }
    i
}

/// Moves the number that came as the `nth` by `n` places.
fn shift(indices: &mut Vec<i16>, nth: usize, n: i64)
    requires
        2 <= old(indices)@.len() <= i16::MAX,
        has_all(old(indices)@, old(indices)@.len() as int),
        nth < old(indices)@.len(),
    ensures
        final(indices)@ == moved(old(indices)@, nth as int, n as int),
        has_all(final(indices)@, old(indices)@.len() as int),
{
    proof {
        lemma_moved(indices@, nth as int, n as int);
    }
    let i = position(indices, nth);
    let m: i128 = indices.len() as i128 - 1;
    let total: i128 = i as i128 + n as i128;
    let new_i: usize = if total >= 0 {
        (total % m) as usize
    } else {
        let back: i128 = (-total) % m;
        if back == 0 {
            0
        } else {
            (m - back) as usize
        }
    };
    proof {
        lemma_rem(total as int, m as int);
    }
    let v = indices.remove(i);
    indices.insert(new_i, v);
}

/// The remainder of a number below zero, from the remainder of what it
/// lacks to zero.
pub proof fn lemma_rem(a: int, m: int)
    requires
        m > 0,
    ensures
        0 <= a % m < m,
        a < 0 && (-a) % m == 0 ==> a % m == 0,
        a < 0 && (-a) % m != 0 ==> a % m == m - (-a) % m,
{
    vstd::arithmetic::div_mod::lemma_mod_bound(a, m);
    if a < 0 {
        let q = (-a) / m;
        let r = (-a) % m;
        vstd::arithmetic::div_mod::lemma_fundamental_div_mod(-a, m);
        vstd::arithmetic::div_mod::lemma_mod_bound(-a, m);
        if r == 0 {
            assert(a == (-q) * m + 0) by (nonlinear_arith)
                requires
                    -a == m * q + r,
                    r == 0,
            ;
            vstd::arithmetic::div_mod::lemma_fundamental_div_mod_converse(a, m, -q, 0);
        } else {
            assert(a == (-q - 1) * m + (m - r)) by (nonlinear_arith)
                requires
                    -a == m * q + r,
            ;
            vstd::arithmetic::div_mod::lemma_fundamental_div_mod_converse(a, m, -q - 1, m - r);
        }
    }
}


/// Whether every line spells a number between `min` and `max`.
pub open spec fn is_list(ls: Seq<Seq<u8>>, min: int, max: int) -> bool {
    forall|i: int| 0 <= i < ls.len() ==> parse_int(#[trigger] ls[i], min, max) is Some
}

/// The numbers that the lines spell, each times `factor`.
pub open spec fn numbers_of(ls: Seq<Seq<u8>>, min: int, max: int, factor: int) -> Seq<int> {
    Seq::new(ls.len(), |i: int| parse_int(ls[i], min, max)->0 * factor)
}

/// The list in which each number stands at its own place.
pub open spec fn unmixed(n: nat) -> Seq<i16> {
    Seq::new(n, |i: int| i as i16)
}

/// Whether the list can be mixed and read: it has two numbers or more,
/// no more than 16 bits can count, and a zero among them.
pub open spec fn can_mix(numbers: Seq<int>) -> bool {
    &&& 2 <= numbers.len() <= i16::MAX
    &&& zero_place(numbers, 0) < numbers.len()
}

/// Where zero stands among the numbers, it stands among them in any
/// order that holds them all.
pub proof fn lemma_zero(numbers: Seq<int>, ix: Seq<i16>)
    requires
        can_mix(numbers),
        has_all(ix, numbers.len() as int),
    ensures
        zero_place(arranged(numbers, ix), 0) < numbers.len(),
{
    lemma_zero_place(numbers, 0);
    let z = zero_place(numbers, 0);
    let p = place(ix, z, 0);
    lemma_place(ix, z, 0);
    let a = arranged(numbers, ix);
    assert(a[p] == 0);
    lemma_zero_place(a, 0);
}

/// Where zero stands from a place on, it stands, and not before.
pub proof fn lemma_zero_place(v: Seq<int>, k: int)
    requires
        0 <= k <= v.len(),
    ensures
        k <= zero_place(v, k) <= v.len(),
        zero_place(v, k) < v.len() ==> v[zero_place(v, k)] == 0,
        forall|j: int| k <= j < zero_place(v, k) ==> v[j] != 0,
    decreases v.len() - k,
{
    if k < v.len() && v[k] != 0 {
        lemma_zero_place(v, k + 1);
    }
}

fn fresh(n: usize) -> (r: Vec<i16>)
    requires
        n <= i16::MAX,
    ensures
        r@ == unmixed(n as nat),
        has_all(r@, n as int),
{
    let mut indices: Vec<i16> = Vec::new();
    let mut k: usize = 0;
    while k < n
        invariant
            k <= n <= i16::MAX,
            indices@ == unmixed(k as nat),
        decreases n - k,
    {
        indices.push(k as i16);
        k += 1;
        proof {
            assert(indices@ =~= unmixed(k as nat));
        }
    }
    proof {
        assert forall|v: int| 0 <= v < n implies 0 <= #[trigger] place(indices@, v, 0) < n by {
            lemma_found(indices@, v, v);
        }
    }
    indices
}

/// Whether the first part can be answered for the lines: they spell
/// numbers of 16 bits that can be mixed, and the place of a number and
/// the number add up within 16 bits whenever it moves.
pub open spec fn can_mix_short(ls: Seq<Seq<u8>>) -> bool {
    &&& is_list(ls, i16::MIN as int, i16::MAX as int)
    &&& can_mix(numbers_of(ls, i16::MIN as int, i16::MAX as int, 1))
    &&& forall|k: nat|
        k < ls.len() ==> place(
            #[trigger] mixed(
                numbers_of(ls, i16::MIN as int, i16::MAX as int, 1),
                unmixed(ls.len()),
                k,
            ),
            k as int,
            0,
        ) + parse_int(ls[k as int], i16::MIN as int, i16::MAX as int)->0 <= i16::MAX
}

/// The sum of the three numbers behind the zero after the list is mixed
/// once.
pub fn day20_1(input: &str) -> (r: i32)
    requires
        can_mix_short(lines_of(input.spec_bytes())),
    ensures
        r == grove(
            arranged(
                numbers_of(lines_of(input.spec_bytes()), i16::MIN as int, i16::MAX as int, 1),
                mixed_times(
                    numbers_of(lines_of(input.spec_bytes()), i16::MIN as int, i16::MAX as int, 1),
                    1,
                ),
            ),
        ),
{
    let ls = lines(input.as_bytes());
    let ghost lv = lines_of(input.spec_bytes());
    let ghost want = numbers_of(lv, i16::MIN as int, i16::MAX as int, 1);
    let mut numbers: Vec<i16> = Vec::new();
    let mut i: usize = 0;
    while i < ls.len()
        invariant
            i <= ls@.len(),
            lv == views(ls@),
            is_list(lv, i16::MIN as int, i16::MAX as int),
            want == numbers_of(lv, i16::MIN as int, i16::MAX as int, 1),
            numbers@.len() == i,
            forall|j: int| 0 <= j < i ==> numbers@[j] == want[j],
        decreases ls.len() - i,
    {
        assert(ls@[i as int]@ == lv[i as int]);
        assert(parse_int(lv[i as int], i16::MIN as int, i16::MAX as int) is Some);
        let n: i16 = match parse_i16(ls[i].as_slice()) {
            Some(n) => n,
            None => 0,
        };
        numbers.push(n);
        i += 1;
    }
    let mut indices = fresh(numbers.len());
    let ghost first = indices@;
    let mut k: usize = 0;
    while k < numbers.len()
        invariant
            k <= numbers@.len(),
            numbers@.len() == want.len(),
            forall|j: int| 0 <= j < want.len() ==> numbers@[j] == want[j],
            2 <= want.len() <= i16::MAX,
            has_all(indices@, want.len() as int),
            indices@ == mixed(want, first, k as nat),
        decreases numbers.len() - k,
    {
        let n = numbers[k];
        shift(&mut indices, k, n as i64);
        k += 1;
    }
    let mut arranged_numbers: Vec<i16> = Vec::new();
    let mut j: usize = 0;
    while j < indices.len()
        invariant
            j <= indices@.len(),
            numbers@.len() == want.len(),
            forall|q: int| 0 <= q < want.len() ==> numbers@[q] == want[q],
            has_all(indices@, want.len() as int),
            arranged_numbers@.len() == j,
            forall|q: int| 0 <= q < j ==> arranged_numbers@[q] == arranged(want, indices@)[q],
        decreases indices.len() - j,
    {
        arranged_numbers.push(numbers[indices[j] as usize]);
        j += 1;
    }
    let ghost a = arranged(want, indices@);
    proof {
        lemma_zero(want, indices@);
        lemma_zero_place(a, 0);
    }
    let mut zero: usize = 0;
    while arranged_numbers[zero] != 0
        invariant
            zero <= zero_place(a, 0) < a.len(),
            a.len() == arranged_numbers@.len(),
            forall|q: int| 0 <= q < a.len() ==> arranged_numbers@[q] == a[q],
            zero_place(a, 0) == zero_place(a, zero as int),
        decreases a.len() - zero,
    {
        proof {
            lemma_zero_place(a, zero as int);
            lemma_zero_place(a, zero + 1);
        }
        zero += 1;
    }
    proof {
        lemma_zero_place(a, zero as int);
        assert(mixed_times(want, 0) =~= unmixed(want.len()));
        assert(mixed_times(want, 1) == mixed(want, mixed_times(want, 0), want.len()));
    }
    let len = numbers.len();
    arranged_numbers[(zero + 1000) % len] as i32 + arranged_numbers[(zero + 2000) % len] as i32
        + arranged_numbers[(zero + 3000) % len] as i32
}


/// Whether the second part can be answered for the lines: they spell
/// numbers whose products with the key fit in 64 bits and can be mixed,
/// and the three numbers behind the zero add up within 64 bits.
pub open spec fn can_mix_long(ls: Seq<Seq<u8>>) -> bool {
    &&& is_list(ls, i64::MIN as int, i64::MAX as int)
    &&& forall|i: int|
        0 <= i < ls.len() ==> i64::MIN <= #[trigger] numbers_of(
            ls,
            i64::MIN as int,
            i64::MAX as int,
            811589153,
        )[i] <= i64::MAX
    &&& can_mix(numbers_of(ls, i64::MIN as int, i64::MAX as int, 811589153))
    &&& i64::MIN <= long_sum(ls, 2) <= i64::MAX
    &&& i64::MIN <= long_sum(ls, 3) <= i64::MAX
}

/// The numbers of the second part after ten mixings.
pub open spec fn long_mixed(ls: Seq<Seq<u8>>) -> Seq<int> {
    arranged(
        numbers_of(ls, i64::MIN as int, i64::MAX as int, 811589153),
        mixed_times(numbers_of(ls, i64::MIN as int, i64::MAX as int, 811589153), 10),
    )
}

/// The sum of the first `k` of the three numbers behind the zero.
pub open spec fn long_sum(ls: Seq<Seq<u8>>, k: nat) -> int
    decreases k,
{
    if k == 0 {
        0
    } else {
        long_sum(ls, (k - 1) as nat) + long_mixed(ls)[(zero_place(long_mixed(ls), 0) + 1000 * k) % (
        ls.len() as int)]
    }
}

/// The sum of the three numbers behind the zero after the list, each
/// number times 811589153, is mixed ten times.
pub fn day20_2(input: &str) -> (r: i64)
    requires
        can_mix_long(lines_of(input.spec_bytes())),
    ensures
        r == grove(long_mixed(lines_of(input.spec_bytes()))),
{
    let ls = lines(input.as_bytes());
    let ghost lv = lines_of(input.spec_bytes());
    let ghost want = numbers_of(lv, i64::MIN as int, i64::MAX as int, 811589153);
    let mut orig_numbers: Vec<i64> = Vec::new();
    let mut i: usize = 0;
    while i < ls.len()
        invariant
            i <= ls@.len(),
            lv == views(ls@),
            can_mix_long(lv),
            want == numbers_of(lv, i64::MIN as int, i64::MAX as int, 811589153),
            orig_numbers@.len() == i,
            forall|j: int| 0 <= j < i ==> orig_numbers@[j] == want[j],
        decreases ls.len() - i,
    {
        assert(ls@[i as int]@ == lv[i as int]);
        assert(parse_int(lv[i as int], i64::MIN as int, i64::MAX as int) is Some);
        assert(i64::MIN <= want[i as int] <= i64::MAX);
        let n: i64 = match parse_i64(ls[i].as_slice()) {
            Some(n) => n,
            None => 0,
        };
        orig_numbers.push(n * 811589153);
        i += 1;
    }
    let mut indices = fresh(orig_numbers.len());
    proof {
        assert(mixed_times(want, 0) =~= unmixed(want.len()));
    }
    let mut round: usize = 0;
    while round < 10
        invariant
            round <= 10,
            orig_numbers@.len() == want.len(),
            forall|j: int| 0 <= j < want.len() ==> orig_numbers@[j] == want[j],
            2 <= want.len() <= i16::MAX,
            has_all(indices@, want.len() as int),
            indices@ == mixed_times(want, round as nat),
        decreases 10 - round,
    {
        let ghost first = indices@;
        let mut k: usize = 0;
        while k < orig_numbers.len()
            invariant
                k <= orig_numbers@.len(),
                orig_numbers@.len() == want.len(),
                forall|j: int| 0 <= j < want.len() ==> orig_numbers@[j] == want[j],
                2 <= want.len() <= i16::MAX,
                has_all(indices@, want.len() as int),
                indices@ == mixed(want, first, k as nat),
            decreases orig_numbers.len() - k,
        {
            let n = orig_numbers[k];
            shift(&mut indices, k, n);
            k += 1;
        }
        round += 1;
    }
    let mut arranged_numbers: Vec<i64> = Vec::new();
    let mut j: usize = 0;
    while j < indices.len()
        invariant
            j <= indices@.len(),
            orig_numbers@.len() == want.len(),
            forall|q: int| 0 <= q < want.len() ==> orig_numbers@[q] == want[q],
            has_all(indices@, want.len() as int),
            arranged_numbers@.len() == j,
            forall|q: int| 0 <= q < j ==> arranged_numbers@[q] == arranged(want, indices@)[q],
        decreases indices.len() - j,
    {
        arranged_numbers.push(orig_numbers[indices[j] as usize]);
        j += 1;
    }
    let ghost a = arranged(want, indices@);
    proof {
        lemma_zero(want, indices@);
        lemma_zero_place(a, 0);
    }
    let mut zero_pos: usize = 0;
    while arranged_numbers[zero_pos] != 0
        invariant
            zero_pos <= zero_place(a, 0) < a.len(),
            a.len() == arranged_numbers@.len(),
            forall|q: int| 0 <= q < a.len() ==> arranged_numbers@[q] == a[q],
            zero_place(a, 0) == zero_place(a, zero_pos as int),
        decreases a.len() - zero_pos,
    {
        proof {
            lemma_zero_place(a, zero_pos as int);
            lemma_zero_place(a, zero_pos + 1);
        }
        zero_pos += 1;
    }
    proof {
        lemma_zero_place(a, zero_pos as int);
        assert(a == long_mixed(lv));
        reveal_with_fuel(long_sum, 4);
        assert(long_sum(lv, 3) == grove(a));
    }
    let len = orig_numbers.len();
    arranged_numbers[(zero_pos + 1000) % len] + arranged_numbers[(zero_pos + 2000) % len]
        + arranged_numbers[(zero_pos + 3000) % len]
}

} // verus!
