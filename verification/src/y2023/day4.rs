//! Scratch cards: numbers that win, and the copies of cards they win.

use crate::text::{lines, lines_of, matches_at, occurs_at, read_unsigned, unsigned_at, views};
use vstd::prelude::*;
use vstd::string::*;

verus! {

/// The text was no card.
#[derive(Debug, PartialEq, Eq)]
pub struct ParseError;

/// Copies of a card that are still good for the next `valid_for` cards.
pub struct Card {
    pub amount: u32,
    pub valid_for: u32,
}

/// Whether `b` is a blank: space, carriage return, line feed or tab.
pub open spec fn is_blank(b: u8) -> bool {
    b == 32 || b == 13 || b == 10 || b == 9
}

/// The first index at or after `i` whose byte is no blank.
pub open spec fn skip_blanks(s: Seq<u8>, i: int) -> int
    decreases s.len() - i,
{
    if i < 0 || i >= s.len() || !is_blank(s[i]) {
        i
    } else {
        skip_blanks(s, i + 1)
    }
}

pub proof fn lemma_skip_blanks(s: Seq<u8>, i: int)
    requires
        0 <= i <= s.len(),
    ensures
        i <= skip_blanks(s, i) <= s.len(),
    decreases s.len() - i,
{
    if i < s.len() && is_blank(s[i]) {
        lemma_skip_blanks(s, i + 1);
    }
}

/// The number that stands in `s` at or behind `i` after blanks.
pub open spec fn spaced_number(s: Seq<u8>, i: int) -> Option<(int, int)> {
    unsigned_at(s, skip_blanks(s, i), u32::MAX as int)
}

/// The numbers that follow in `s` at `i`, each behind one space.
pub open spec fn more_numbers(s: Seq<u8>, i: int) -> (Seq<u32>, int)
    decreases s.len() - i,
{
    if !(0 <= i < s.len() && s[i] == 32) {
        (Seq::empty(), i)
    } else {
        match spaced_number(s, i + 1) {
            Some((n, k)) => if i < k <= s.len() {
                (seq![n as u32] + more_numbers(s, k).0, more_numbers(s, k).1)
            } else {
                (Seq::empty(), i)
            },
            None => (Seq::empty(), i),
        }
    }
}

/// How many of the numbers that follow in `s` at `i`, each behind blanks,
/// are among `winning`.
pub open spec fn count_matches(s: Seq<u8>, i: int, winning: Seq<u32>) -> nat
    decreases s.len() - i,
{
    match spaced_number(s, i) {
        Some((n, k)) => if 0 <= i < k <= s.len() {
            count_matches(s, k, winning) + if winning.contains(n as u32) {
                1nat
            } else {
                0nat
            }
        } else {
            0
        },
        None => 0,
    }
}

/// The number of matches of the card that a line spells: `Card`, its
/// number, a colon, the winning numbers, a bar, and the numbers one has;
/// `None` where the line is no card.
pub open spec fn matches_of(s: Seq<u8>) -> Option<nat> {
    if !matches_at(s, seq![67u8, 97, 114, 100], 0) {
        None
    } else {
        match spaced_number(s, 4) {
            None => None,
            Some((id, j)) => if !(0 <= j < s.len() && s[j] == 58) {
                None
            } else {
                match spaced_number(s, j + 1) {
                    None => None,
                    Some((first, k)) => {
                        let rest = more_numbers(s, k);
                        let bar = skip_blanks(s, rest.1);
                        if 0 <= bar < s.len() && s[bar] == 124 {
                            Some(count_matches(s, bar + 1, seq![first as u32] + rest.0))
                        } else {
                            None
                        }
                    },
                }
            },
        }
    }
}

fn skip(s: &[u8], i: usize) -> (r: usize)
    requires
        i <= s.len(),
    ensures
        r == skip_blanks(s@, i as int),
        i <= r <= s.len(),
{
    let mut k: usize = i;
    while k < s.len() && (s[k] == 32 || s[k] == 13 || s[k] == 10 || s[k] == 9)
        invariant
            i <= k <= s.len(),
            skip_blanks(s@, i as int) == skip_blanks(s@, k as int),
        decreases s.len() - k,
    {
        k += 1;
    }
    k
}

fn read_spaced(s: &[u8], i: usize) -> (r: Option<(u32, usize)>)
    requires
        i <= s.len(),
    ensures
        match r {
            Some((v, to)) => spaced_number(s@, i as int) == Some((v as int, to as int)) && i < to
                <= s.len(),
            None => spaced_number(s@, i as int) is None,
        },
{
    let from = skip(s, i);
    match read_unsigned(s, from, 4294967295) {
        Some((v, to)) => Some((v as u32, to)),
        None => None,
    }
}

fn contains(v: &Vec<u32>, n: u32) -> (r: bool)
    ensures
        r == v@.contains(n),
{
    let mut i: usize = 0;
    while i < v.len()
        invariant
            i <= v.len(),
            forall|k: int| 0 <= k < i ==> v@[k] != n,
        decreases v.len() - i,
    {
        if v[i] == n {
            return true;
        }
        i += 1;
    }
    false
}

impl Card {
    pub fn new(amount: u32, valid_for: u32) -> (r: Self)
        ensures
            r.amount == amount,
            r.valid_for == valid_for,
    {
        Self { amount, valid_for }
    }

    /// The number of matches of the card that the line spells.
    pub fn parse_calc_matches(s: &[u8]) -> (r: Result<u32, ParseError>)
        requires
            s@.len() <= u32::MAX,
        ensures
            match r {
                Ok(m) => matches_of(s@) == Some(m as nat),
                Err(_) => matches_of(s@) is None,
            },
    {
        let tag: [u8; 4] = [67, 97, 114, 100];
        proof {
            assert(tag@ =~= seq![67u8, 97, 114, 100]);
        }
        if !occurs_at(s, tag.as_slice(), 0) {
            return Err(ParseError);
        }
        let (_id, j) = match read_spaced(s, 4) {
            Some(p) => p,
            None => {
                return Err(ParseError);
            },
        };
        if !(j < s.len() && s[j] == 58) {
            return Err(ParseError);
        }
        let (first, k) = match read_spaced(s, j + 1) {
            Some(p) => p,
            None => {
                return Err(ParseError);
            },
        };
        let mut winning: Vec<u32> = Vec::new();
        winning.push(first);
        let mut pos: usize = k;
        proof {
            assert(winning@ + more_numbers(s@, k as int).0 =~= seq![first] + more_numbers(
                s@,
                k as int,
            ).0);
        }
        loop
            invariant
                pos <= s.len(),
                seq![first] + more_numbers(s@, k as int).0 == winning@ + more_numbers(
                    s@,
                    pos as int,
                ).0,
                more_numbers(s@, k as int).1 == more_numbers(s@, pos as int).1,
            ensures
                pos <= s.len(),
                seq![first] + more_numbers(s@, k as int).0 == winning@,
                more_numbers(s@, k as int).1 == pos,
            decreases s.len() - pos,
        {
            if !(pos < s.len() && s[pos] == 32) {
                proof {
                    assert(winning@ + Seq::<u32>::empty() =~= winning@);
                }
                break ;
            }
            match read_spaced(s, pos + 1) {
                None => {
                    proof {
                        assert(winning@ + Seq::<u32>::empty() =~= winning@);
                    }
                    break ;
                },
                Some((n, next)) => {
                    let ghost before = winning@;
                    winning.push(n);
                    proof {
                        assert(before + (seq![n] + more_numbers(s@, next as int).0) =~= winning@
                            + more_numbers(s@, next as int).0);
                    }
                    pos = next;
                },
            }
        }
        let bar = skip(s, pos);
        if !(bar < s.len() && s[bar] == 124) {
            return Err(ParseError);
        }
        let mut matches: u32 = 0;
        let mut at: usize = bar + 1;
        let ghost wanted = count_matches(s@, bar + 1, winning@);
        loop
            invariant
                bar < at <= s.len(),
                s@.len() <= u32::MAX,
                matches <= at,
                wanted == matches + count_matches(s@, at as int, winning@),
            ensures
                wanted == matches,
            decreases s.len() - at,
        {
            match read_spaced(s, at) {
                None => {
                    break ;
                },
                Some((n, next)) => {
                    if contains(&winning, n) {
                        matches = matches + 1;
                    }
                    at = next;
                },
            }
        }
        Ok(matches)
    }

    /// The points of a card with `matches` matches: 1 for the first, and
    /// twice as many with each more.
    pub fn matches_to_points(matches: u32) -> (r: u32)
        requires
            matches <= 32,
        ensures
            r == points(matches as nat),
    {
        if matches == 0 {
            return 0;
        }
        let mut p: u32 = 1;
        let mut i: u32 = 1;
        proof {
            reveal_with_fuel(points, 2);
        }
        while i < matches
            invariant
                1 <= i <= matches <= 32,
                p == points(i as nat),
                p <= pow2_bound(i as nat),
            decreases matches - i,
        {
            proof {
                lemma_pow2_bound(i as nat);
            }
            p = p * 2;
            i += 1;
        }
        p
    }
}

/// The points of a card with `m` matches.
pub open spec fn points(m: nat) -> nat
    decreases m,
{
    if m == 0 {
        0
    } else if m == 1 {
        1
    } else {
        2 * points((m - 1) as nat)
    }
}

/// A bound that doubles with each step from 1 on.
pub open spec fn pow2_bound(m: nat) -> nat
    decreases m,
{
    if m <= 1 {
        1
    } else {
        2 * pow2_bound((m - 1) as nat)
    }
}

proof fn lemma_pow2_bound(m: nat)
    requires
        1 <= m < 32,
    ensures
        pow2_bound(m) <= 0x4000_0000,
        pow2_bound(m + 1) == 2 * pow2_bound(m),
{
    reveal_with_fuel(pow2_bound, 33);
}

/// The sum of the points of the first `k` lines; `None` where one of them
/// is no card.
pub open spec fn total_points(ls: Seq<Seq<u8>>, k: nat) -> Option<int>
    decreases k,
{
    if k == 0 {
        Some(0)
    } else {
        match (total_points(ls, (k - 1) as nat), matches_of(ls[k - 1])) {
            (Some(t), Some(m)) => Some(t + points(m)),
            _ => None,
        }
    }
}

/// Whether the lines are short enough to be counted, no card has more than
/// 32 matches, and the sums of points fit in 32 bits.
pub open spec fn can_total(ls: Seq<Seq<u8>>) -> bool {
    &&& forall|i: int| 0 <= i < ls.len() ==> (#[trigger] ls[i]).len() <= u32::MAX
    &&& forall|i: int|
        0 <= i < ls.len() && matches_of(#[trigger] ls[i]) is Some ==> matches_of(ls[i])->0 <= 32
    &&& forall|k: nat|
        k <= ls.len() && #[trigger] total_points(ls, k) is Some ==> total_points(ls, k)->0
            <= u32::MAX
}

pub proof fn lemma_total_stays_none(ls: Seq<Seq<u8>>, j: nat, k: nat)
    requires
        j <= k,
        total_points(ls, j) is None,
    ensures
        total_points(ls, k) is None,
    decreases k,
{
    if j < k {
        lemma_total_stays_none(ls, j, (k - 1) as nat);
    }
}

/// The sum of the points of the cards.
pub fn day4_1(input: &str) -> (r: Result<u32, ParseError>)
    requires
        can_total(lines_of(input.spec_bytes())),
    ensures
        match r {
            Ok(v) => total_points(lines_of(input.spec_bytes()), lines_of(input.spec_bytes()).len())
                == Some(v as int),
            Err(_) => total_points(lines_of(input.spec_bytes()), lines_of(input.spec_bytes()).len())
                 is None,
        },
{
    let ls = lines(input.as_bytes());
    let ghost lv = lines_of(input.spec_bytes());
    let mut sum: u32 = 0;
    let mut i: usize = 0;
    while i < ls.len()
        invariant
            i <= ls.len(),
            lv == views(ls@),
            lv == lines_of(input.spec_bytes()),
            can_total(lv),
            total_points(lv, i as nat) == Some(sum as int),
        decreases ls.len() - i,
    {
        assert(ls@[i as int]@ == lv[i as int]);
        assert(lv[i as int].len() <= u32::MAX);
        let m = match Card::parse_calc_matches(ls[i].as_slice()) {
            Ok(m) => m,
            Err(e) => {
                proof {
                    assert(total_points(lv, (i + 1) as nat) is None);
                    lemma_total_stays_none(lv, (i + 1) as nat, lv.len());
                }
                return Err(e);
            },
        };
        proof {
            assert(total_points(lv, (i + 1) as nat) == Some(sum + points(m as nat)));
        }
        sum = sum + Card::matches_to_points(m);
        i += 1;
    }
    Ok(sum)
}


/// The cards in hand, as values of mathematics: for each the number of
/// copies and for how many more cards they are good.
pub type Hand = Seq<(int, int)>;

/// The cards of `v`, as values of mathematics.
pub open spec fn hand_of(v: Seq<Card>) -> Hand {
    Seq::new(v.len(), |i: int| (v[i].amount as int, v[i].valid_for as int))
}

/// The copies of the first `k` cards in hand.
pub open spec fn copies(h: Hand, k: nat) -> int
    decreases k,
{
    if k == 0 {
        0
    } else {
        copies(h, (k - 1) as nat) + h[k - 1].0
    }
}

/// The hand after one more card has gone by.
pub open spec fn aged(h: Hand) -> Hand {
    Seq::new(h.len(), |i: int| (h[i].0, h[i].1 - 1))
}

/// The hand without the cards at its end that are good for nothing more.
pub open spec fn without_spent(h: Hand) -> Hand
    decreases h.len(),
{
    if h.len() > 0 && h.last().1 == 0 {
        without_spent(h.drop_last())
    } else {
        h
    }
}

/// The first place from `i` on whose card is good for `v` cards at most.
pub open spec fn place_for(h: Hand, v: int, i: int) -> int
    decreases h.len() - i,
{
    if i < 0 || i >= h.len() || h[i].1 <= v {
        i
    } else {
        place_for(h, v, i + 1)
    }
}

/// The hand after a card with `m` matches, of which one holds one
/// original and a copy for each card in hand: the cards in hand age, the
/// spent ones go, and the new ones, if they win anything, take their place
/// before the first that is good for no more cards than they.
pub open spec fn hand_after(h: Hand, m: int) -> Hand {
    let amount = 1 + copies(h, h.len());
    let kept = without_spent(aged(h));
    if m != 0 {
        kept.insert(place_for(kept, m, 0), (amount, m))
    } else {
        kept
    }
}

/// The hand and the number of cards counted after the first `k` lines;
/// `None` where one of them is no card.
pub open spec fn counted(ls: Seq<Seq<u8>>, k: nat) -> Option<(Hand, int)>
    decreases k,
{
    if k == 0 {
        Some((Seq::empty(), 0))
    } else {
        match (counted(ls, (k - 1) as nat), matches_of(ls[k - 1])) {
            (Some((h, t)), Some(m)) => Some((hand_after(h, m as int), t + 1 + copies(h, h.len()))),
            _ => None,
        }
    }
}

/// Whether the lines are short enough to be counted and the numbers of
/// cards fit in 32 bits.
pub open spec fn can_count(ls: Seq<Seq<u8>>) -> bool {
    &&& forall|i: int| 0 <= i < ls.len() ==> (#[trigger] ls[i]).len() <= u32::MAX
    &&& forall|k: nat|
        k <= ls.len() && #[trigger] counted(ls, k) is Some ==> (counted(ls, k)->0).1 <= u32::MAX
}

pub proof fn lemma_counted_stays_none(ls: Seq<Seq<u8>>, j: nat, k: nat)
    requires
        j <= k,
        counted(ls, j) is None,
    ensures
        counted(ls, k) is None,
    decreases k,
{
    if j < k {
        lemma_counted_stays_none(ls, j, (k - 1) as nat);
    }
}

/// Whether the cards of the hand are good for one card at least each, and
/// none for more cards than one before it.
pub open spec fn in_order(h: Hand, least: int) -> bool {
    &&& forall|i: int| 0 <= i < h.len() ==> (#[trigger] h[i]).1 >= least && h[i].0 >= 0
    &&& forall|i: int, j: int| 0 <= i <= j < h.len() ==> (#[trigger] h[i]).1 >= (#[trigger] h[j]).1
}

/// The copies of a hand grow with it.
pub proof fn lemma_copies_grow(h: Hand, j: nat, k: nat)
    requires
        j <= k <= h.len(),
        forall|i: int| 0 <= i < h.len() ==> (#[trigger] h[i]).0 >= 0,
    ensures
        0 <= copies(h, j) <= copies(h, k),
    decreases k,
{
    if k > 0 {
        if j < k {
            lemma_copies_grow(h, j, (k - 1) as nat);
        } else {
            lemma_copies_grow(h, (k - 1) as nat, (k - 1) as nat);
        }
    }
}

/// The number of cards in the end, when each match of a card wins a copy
/// of one of the cards that follow it.
pub fn day4_2(input: &str) -> (r: Result<u32, ParseError>)
    requires
        can_count(lines_of(input.spec_bytes())),
    ensures
        match r {
            Ok(v) => counted(lines_of(input.spec_bytes()), lines_of(input.spec_bytes()).len())
                 is Some && (counted(
                lines_of(input.spec_bytes()),
                lines_of(input.spec_bytes()).len(),
            )->0).1 == v,
            Err(_) => counted(lines_of(input.spec_bytes()), lines_of(input.spec_bytes()).len())
                 is None,
        },
{
    let ls = lines(input.as_bytes());
    let ghost lv = lines_of(input.spec_bytes());
    let mut cards: Vec<Card> = Vec::new();
    let mut total: u32 = 0;
    let mut i: usize = 0;
    proof {
        assert(hand_of(cards@) =~= Seq::empty());
    }
    while i < ls.len()
        invariant
            i <= ls.len(),
            lv == views(ls@),
            lv == lines_of(input.spec_bytes()),
            can_count(lv),
            counted(lv, i as nat) == Some((hand_of(cards@), total as int)),
            in_order(hand_of(cards@), 1),
        decreases ls.len() - i,
    {
        assert(ls@[i as int]@ == lv[i as int]);
        assert(lv[i as int].len() <= u32::MAX);
        let matches = match Card::parse_calc_matches(ls[i].as_slice()) {
            Ok(m) => m,
            Err(e) => {
                proof {
                    assert(counted(lv, (i + 1) as nat) is None);
                    lemma_counted_stays_none(lv, (i + 1) as nat, lv.len());
                }
                return Err(e);
            },
        };
        let ghost h = hand_of(cards@);
        proof {
            assert(counted(lv, (i + 1) as nat) == Some(
                (hand_after(h, matches as int), total + 1 + copies(h, h.len())),
            ));
            assert(total + 1 + copies(h, h.len()) <= u32::MAX);
        }
        let mut held: u32 = 0;
        let mut k: usize = 0;
        while k < cards.len()
            invariant
                k <= cards.len(),
                h == hand_of(cards@),
                in_order(h, 1),
                held == copies(h, k as nat),
                total + 1 + copies(h, h.len()) <= u32::MAX,
            decreases cards.len() - k,
        {
            proof {
                lemma_copies_grow(h, (k + 1) as nat, h.len());
                lemma_copies_grow(h, k as nat, k as nat);
                assert(h[k as int].0 == cards@[k as int].amount);
            }
            held = held + cards[k].amount;
            k += 1;
        }
        let amount: u32 = 1 + held;
        total = total + amount;
        let mut k: usize = 0;
        while k < cards.len()
            invariant
                k <= cards.len(),
                cards.len() == h.len(),
                in_order(h, 1),
                forall|j: int|
                    0 <= j < cards.len() ==> (#[trigger] cards@[j]).amount == h[j].0 && cards@[j].valid_for
                        == if j < k {
                        h[j].1 - 1
                    } else {
                        h[j].1
                    },
            decreases cards.len() - k,
        {
            let card = &mut cards[k];
            card.valid_for = card.valid_for - 1;
            k += 1;
        }
        proof {
            assert(hand_of(cards@) =~= aged(h));
        }
        loop
            invariant
                in_order(hand_of(cards@), 0),
                without_spent(aged(h)) == without_spent(hand_of(cards@)),
            ensures
                in_order(hand_of(cards@), 1),
                without_spent(aged(h)) == hand_of(cards@),
            decreases cards.len(),
        {
            if cards.len() == 0 {
                break ;
            }
            if cards[cards.len() - 1].valid_for != 0 {
                proof {
                    let now = hand_of(cards@);
                    assert(now.last().1 != 0);
                    assert forall|j: int| 0 <= j < now.len() implies (#[trigger] now[j]).1 >= 1 by {
                        assert(now[j].1 >= now[now.len() - 1].1);
                    }
                }
                break ;
            }
            let ghost before = hand_of(cards@);
            cards.pop();
            proof {
                assert(hand_of(cards@) =~= before.drop_last());
            }
        }
        if matches != 0 {
            let ghost kept = hand_of(cards@);
            let mut pos: usize = 0;
            while pos < cards.len() && cards[pos].valid_for > matches
                invariant
                    pos <= cards.len(),
                    kept == hand_of(cards@),
                    place_for(kept, matches as int, 0) == place_for(kept, matches as int, pos as int),
                    forall|j: int| 0 <= j < pos ==> (#[trigger] kept[j]).1 > matches,
                decreases cards.len() - pos,
            {
                proof {
                    assert(kept[pos as int].1 == cards@[pos as int].valid_for);
                }
                pos += 1;
            }
            proof {
                if pos < cards.len() {
                    assert(kept[pos as int].1 == cards@[pos as int].valid_for);
                }
            }
            let new_card = Card::new(amount, matches);
            cards.insert(pos, new_card);
            proof {
                let now = hand_of(cards@);
                assert(now =~= kept.insert(pos as int, (amount as int, matches as int)));
                assert forall|a: int, b: int| 0 <= a <= b < now.len() implies (#[trigger] now[a]).1
                    >= (#[trigger] now[b]).1 by {
                    if a < pos && b > pos {
                        assert(now[a] == kept[a]);
                        assert(now[b] == kept[b - 1]);
                        assert(kept[a].1 >= kept[b - 1].1);
                    } else if a < pos && b < pos {
                        assert(now[a] == kept[a]);
                        assert(now[b] == kept[b]);
                    } else if a > pos {
                        assert(now[a] == kept[a - 1]);
                        assert(now[b] == kept[b - 1]);
                        assert(kept[a - 1].1 >= kept[b - 1].1);
                    } else if a == pos && b > pos {
                        assert(now[b] == kept[b - 1]);
                        assert(kept[pos as int].1 >= kept[b - 1].1);
                    } else if a < pos && b == pos {
                        assert(now[a] == kept[a]);
                    }
                }
                assert forall|j: int| 0 <= j < now.len() implies (#[trigger] now[j]).1 >= 1
                    && now[j].0 >= 0 by {
                    if j < pos {
                        assert(now[j] == kept[j]);
                    } else if j > pos {
                        assert(now[j] == kept[j - 1]);
                    }
                }
            }
        }
        i += 1;
    }
    Ok(total)
}

} // verus!
