//! Hands of five cards, ranked by their kind and their cards, and what
//! they win.

use crate::text::{gap_end, lines, lines_of, read_unsigned, skip_gap, unsigned_at, views};
use vstd::prelude::*;
use vstd::string::*;

verus! {

/// The text was no list of hands.
#[derive(Debug, PartialEq, Eq)]
pub struct ParseError;

/// A card, by its label.
#[derive(Debug, PartialEq, Eq, Clone, Copy, Structural)]
pub enum Card {
    Two,
    Three,
    Four,
    Five,
    Six,
    Seven,
    Eight,
    Nine,
    T,
    J,
    Q,
    K,
    A,
}

/// The number of different cards.
pub const NUM_CARDS: usize = 13;

/// The number of cards of a hand.
pub const HAND_SIZE: usize = 5;

/// The card that `b` names.
pub open spec fn card_of(b: u8) -> Option<Card> {
    if b == 50 {
        Some(Card::Two)
    } else if b == 51 {
        Some(Card::Three)
    } else if b == 52 {
        Some(Card::Four)
    } else if b == 53 {
        Some(Card::Five)
    } else if b == 54 {
        Some(Card::Six)
    } else if b == 55 {
        Some(Card::Seven)
    } else if b == 56 {
        Some(Card::Eight)
    } else if b == 57 {
        Some(Card::Nine)
    } else if b == 84 {
        Some(Card::T)
    } else if b == 74 {
        Some(Card::J)
    } else if b == 81 {
        Some(Card::Q)
    } else if b == 75 {
        Some(Card::K)
    } else if b == 65 {
        Some(Card::A)
    } else {
        None
    }
}

impl Card {
    /// The place of the card among the thirteen, the two lowest.
    pub open spec fn spec_rank(self) -> int {
        match self {
            Card::Two => 0,
            Card::Three => 1,
            Card::Four => 2,
            Card::Five => 3,
            Card::Six => 4,
            Card::Seven => 5,
            Card::Eight => 6,
            Card::Nine => 7,
            Card::T => 8,
            Card::J => 9,
            Card::Q => 10,
            Card::K => 11,
            Card::A => 12,
        }
    }

    /// The place of the card among the thirteen, the two lowest.
    pub fn rank(self) -> (r: u32)
        ensures
            r == self.spec_rank(),
            r < 13,
    {
        match self {
            Card::Two => 0,
            Card::Three => 1,
            Card::Four => 2,
            Card::Five => 3,
            Card::Six => 4,
            Card::Seven => 5,
            Card::Eight => 6,
            Card::Nine => 7,
            Card::T => 8,
            Card::J => 9,
            Card::Q => 10,
            Card::K => 11,
            Card::A => 12,
        }
    }

    /// The card that stands in `input` at `i`, with the index behind it.
    pub fn parse(input: &[u8], i: usize) -> (r: Option<(Self, usize)>)
        ensures
            match r {
                Some(p) => i < input@.len() && card_of(input@[i as int]) == Some(p.0) && p.1 == i
                    + 1,
                None => i >= input@.len() || card_of(input@[i as int]) is None,
            },
    {
        if i >= input.len() {
            return None;
        }
        let b: u8 = input[i];
        let card = if b == 50 {
            Card::Two
        } else if b == 51 {
            Card::Three
        } else if b == 52 {
            Card::Four
        } else if b == 53 {
            Card::Five
        } else if b == 54 {
            Card::Six
        } else if b == 55 {
            Card::Seven
        } else if b == 56 {
            Card::Eight
        } else if b == 57 {
            Card::Nine
        } else if b == 84 {
            Card::T
        } else if b == 74 {
            Card::J
        } else if b == 81 {
            Card::Q
        } else if b == 75 {
            Card::K
        } else if b == 65 {
            Card::A
        } else {
            return None;
        };
        Some((card, i + 1))
    }
}

/// The kind of a hand, from the weakest to the strongest.
#[derive(Debug, PartialEq, Eq, Clone, Copy, Structural)]
pub enum HandType {
    HighCard,
    OnePair,
    TwoPair,
    ThreeOfAKind,
    FullHouse,
    FourOfAKind,
    FiveOfAKind,
}

impl HandType {
    /// The place of the kind among the seven, the high card lowest.
    pub open spec fn spec_rank(self) -> int {
        match self {
            HandType::HighCard => 0,
            HandType::OnePair => 1,
            HandType::TwoPair => 2,
            HandType::ThreeOfAKind => 3,
            HandType::FullHouse => 4,
            HandType::FourOfAKind => 5,
            HandType::FiveOfAKind => 6,
        }
    }

    /// The place of the kind among the seven, the high card lowest.
    pub fn rank(self) -> (r: u32)
        ensures
            r == self.spec_rank(),
    {
        match self {
            HandType::HighCard => 0,
            HandType::OnePair => 1,
            HandType::TwoPair => 2,
            HandType::ThreeOfAKind => 3,
            HandType::FullHouse => 4,
            HandType::FourOfAKind => 5,
            HandType::FiveOfAKind => 6,
        }
    }
}

/// How many of the first `n` cards of the hand have the place `r`.
pub open spec fn count_of(hand: Seq<Card>, r: int, n: nat) -> int
    decreases n,
{
    if n == 0 {
        0
    } else {
        count_of(hand, r, (n - 1) as nat) + if hand[n - 1].spec_rank() == r {
            1int
        } else {
            0int
        }
    }
}

/// How often the card with the place `r` counts in the hand: as often as
/// it occurs, but a joker counts as no card of its own.
pub open spec fn counted(hand: Seq<Card>, r: int, j_as_joker: bool) -> int {
    if j_as_joker && r == 9 {
        0
    } else {
        count_of(hand, r, hand.len())
    }
}

/// The greatest of the counts of the first `k` places, and the greatest
/// of the others.
pub open spec fn top_two(hand: Seq<Card>, j_as_joker: bool, k: nat) -> (int, int)
    decreases k,
{
    if k == 0 {
        (0, 0)
    } else {
        let before = top_two(hand, j_as_joker, (k - 1) as nat);
        let count = counted(hand, k - 1, j_as_joker);
        if count > before.0 {
            (count, before.0)
        } else if count > before.1 {
            (before.0, count)
        } else {
            before
        }
    }
}

/// The kind of a hand whose most frequent card occurs `first` times,
/// jokers counted with it, and the next `second` times.
pub open spec fn kind_of(first: int, second: int) -> HandType {
    if first == 5 {
        HandType::FiveOfAKind
    } else if first == 4 {
        HandType::FourOfAKind
    } else if first == 3 && second == 2 {
        HandType::FullHouse
    } else if first == 3 {
        HandType::ThreeOfAKind
    } else if first == 2 && second == 2 {
        HandType::TwoPair
    } else if first == 2 {
        HandType::OnePair
    } else {
        HandType::HighCard
    }
}

/// The kind of the hand; where `j_as_joker` holds, each `J` counts as one
/// more of the most frequent card.
pub open spec fn hand_type(hand: Seq<Card>, j_as_joker: bool) -> HandType {
    let jokers = if j_as_joker {
        count_of(hand, 9, hand.len())
    } else {
        0
    };
    let top = top_two(hand, j_as_joker, NUM_CARDS as nat);
    kind_of(jokers + top.0, top.1)
}

impl HandType {
    /// The kind of the hand.
    pub fn from_hand(hand: [Card; 5], j_as_joker: bool) -> (r: Self)
        ensures
            r == hand_type(hand@, j_as_joker),
    {
        let mut counts: Vec<u32> = Vec::new();
        let mut r: usize = 0;
        while r < NUM_CARDS
            invariant
                r <= NUM_CARDS,
                counts@.len() == r,
                forall|q: int| 0 <= q < r ==> counts@[q] == 0,
            decreases NUM_CARDS - r,
        {
            counts.push(0);
            r += 1;
        }
        let mut i: usize = 0;
        while i < HAND_SIZE
            invariant
                i <= HAND_SIZE,
                hand@.len() == HAND_SIZE,
                counts@.len() == NUM_CARDS,
                forall|q: int| 0 <= q < NUM_CARDS ==> #[trigger] counts@[q] == count_of(hand@, q, i as nat),
                forall|q: int| 0 <= q < NUM_CARDS ==> #[trigger] counts@[q] <= i,
            decreases HAND_SIZE - i,
        {
            let place: usize = hand[i].rank() as usize;
            let n: u32 = counts[place];
            counts.set(place, n + 1);
            i += 1;
        }
        let joker_count: u32 = if j_as_joker {
            let n: u32 = counts[9];
            counts.set(9, 0);
            n
        } else {
            0
        };
        let mut first_highest: u32 = 0;
        let mut second_highest: u32 = 0;
        let mut k: usize = 0;
        while k < NUM_CARDS
            invariant
                k <= NUM_CARDS,
                hand@.len() == HAND_SIZE,
                counts@.len() == NUM_CARDS,
                forall|q: int| 0 <= q < NUM_CARDS ==> #[trigger] counts@[q] == counted(hand@, q, j_as_joker),
                (first_highest as int, second_highest as int) == top_two(hand@, j_as_joker, k as nat),
                first_highest <= 5,
                forall|q: int| 0 <= q < NUM_CARDS ==> #[trigger] counts@[q] <= 5,
            decreases NUM_CARDS - k,
        {
            let count: u32 = counts[k];
            if count > first_highest {
                second_highest = first_highest;
                first_highest = count;
            } else if count > second_highest {
                second_highest = count;
            }
            k += 1;
        }
        let first: u32 = joker_count + first_highest;
        if first == 5 {
            HandType::FiveOfAKind
        } else if first == 4 {
            HandType::FourOfAKind
        } else if first == 3 && second_highest == 2 {
            HandType::FullHouse
        } else if first == 3 {
            HandType::ThreeOfAKind
        } else if first == 2 && second_highest == 2 {
            HandType::TwoPair
        } else if first == 2 {
            HandType::OnePair
        } else {
            HandType::HighCard
        }
    }
}

/// What the card counts for in the power of a hand: its place, or, where
/// `J` is the joker, nothing for the joker and its place and one for the
/// others.
pub open spec fn card_power(c: Card, j_as_joker: bool) -> int {
    if !j_as_joker {
        c.spec_rank()
    } else if c == Card::J {
        0
    } else {
        c.spec_rank() + 1
    }
}

/// The number that the first `n` cards of the hand spell, sixteen to a
/// card.
pub open spec fn cards_power(hand: Seq<Card>, j_as_joker: bool, n: nat) -> int
    decreases n,
{
    if n == 0 {
        0
    } else {
        cards_power(hand, j_as_joker, (n - 1) as nat) * 16 + card_power(hand[n - 1], j_as_joker)
    }
}

/// The power of the hand: its kind first, then its cards from the first
/// to the last.
pub open spec fn power_of(hand: Seq<Card>, j_as_joker: bool) -> int {
    hand_type(hand, j_as_joker).spec_rank() * 268435456 + cards_power(
        hand,
        j_as_joker,
        HAND_SIZE as nat,
    )
}

/// A hand: what it is worth against other hands, and its bid.
#[derive(Debug, PartialEq, Eq, Clone, Copy, Structural)]
pub struct Hand {
    pub power: u32,
    pub bid: u32,
}

fn power_with(hand: [Card; 5], j_as_joker: bool) -> (r: u32)
    ensures
        r == power_of(hand@, j_as_joker),
{
    let hand_type = HandType::from_hand(hand, j_as_joker);
    let mut cards: u32 = 0;
    let mut i: usize = 0;
    while i < HAND_SIZE
        invariant
            i <= HAND_SIZE,
            hand@.len() == HAND_SIZE,
            cards == cards_power(hand@, j_as_joker, i as nat),
            i == 0 ==> cards == 0,
            i == 1 ==> cards < 16,
            i == 2 ==> cards < 256,
            i == 3 ==> cards < 4096,
            i == 4 ==> cards < 65536,
            i == 5 ==> cards < 1048576,
        decreases HAND_SIZE - i,
    {
        let card = hand[i];
        let card_power: u32 = if !j_as_joker {
            card.rank()
        } else if card == Card::J {
            0
        } else {
            card.rank() + 1
        };
        cards = cards * 16 + card_power;
        i += 1;
    }
    hand_type.rank() * 268435456 + cards
}

/// The hand that the line holds: after a gap five cards, and after a gap
/// the bid.
pub open spec fn hand_of(line: Seq<u8>, j_as_joker: bool) -> Option<Hand> {
    let j = gap_end(line, 0);
    if j + 5 <= line.len() && (forall|i: int| j <= i < j + 5 ==> card_of(#[trigger] line[i]) is Some) {
        match unsigned_at(line, gap_end(line, j + 5), u32::MAX as int) {
            Some(p) => Some(
                Hand {
                    power: power_of(Seq::new(5, |i: int| card_of(line[j + i])->0), j_as_joker) as u32,
                    bid: p.0 as u32,
                },
            ),
            None => None,
        }
    } else {
        None
    }
}

impl Hand {
    /// The hand that the line holds.
    pub fn parse(input: &[u8], j_as_joker: bool) -> (r: Option<Self>)
        ensures
            r == hand_of(input@, j_as_joker),
    {
        let j = skip_gap(input, 0);
        let total: usize = input.len();
        let mut hand: [Card; 5] = [Card::Two; 5];
        let mut i: usize = 0;
        while i < HAND_SIZE
            invariant
                i <= HAND_SIZE,
                j <= input@.len(),
                total == input@.len(),
                j == gap_end(input@, 0),
                hand@.len() == HAND_SIZE,
                j + i <= input@.len(),
                forall|q: int| 0 <= q < i ==> card_of(#[trigger] input@[j + q]) == Some(hand@[q]),
            decreases HAND_SIZE - i,
        {
            if input.len() - j <= i {
                return None;
            }
            match Card::parse(input, j + i) {
                Some(p) => {
                    hand[i] = p.0;
                },
                None => {
                    assert(card_of(input@[j + i]) is None);
                    return None;
                },
            }
            i += 1;
        }
        proof {
            assert forall|q: int| j <= q < j + 5 implies card_of(#[trigger] input@[q]) is Some by {
                assert(card_of(input@[j + (q - j)]) == Some(hand@[q - j]));
            }
            assert(hand@ =~= Seq::new(5, |i: int| card_of(input@[j + i])->0));
        }
        let k = skip_gap(input, j + 5);
        let bid = match read_unsigned(input, k, 4294967295) {
            Some(p) => p.0 as u32,
            None => {
                return None;
            },
        };
        let power = power_with(hand, j_as_joker);
        Some(Hand { power, bid })
    }

    /// The power of the hand where `J` is a jack.
    pub fn power(hand: [Card; 5]) -> (r: u32)
        ensures
            r == power_of(hand@, false),
    {
        power_with(hand, false)
    }

    /// The power of the hand where `J` is the joker.
    pub fn power_joker(hand: [Card; 5]) -> (r: u32)
        ensures
            r == power_of(hand@, true),
    {
        power_with(hand, true)
    }
}


/// The hands that the first `k` lines hold, if each holds one.
pub open spec fn hands_of(ls: Seq<Seq<u8>>, j_as_joker: bool, k: nat) -> Option<Seq<Hand>>
    decreases k,
{
    if k == 0 {
        Some(Seq::empty())
    } else {
        match (hands_of(ls, j_as_joker, (k - 1) as nat), hand_of(ls[k - 1], j_as_joker)) {
            (Some(before), Some(h)) => Some(before.push(h)),
            _ => None,
        }
    }
}

/// The place of `h` among the hands `sorted`: behind the last that is not
/// of greater power.
pub open spec fn slot(sorted: Seq<Hand>, h: Hand) -> int
    decreases sorted.len(),
{
    if sorted.len() == 0 || sorted.last().power <= h.power {
        sorted.len() as int
    } else {
        slot(sorted.drop_last(), h)
    }
}

/// The first `k` of the hands, in the order of their power; of two hands
/// of the same power the one that came first stays first.
pub open spec fn in_order(hands: Seq<Hand>, k: nat) -> Seq<Hand>
    decreases k,
{
    if k == 0 {
        Seq::empty()
    } else {
        let before = in_order(hands, (k - 1) as nat);
        before.insert(slot(before, hands[k - 1]), hands[k - 1])
    }
}

/// A place among `sorted` is one of its indices or its length.
pub proof fn lemma_slot(sorted: Seq<Hand>, h: Hand)
    ensures
        0 <= slot(sorted, h) <= sorted.len(),
    decreases sorted.len(),
{
    if !(sorted.len() == 0 || sorted.last().power <= h.power) {
        lemma_slot(sorted.drop_last(), h);
    }
}

/// As many hands are in order as were put in order.
pub proof fn lemma_in_order_len(hands: Seq<Hand>, k: nat)
    ensures
        in_order(hands, k).len() == k,
    decreases k,
{
    if k > 0 {
        lemma_in_order_len(hands, (k - 1) as nat);
        lemma_slot(in_order(hands, (k - 1) as nat), hands[k - 1]);
    }
}

/// The hands in the order of their power.
pub fn sort_by_power(hands: &Vec<Hand>) -> (r: Vec<Hand>)
    ensures
        r@ == in_order(hands@, hands@.len()),
        r@.len() == hands@.len(),
{
    let mut out: Vec<Hand> = Vec::new();
    let mut k: usize = 0;
    while k < hands.len()
        invariant
            k <= hands@.len(),
            out@ == in_order(hands@, k as nat),
            out@.len() == k,
        decreases hands.len() - k,
    {
        let h = hands[k];
        let mut j: usize = out.len();
        proof {
            assert(out@.subrange(0, j as int) =~= out@);
        }
        while j > 0 && out[j - 1].power > h.power
            invariant
                j <= out@.len(),
                slot(out@, h) == slot(out@.subrange(0, j as int), h),
            decreases j,
        {
            proof {
                assert(out@.subrange(0, j as int).drop_last() =~= out@.subrange(0, j - 1));
            }
            j -= 1;
        }
        proof {
            if j > 0 {
                assert(out@.subrange(0, j as int).last() == out@[j - 1]);
            }
            lemma_in_order_len(hands@, (k + 1) as nat);
        }
        out.insert(j, h);
        k += 1;
    }
    out
}

/// What the first `k` of the hands win: each its bid times its place,
/// counted from one.
pub open spec fn winnings(sorted: Seq<Hand>, k: nat) -> int
    decreases k,
{
    if k == 0 {
        0
    } else {
        winnings(sorted, (k - 1) as nat) + k * sorted[k - 1].bid
    }
}

/// Whether what the hands of the lines win can be counted in 32 bits.
pub open spec fn can_total(ls: Seq<Seq<u8>>, j_as_joker: bool) -> bool {
    hands_of(ls, j_as_joker, ls.len()) is Some ==> {
        &&& ls.len() <= u32::MAX
        &&& forall|k: nat|
            k <= ls.len() ==> #[trigger] winnings(
                in_order(hands_of(ls, j_as_joker, ls.len())->0, ls.len()),
                k,
            ) <= u32::MAX
    }
}

/// What the ranking of the hands of the lines leads to.
pub open spec fn total_of(ls: Seq<Seq<u8>>, j_as_joker: bool) -> Result<u32, ParseError> {
    match hands_of(ls, j_as_joker, ls.len()) {
        Some(hands) => Ok(winnings(in_order(hands, ls.len()), ls.len()) as u32),
        None => Err(ParseError),
    }
}

/// What the hands of the text win when ranked by their power.
pub fn process_day(input: &str, j_as_joker: bool) -> (r: Result<u32, ParseError>)
    requires
        can_total(lines_of(input.spec_bytes()), j_as_joker),
    ensures
        r == total_of(lines_of(input.spec_bytes()), j_as_joker),
{
    let ls = lines(input.as_bytes());
    let ghost lv = lines_of(input.spec_bytes());
    let mut hands: Vec<Hand> = Vec::new();
    let mut i: usize = 0;
    while i < ls.len()
        invariant
            i <= ls@.len(),
            lv == views(ls@),
            lv == lines_of(input.spec_bytes()),
            hands_of(lv, j_as_joker, i as nat) == Some(hands@),
        decreases ls.len() - i,
    {
        assert(ls@[i as int]@ == lv[i as int]);
        match Hand::parse(ls[i].as_slice(), j_as_joker) {
            Some(h) => {
                hands.push(h);
            },
            None => {
                proof {
                    assert(hand_of(lv[i as int], j_as_joker) is None);
                    assert(hands_of(lv, j_as_joker, (i + 1) as nat) is None);
                    assert(lv.len() == ls@.len());
                    lemma_hands_fail(lv, j_as_joker, (i + 1) as nat, lv.len());
                }
                return Err(ParseError);
            },
        }
        i += 1;
    }
    proof {
        lemma_hands_len(lv, j_as_joker, lv.len());
    }
    let sorted = sort_by_power(&hands);
    let mut total: u32 = 0;
    let mut k: usize = 0;
    while k < sorted.len()
        invariant
            k <= sorted@.len(),
            sorted@.len() == lv.len(),
            sorted@.len() <= u32::MAX,
            sorted@ == in_order(hands@, lv.len()),
            forall|q: nat| q <= lv.len() ==> #[trigger] winnings(sorted@, q) <= u32::MAX,
            total == winnings(sorted@, k as nat),
        decreases sorted.len() - k,
    {
        proof {
            assert(winnings(sorted@, (k + 1) as nat) <= u32::MAX);
            assert((k + 1) * sorted@[k as int].bid >= 0) by (nonlinear_arith)
                requires
                    k >= 0,
                    sorted@[k as int].bid >= 0,
            ;
        }
        total = total + (k as u32 + 1) * sorted[k].bid;
        k += 1;
    }
    Ok(total)
}

/// Where a line holds no hand, the lines hold no hands.
pub proof fn lemma_hands_fail(ls: Seq<Seq<u8>>, j_as_joker: bool, k: nat, n: nat)
    requires
        hands_of(ls, j_as_joker, k) is None,
        k <= n,
    ensures
        hands_of(ls, j_as_joker, n) is None,
    decreases n,
{
    if k < n {
        lemma_hands_fail(ls, j_as_joker, k, (n - 1) as nat);
    }
}

/// As many hands are read as there are lines.
pub proof fn lemma_hands_len(ls: Seq<Seq<u8>>, j_as_joker: bool, k: nat)
    requires
        hands_of(ls, j_as_joker, k) is Some,
    ensures
        hands_of(ls, j_as_joker, k)->0.len() == k,
    decreases k,
{
    if k > 0 {
        lemma_hands_len(ls, j_as_joker, (k - 1) as nat);
    }
}

/// What the hands win where `J` is a jack.
pub fn day7_1(input: &str) -> (r: Result<u32, ParseError>)
    requires
        can_total(lines_of(input.spec_bytes()), false),
    ensures
        r == total_of(lines_of(input.spec_bytes()), false),
{
    process_day(input, false)
}

/// What the hands win where `J` is the joker.
pub fn day7_2(input: &str) -> (r: Result<u32, ParseError>)
    requires
        can_total(lines_of(input.spec_bytes()), true),
    ensures
        r == total_of(lines_of(input.spec_bytes()), true),
{
    process_day(input, true)
}

} // verus!
