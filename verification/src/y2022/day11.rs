//! Monkeys that inspect items and throw them on.

use crate::text::{
    bytes_eq, byte_is_digit, is_digit, lines, lines_of, parse_int, parse_u64, parse_usize, split,
    split_on, tokens, tokens_of, views,
};
use std::collections::VecDeque;
use vstd::prelude::*;
use vstd::string::*;

verus! {

/// The worry level of an item.
pub type Item = u64;

/// How an inspection changes the worry level: a sum or a product of two
/// operands, each a number or, where it is `None`, the old level.
#[derive(Debug, Clone, Copy, PartialEq, Eq)]
pub enum Op {
    Add(Option<Item>, Option<Item>),
    Mul(Option<Item>, Option<Item>),
}

/// The operand `n`, the old level `item` standing in for `None`.
pub open spec fn operand(n: Option<Item>, item: Item) -> int {
    match n {
        Some(v) => v as int,
        None => item as int,
    }
}

impl Op {
    /// The new level before any reduction.
    pub open spec fn raw(&self, item: Item) -> int {
        match self {
            Op::Add(n1, n2) => operand(*n1, item) + operand(*n2, item),
            Op::Mul(n1, n2) => operand(*n1, item) * operand(*n2, item),
        }
    }

    /// The new level: reduced modulo `divisors_product` where one is given.
    pub open spec fn spec_apply(&self, item: Item, divisors_product: Option<u64>) -> int {
        match divisors_product {
            Some(n) => self.raw(item) % (n as int),
            None => self.raw(item),
        }
    }

    pub fn apply(&self, item: Item, divisors_product: Option<u64>) -> (r: Item)
        requires
            self.raw(item) <= u64::MAX,
            divisors_product != Some(0u64),
        ensures
            r == self.spec_apply(item, divisors_product),
    {
        let res: u64 = match self {
            Op::Add(n1, n2) => {
                let a: u64 = match n1 {
                    Some(v) => *v,
                    None => item,
                };
                let b: u64 = match n2 {
                    Some(v) => *v,
                    None => item,
                };
                a + b
            },
            Op::Mul(n1, n2) => {
                let a: u64 = match n1 {
                    Some(v) => *v,
                    None => item,
                };
                let b: u64 = match n2 {
                    Some(v) => *v,
                    None => item,
                };
                proof {
                    assert(0 <= a * b) by (nonlinear_arith)
                        requires
                            0 <= a,
                            0 <= b,
                    ;
                }
                a * b
            },
        };
        match divisors_product {
            Some(n) => res % n,
            None => res,
        }
    }
}

/// To whom a monkey throws: to `case_true` if the level is divisible by
/// `test`, else to `case_false`.
#[derive(Debug, Clone, Copy, PartialEq, Eq)]
pub struct Test {
    pub test: Item,
    pub case_true: usize,
    pub case_false: usize,
}

impl Test {
    pub fn name_to_throw(&self, item: Item) -> (r: usize)
        requires
            self.test != 0,
        ensures
            r == if item % self.test == 0 {
                self.case_true
            } else {
                self.case_false
            },
    {
        if item % self.test == 0 {
            self.case_true
        } else {
            self.case_false
        }
    }
}


/// The digits among the first `k` bytes of `s`.
pub open spec fn digits_in(s: Seq<u8>, k: nat) -> Seq<u8>
    decreases k,
{
    if k == 0 {
        Seq::empty()
    } else if is_digit(s[k - 1]) {
        digits_in(s, (k - 1) as nat).push(s[k - 1])
    } else {
        digits_in(s, (k - 1) as nat)
    }
}

/// The digits of `s`.
pub fn digits(s: &[u8]) -> (r: Vec<u8>)
    ensures
        r@ == digits_in(s@, s@.len()),
{
    let mut out: Vec<u8> = Vec::new();
    let mut k: usize = 0;
    while k < s.len()
        invariant
            k <= s@.len(),
            out@ == digits_in(s@, k as nat),
        decreases s.len() - k,
    {
        if byte_is_digit(s[k]) {
            out.push(s[k]);
        }
        k += 1;
    }
    out
}

/// The items that the first `k` words name: the number that the digits
/// of a word spell, for each word that has digits; `None` where such a
/// number does not fit in 64 bits.
pub open spec fn items_in(words: Seq<Seq<u8>>, k: nat) -> Option<Seq<u64>>
    decreases k,
{
    if k == 0 {
        Some(Seq::empty())
    } else {
        let d = digits_in(words[k - 1], words[k - 1].len());
        match items_in(words, (k - 1) as nat) {
            None => None,
            Some(before) => if d.len() == 0 {
                Some(before)
            } else {
                match parse_int(d, 0, u64::MAX as int) {
                    Some(v) => Some(before.push(v as u64)),
                    None => None,
                }
            },
        }
    }
}

/// The operand that a word names: a number, or the old level where the
/// word is no number.
pub open spec fn operand_of(word: Seq<u8>) -> Option<Item> {
    match parse_int(word, 0, u64::MAX as int) {
        Some(v) => Some(v as u64),
        None => None,
    }
}

/// The operation that a line names: `Operation: new =`, an operand, `+`
/// or `*`, and an operand.
pub open spec fn op_line(line: Seq<u8>) -> Option<Op> {
    let t = tokens_of(line);
    if t.len() == 6 && t[0] == "Operation:".spec_bytes() && t[1] == "new".spec_bytes() && t[2]
        == "=".spec_bytes() {
        if t[4] == "+".spec_bytes() {
            Some(Op::Add(operand_of(t[3]), operand_of(t[5])))
        } else if t[4] == "*".spec_bytes() {
            Some(Op::Mul(operand_of(t[3]), operand_of(t[5])))
        } else {
            None
        }
    } else {
        None
    }
}

fn read_operand(word: &[u8]) -> (r: Option<Item>)
    ensures
        r == operand_of(word@),
{
    parse_u64(word)
}

impl Op {
    /// The operation that the line names.
    pub fn from_input(input: &[u8]) -> (r: Op)
        requires
            op_line(input@) is Some,
        ensures
            Some(r) == op_line(input@),
    {
        let line = tokens(input);
        assert(line@[3]@ == tokens_of(input@)[3]);
        assert(line@[4]@ == tokens_of(input@)[4]);
        assert(line@[5]@ == tokens_of(input@)[5]);
        let n1 = read_operand(line[3].as_slice());
        let n2 = read_operand(line[5].as_slice());
        if bytes_eq(line[4].as_slice(), "+".as_bytes()) {
            Op::Add(n1, n2)
        } else {
            Op::Mul(n1, n2)
        }
    }
}

/// The number at the end of a line of `n + 1` words, of which the first
/// `n` are `words`.
pub open spec fn tail_number(line: Seq<u8>, words: Seq<Seq<u8>>, max: int) -> Option<int> {
    let t = tokens_of(line);
    if t.len() == words.len() + 1 && t.subrange(0, words.len() as int) == words {
        parse_int(t[words.len() as int], 0, max)
    } else {
        None
    }
}

/// The words before the number of a test.
pub open spec fn test_words() -> Seq<Seq<u8>> {
    seq!["Test:".spec_bytes(), "divisible".spec_bytes(), "by".spec_bytes()]
}

/// The words before the name of the monkey to which an item is thrown.
pub open spec fn throw_words(case: bool) -> Seq<Seq<u8>> {
    seq![
        "If".spec_bytes(),
        if case {
            "true:".spec_bytes()
        } else {
            "false:".spec_bytes()
        },
        "throw".spec_bytes(),
        "to".spec_bytes(),
        "monkey".spec_bytes(),
    ]
}

/// The test that the three lines from `at` on describe.
pub open spec fn test_of(ls: Seq<Seq<u8>>, at: int) -> Option<Test> {
    if 0 <= at && at + 3 <= ls.len() {
        match (
            tail_number(ls[at], test_words(), u64::MAX as int),
            tail_number(ls[at + 1], throw_words(true), usize::MAX as int),
            tail_number(ls[at + 2], throw_words(false), usize::MAX as int),
        ) {
            (Some(t), Some(a), Some(b)) => Some(
                Test { test: t as u64, case_true: a as usize, case_false: b as usize },
            ),
            _ => None,
        }
    } else {
        None
    }
}

fn last_word(line: &[u8]) -> (r: Vec<u8>)
    requires
        tokens_of(line@).len() > 0,
    ensures
        r@ == tokens_of(line@).last(),
{
    let mut t = tokens(line);
    let n = t.len();
    assert(t@[n - 1]@ == tokens_of(line@)[n - 1]);
    t.remove(n - 1)
}

impl Test {
    /// The test that the three lines from `at` on describe.
    pub fn from_lines(lines: &Vec<Vec<u8>>, at: usize) -> (r: Test)
        requires
            test_of(views(lines@), at as int) is Some,
        ensures
            Some(r) == test_of(views(lines@), at as int),
    {
        let ghost ls = views(lines@);
        let total: usize = lines.len();
        assert(at + 3 <= total);
        assert(lines@[at as int]@ == ls[at as int]);
        assert(lines@[at + 1]@ == ls[at + 1]);
        assert(lines@[at + 2]@ == ls[at + 2]);
        let test: u64 = match parse_u64(last_word(lines[at].as_slice()).as_slice()) {
            Some(v) => v,
            None => 0,
        };
        let case_true: usize = match parse_usize(last_word(lines[at + 1].as_slice()).as_slice()) {
            Some(v) => v,
            None => 0,
        };
        let case_false: usize = match parse_usize(last_word(lines[at + 2].as_slice()).as_slice()) {
            Some(v) => v,
            None => 0,
        };
        Self { test, case_true, case_false }
    }
}

/// A monkey: its items in the order in which it will inspect them, what
/// an inspection does, and how many it has made.
#[derive(Debug)]
pub struct Monkey {
    pub _name: usize,
    pub items: VecDeque<Item>,
    pub worry_divider: Item,
    pub divisors_product: Option<u64>,
    pub operation: Op,
    pub test: Test,
    pub inspections: usize,
}

/// A monkey as a value of mathematics.
pub struct Ape {
    pub name: usize,
    pub items: Seq<Item>,
    pub worry_divider: Item,
    pub divisors_product: Option<u64>,
    pub operation: Op,
    pub test: Test,
    pub inspections: usize,
}

impl Monkey {
    /// The monkey as a value of mathematics.
    pub open spec fn view(&self) -> Ape {
        Ape {
            name: self._name,
            items: self.items@,
            worry_divider: self.worry_divider,
            divisors_product: self.divisors_product,
            operation: self.operation,
            test: self.test,
            inspections: self.inspections,
        }
    }
}

/// The monkey that a block of lines describes: its name is spelled by
/// the digits of the first line, its items by the words of the second
/// but the first, then come its operation and its test.
pub open spec fn ape_of(block: Seq<u8>, worry_divider: Item) -> Option<Ape> {
    let ls = lines_of(block);
    if ls.len() >= 6 {
        match (
            parse_int(digits_in(ls[0], ls[0].len()), 0, usize::MAX as int),
            items_in(tokens_of(ls[1]).skip(1), tokens_of(ls[1]).skip(1).len()),
            op_line(ls[2]),
            test_of(ls, 3),
        ) {
            (Some(name), Some(items), Some(operation), Some(test)) => if tokens_of(ls[1]).len()
                >= 1 {
                Some(
                    Ape {
                        name: name as usize,
                        items,
                        worry_divider,
                        divisors_product: None,
                        operation,
                        test,
                        inspections: 0,
                    },
                )
            } else {
                None
            },
            _ => None,
        }
    } else {
        None
    }
}

impl Monkey {
    /// The monkey that the block of lines describes.
    pub fn from_input(input: &[u8], worry_divider: Item) -> (r: Monkey)
        requires
            ape_of(input@, worry_divider) is Some,
        ensures
            Some(r@) == ape_of(input@, worry_divider),
    {
        let ls = lines(input);
        let ghost lv = lines_of(input@);
        assert(ls@[0]@ == lv[0]);
        assert(ls@[1]@ == lv[1]);
        assert(ls@[2]@ == lv[2]);
        let _name: usize = match parse_usize(digits(ls[0].as_slice()).as_slice()) {
            Some(v) => v,
            None => 0,
        };
        let words = tokens(ls[1].as_slice());
        let ghost rest = tokens_of(lv[1]).skip(1);
        let mut items: VecDeque<Item> = VecDeque::new();
        let mut k: usize = 1;
        while k < words.len()
            invariant
                1 <= k <= words@.len(),
                views(words@) == tokens_of(lv[1]),
                rest == tokens_of(lv[1]).skip(1),
                items_in(rest, rest.len()) is Some,
                items_in(rest, (k - 1) as nat) == Some(items@),
            decreases words.len() - k,
        {
            proof {
                lemma_items(rest, k as nat, rest.len());
                assert(words@[k as int]@ == rest[k - 1]);
            }
            let d = digits(words[k].as_slice());
            if d.len() > 0 {
                match parse_u64(d.as_slice()) {
                    Some(v) => {
                        items.push_back(v);
                    },
                    None => {},
                }
            }
            k += 1;
        }
        let operation = Op::from_input(ls[2].as_slice());
        let test = Test::from_lines(&ls, 3);
        Self {
            _name,
            items,
            worry_divider,
            divisors_product: None,
            operation,
            test,
            inspections: 0,
        }
    }
}

/// Where all words name items, the first of them do.
pub proof fn lemma_items(words: Seq<Seq<u8>>, k: nat, n: nat)
    requires
        items_in(words, n) is Some,
        k <= n,
    ensures
        items_in(words, k) is Some,
    decreases n,
{
    if k < n {
        lemma_items(words, k, (n - 1) as nat);
    }
}


impl Ape {
    /// Whether the monkey can inspect its first item: the new level fits
    /// in 64 bits, nothing is divided by zero, and the inspections can
    /// be counted.
    pub open spec fn can_throw(self) -> bool {
        &&& self.items.len() > 0
        &&& self.operation.raw(self.items[0]) <= u64::MAX
        &&& self.divisors_product != Some(0u64)
        &&& self.worry_divider != 0
        &&& self.test.test != 0
        &&& self.inspections < usize::MAX
    }

    /// The level of the first item after the inspection.
    pub open spec fn new_level(self) -> Item {
        (self.operation.spec_apply(self.items[0], self.divisors_product) / (
        self.worry_divider as int)) as u64
    }

    /// The monkey to which the first item is thrown.
    pub open spec fn target(self) -> usize {
        if self.new_level() % self.test.test == 0 {
            self.test.case_true
        } else {
            self.test.case_false
        }
    }

    /// The monkey after it has thrown its first item.
    pub open spec fn after_throw(self) -> Ape {
        Ape {
            items: self.items.subrange(1, self.items.len() as int),
            inspections: (self.inspections + 1) as usize,
            ..self
        }
    }

    /// The monkey after it has caught `item`.
    pub open spec fn after_catch(self, item: Item) -> Ape {
        Ape { items: self.items.push(item), ..self }
    }
}

impl Monkey {
    /// Inspects the first item and says to whom it goes with which
    /// level; `None` where the monkey has no item.
    pub fn throw(&mut self) -> (r: Option<(usize, Item)>)
        requires
            old(self)@.items.len() > 0 ==> old(self)@.can_throw(),
        ensures
            match r {
                Some(p) => old(self)@.items.len() > 0 && p.0 == old(self)@.target() && p.1
                    == old(self)@.new_level() && final(self)@ == old(self)@.after_throw(),
                None => old(self)@.items.len() == 0 && final(self)@ == old(self)@,
            },
    {
        let item = match self.items.pop_front() {
            Some(i) => i,
            None => {
                return None;
            },
        };
        self.inspections += 1;
        let item = self.operation.apply(item, self.divisors_product);
        let item = item / self.worry_divider;
        let name = self.test.name_to_throw(item);
        Some((name, item))
    }

    /// Takes `item` as its last.
    pub fn catch(&mut self, item: Item)
        ensures
            final(self)@ == old(self)@.after_catch(item),
    {
        self.items.push_back(item);
    }
}

/// The monkeys as values of mathematics.
pub open spec fn apes(monkeys: Seq<Monkey>) -> Seq<Ape> {
    Seq::new(monkeys.len(), |i: int| monkeys[i]@)
}

/// The monkeys after monkey `m` has thrown `k` items; `None` where it
/// cannot inspect an item or throws to itself or to a monkey that is not
/// there.
pub open spec fn after_throws(ms: Seq<Ape>, m: int, k: nat) -> Option<Seq<Ape>>
    decreases k,
{
    if k == 0 {
        Some(ms)
    } else {
        match after_throws(ms, m, (k - 1) as nat) {
            None => None,
            Some(before) => if before[m].can_throw() && before[m].target() < before.len()
                && before[m].target() != m {
                Some(
                    before.update(m, before[m].after_throw()).update(
                        before[m].target() as int,
                        before[before[m].target() as int].after_catch(before[m].new_level()),
                    ),
                )
            } else {
                None
            },
        }
    }
}

/// The monkeys after the first `m` of them have had their turns: in its
/// turn a monkey throws all its items.
pub open spec fn after_turns(ms: Seq<Ape>, m: nat) -> Option<Seq<Ape>>
    decreases m,
{
    if m == 0 {
        Some(ms)
    } else {
        match after_turns(ms, (m - 1) as nat) {
            None => None,
            Some(before) => after_throws(before, m - 1, before[m - 1].items.len()),
        }
    }
}

/// The monkeys after `r` rounds, in each of which every monkey has its
/// turn.
pub open spec fn after_rounds(ms: Seq<Ape>, r: nat) -> Option<Seq<Ape>>
    decreases r,
{
    if r == 0 {
        Some(ms)
    } else {
        match after_rounds(ms, (r - 1) as nat) {
            None => None,
            Some(before) => after_turns(before, before.len()),
        }
    }
}

/// The two greatest numbers of inspections among the first `k` monkeys.
pub open spec fn busiest(ms: Seq<Ape>, k: nat) -> (int, int)
    decreases k,
{
    if k == 0 {
        (0, 0)
    } else {
        let before = busiest(ms, (k - 1) as nat);
        let n = ms[k - 1].inspections as int;
        if n >= before.0 {
            (n, before.0)
        } else if n > before.1 {
            (before.0, n)
        } else {
            before
        }
    }
}

/// The product of the two greatest numbers of inspections; of one
/// monkey its number, of none 1.
pub open spec fn business(ms: Seq<Ape>) -> int {
    let top = busiest(ms, ms.len());
    if ms.len() == 0 {
        1
    } else if ms.len() == 1 {
        top.0
    } else {
        top.0 * top.1
    }
}

/// Throwing leaves as many monkeys as there were.
pub proof fn lemma_throws_len(ms: Seq<Ape>, m: int, k: nat)
    requires
        after_throws(ms, m, k) is Some,
        0 <= m < ms.len(),
    ensures
        after_throws(ms, m, k)->0.len() == ms.len(),
        k > 0 ==> after_throws(ms, m, (k - 1) as nat) is Some,
    decreases k,
{
    if k > 0 {
        lemma_throws_len(ms, m, (k - 1) as nat);
    }
}

/// What has happened before the last throw has happened.
pub proof fn lemma_throws_before(ms: Seq<Ape>, m: int, j: nat, k: nat)
    requires
        after_throws(ms, m, k) is Some,
        j <= k,
    ensures
        after_throws(ms, m, j) is Some,
    decreases k,
{
    if j < k {
        lemma_throws_before(ms, m, j, (k - 1) as nat);
    }
}

/// After `j` throws of a turn the monkey holds the rest of what it held.
pub proof fn lemma_throws_items(ms: Seq<Ape>, m: int, j: nat)
    requires
        after_throws(ms, m, j) is Some,
        0 <= m < ms.len(),
        j <= ms[m].items.len(),
    ensures
        after_throws(ms, m, j)->0.len() == ms.len(),
        after_throws(ms, m, j)->0[m].items == ms[m].items.subrange(
            j as int,
            ms[m].items.len() as int,
        ),
    decreases j,
{
    if j > 0 {
        lemma_throws_before(ms, m, (j - 1) as nat, j);
        lemma_throws_items(ms, m, (j - 1) as nat);
        let before = after_throws(ms, m, (j - 1) as nat)->0;
        assert(before[m].items.subrange(1, before[m].items.len() as int) =~= ms[m].items.subrange(
            j as int,
            ms[m].items.len() as int,
        ));
    } else {
        assert(ms[m].items.subrange(0, ms[m].items.len() as int) =~= ms[m].items);
    }
}

/// Lets monkey `curr_m` have its turn.
fn take_turn(monkeys: &mut Vec<Monkey>, curr_m: usize)
    requires
        curr_m < old(monkeys)@.len(),
        after_throws(
            apes(old(monkeys)@),
            curr_m as int,
            old(monkeys)@[curr_m as int]@.items.len(),
        ) is Some,
    ensures
        Some(apes(final(monkeys)@)) == after_throws(
            apes(old(monkeys)@),
            curr_m as int,
            old(monkeys)@[curr_m as int]@.items.len(),
        ),
        final(monkeys)@.len() == old(monkeys)@.len(),
{
    let ghost first = apes(monkeys@);
    let ghost n = first[curr_m as int].items.len();
    let ghost mut k: nat = 0;
    let mut more = true;
    while more
        invariant
            curr_m < monkeys@.len(),
            monkeys@.len() == first.len(),
            n == first[curr_m as int].items.len(),
            k <= n,
            after_throws(first, curr_m as int, n) is Some,
            after_throws(first, curr_m as int, k) == Some(apes(monkeys@)),
            !more ==> k == n,
        decreases n - k + if more { 1int } else { 0int },
    {
        proof {
            lemma_throws_items(first, curr_m as int, k);
            if k < n {
                lemma_throws_before(first, curr_m as int, k + 1, n);
            }
        }
        let ghost before = apes(monkeys@);
        let mut monkey = monkeys.remove(curr_m);
        assert(monkey@ == before[curr_m as int]);
        let thrown = monkey.throw();
        monkeys.insert(curr_m, monkey);
        match thrown {
            Some((other_m, item)) => {
                let ghost less = apes(monkeys@);
                proof {
                    assert(less =~= before.update(
                        curr_m as int,
                        before[curr_m as int].after_throw(),
                    ));
                }
                let mut other = monkeys.remove(other_m);
                other.catch(item);
                monkeys.insert(other_m, other);
                proof {
                    assert(apes(monkeys@) =~= less.update(
                        other_m as int,
                        less[other_m as int].after_catch(item),
                    ));
                    k = k + 1;
                }
            },
            None => {
                proof {
                    assert(apes(monkeys@) =~= before);
                }
                more = false;
            },
        }
    }
}

/// What has happened before the last turn has happened, and leaves as
/// many monkeys as there were.
pub proof fn lemma_turns(ms: Seq<Ape>, j: nat, m: nat)
    requires
        after_turns(ms, m) is Some,
        j <= m <= ms.len(),
    ensures
        after_turns(ms, j) is Some,
        after_turns(ms, j)->0.len() == ms.len(),
    decreases m,
{
    if j < m {
        lemma_turns(ms, j, (m - 1) as nat);
    } else if m > 0 {
        lemma_turns(ms, (m - 1) as nat, (m - 1) as nat);
        let before = after_turns(ms, (m - 1) as nat)->0;
        lemma_throws_len(before, m - 1, before[m - 1].items.len());
    }
}

/// What has happened before the last round has happened, and leaves as
/// many monkeys as there were.
pub proof fn lemma_rounds(ms: Seq<Ape>, j: nat, r: nat)
    requires
        after_rounds(ms, r) is Some,
        j <= r,
    ensures
        after_rounds(ms, j) is Some,
        after_rounds(ms, j)->0.len() == ms.len(),
    decreases r,
{
    if j < r {
        lemma_rounds(ms, j, (r - 1) as nat);
    } else if r > 0 {
        lemma_rounds(ms, (r - 1) as nat, (r - 1) as nat);
        let before = after_rounds(ms, (r - 1) as nat)->0;
        lemma_turns(before, before.len(), before.len());
    }
}

/// Lets the monkeys play `rounds` rounds and gives the product of the
/// two greatest numbers of inspections.
pub fn play(monkeys: &mut Vec<Monkey>, rounds: usize) -> (r: usize)
    requires
        after_rounds(apes(old(monkeys)@), rounds as nat) is Some,
        business(after_rounds(apes(old(monkeys)@), rounds as nat)->0) <= usize::MAX,
    ensures
        Some(apes(final(monkeys)@)) == after_rounds(apes(old(monkeys)@), rounds as nat),
        r == business(apes(final(monkeys)@)),
{
    let ghost first = apes(monkeys@);
    let mut round: usize = 0;
    while round < rounds
        invariant
            round <= rounds,
            after_rounds(first, rounds as nat) is Some,
            after_rounds(first, round as nat) == Some(apes(monkeys@)),
            monkeys@.len() == first.len(),
        decreases rounds - round,
    {
        let ghost start = apes(monkeys@);
        proof {
            lemma_rounds(first, (round + 1) as nat, rounds as nat);
        }
        let mut curr_m: usize = 0;
        while curr_m < monkeys.len()
            invariant
                curr_m <= monkeys@.len(),
                monkeys@.len() == start.len(),
                after_turns(start, start.len()) is Some,
                after_turns(start, curr_m as nat) == Some(apes(monkeys@)),
            decreases monkeys.len() - curr_m,
        {
            proof {
                lemma_turns(start, (curr_m + 1) as nat, start.len());
                assert(apes(monkeys@)[curr_m as int] == monkeys@[curr_m as int]@);
            }
            take_turn(monkeys, curr_m);
            curr_m += 1;
        }
        round += 1;
    }
    let ghost ms = apes(monkeys@);
    let mut first_most: usize = 0;
    let mut second_most: usize = 0;
    let mut k: usize = 0;
    while k < monkeys.len()
        invariant
            k <= monkeys@.len(),
            ms == apes(monkeys@),
            (first_most as int, second_most as int) == busiest(ms, k as nat),
        decreases monkeys.len() - k,
    {
        let n = monkeys[k].inspections;
        assert(ms[k as int].inspections == n);
        if n >= first_most {
            second_most = first_most;
            first_most = n;
        } else if n > second_most {
            second_most = n;
        }
        k += 1;
    }
    if monkeys.len() == 0 {
        1
    } else if monkeys.len() == 1 {
        first_most
    } else {
        first_most * second_most
    }
}

/// The monkeys that the first `k` blocks describe.
pub open spec fn apes_of(blocks: Seq<Seq<u8>>, worry_divider: Item, k: nat) -> Option<Seq<Ape>>
    decreases k,
{
    if k == 0 {
        Some(Seq::empty())
    } else {
        match (apes_of(blocks, worry_divider, (k - 1) as nat), ape_of(blocks[k - 1], worry_divider)) {
            (Some(before), Some(a)) => Some(before.push(a)),
            _ => None,
        }
    }
}

/// The monkeys that the text describes, a block of lines each, with an
/// empty line between one and the next.
pub open spec fn troop_of(s: Seq<u8>, worry_divider: Item) -> Option<Seq<Ape>> {
    apes_of(split_on(s, seq![10u8, 10u8]), worry_divider, split_on(s, seq![10u8, 10u8]).len())
}

/// Where all blocks describe monkeys, the first of them do.
pub proof fn lemma_apes(blocks: Seq<Seq<u8>>, worry_divider: Item, k: nat, n: nat)
    requires
        apes_of(blocks, worry_divider, n) is Some,
        k <= n,
    ensures
        apes_of(blocks, worry_divider, k) is Some,
    decreases n,
{
    if k < n {
        lemma_apes(blocks, worry_divider, k, (n - 1) as nat);
    }
}

fn parse_input(input: &str, worry_divider: Item) -> (r: Vec<Monkey>)
    requires
        troop_of(input.spec_bytes(), worry_divider) is Some,
    ensures
        Some(apes(r@)) == troop_of(input.spec_bytes(), worry_divider),
{
    let gap: [u8; 2] = [10, 10];
    proof {
        assert(gap@ =~= seq![10u8, 10u8]);
    }
    let blocks = split(input.as_bytes(), gap.as_slice());
    let ghost bv = split_on(input.spec_bytes(), seq![10u8, 10u8]);
    let mut out: Vec<Monkey> = Vec::new();
    let mut k: usize = 0;
    while k < blocks.len()
        invariant
            k <= blocks@.len(),
            bv == views(blocks@),
            apes_of(bv, worry_divider, bv.len()) is Some,
            apes_of(bv, worry_divider, k as nat) == Some(apes(out@)),
        decreases blocks.len() - k,
    {
        proof {
            lemma_apes(bv, worry_divider, (k + 1) as nat, bv.len());
            assert(blocks@[k as int]@ == bv[k as int]);
        }
        let ghost before = apes(out@);
        let m = Monkey::from_input(blocks[k].as_slice(), worry_divider);
        let ghost a = m@;
        out.push(m);
        proof {
            assert(apes(out@) =~= before.push(a));
        }
        k += 1;
    }
    out
}

/// The monkeys that the text describes, whose worry is divided by 3
/// after each inspection.
pub fn parse_input_1(input: &str) -> (r: Vec<Monkey>)
    requires
        troop_of(input.spec_bytes(), 3) is Some,
    ensures
        Some(apes(r@)) == troop_of(input.spec_bytes(), 3),
{
    parse_input(input, 3)
}

/// The monkeys that the text describes, whose worry is not divided.
pub fn parse_input_2(input: &str) -> (r: Vec<Monkey>)
    requires
        troop_of(input.spec_bytes(), 1) is Some,
    ensures
        Some(apes(r@)) == troop_of(input.spec_bytes(), 1),
{
    parse_input(input, 1)
}

/// Whether the first part can be answered for the text.
pub open spec fn can_play_1(s: Seq<u8>) -> bool {
    &&& troop_of(s, 3) is Some
    &&& after_rounds(troop_of(s, 3)->0, 20) is Some
    &&& business(after_rounds(troop_of(s, 3)->0, 20)->0) <= usize::MAX
}

/// The product of the two greatest numbers of inspections after 20
/// rounds.
pub fn day11_1(input: &str) -> (r: usize)
    requires
        can_play_1(input.spec_bytes()),
    ensures
        r == business(after_rounds(troop_of(input.spec_bytes(), 3)->0, 20)->0),
{
    let mut monkeys = parse_input_1(input);
    play(&mut monkeys, 20)
}


/// The product of the numbers by which the first `k` monkeys test.
pub open spec fn tests_product(ms: Seq<Ape>, k: nat) -> int
    decreases k,
{
    if k == 0 {
        1
    } else {
        tests_product(ms, (k - 1) as nat) * ms[k - 1].test.test
    }
}

/// The monkeys, each of which reduces its levels modulo `p`.
pub open spec fn reducing(ms: Seq<Ape>, p: u64) -> Seq<Ape> {
    Seq::new(ms.len(), |i: int| Ape { divisors_product: Some(p), ..ms[i] })
}

/// The monkeys of the second part at the start: they reduce their
/// levels modulo the product of all the numbers by which they test.
pub open spec fn careful(ms: Seq<Ape>) -> Seq<Ape> {
    reducing(ms, tests_product(ms, ms.len()) as u64)
}

/// Whether the second part can be answered for the text.
pub open spec fn can_play_2(s: Seq<u8>) -> bool {
    &&& troop_of(s, 1) is Some
    &&& forall|k: nat|
        k <= troop_of(s, 1)->0.len() ==> #[trigger] tests_product(troop_of(s, 1)->0, k) <= u64::MAX
    &&& after_rounds(careful(troop_of(s, 1)->0), 10000) is Some
    &&& business(after_rounds(careful(troop_of(s, 1)->0), 10000)->0) <= usize::MAX
}

/// The product of the two greatest numbers of inspections after 10000
/// rounds of monkeys whose worry is not divided.
pub fn day11_2(input: &str) -> (r: usize)
    requires
        can_play_2(input.spec_bytes()),
    ensures
        r == business(after_rounds(careful(troop_of(input.spec_bytes(), 1)->0), 10000)->0),
{
    let mut monkeys = parse_input_2(input);
    let ghost first = apes(monkeys@);
    let mut divisors_product: u64 = 1;
    let mut k: usize = 0;
    while k < monkeys.len()
        invariant
            k <= monkeys@.len(),
            first == apes(monkeys@),
            forall|j: nat| j <= first.len() ==> #[trigger] tests_product(first, j) <= u64::MAX,
            divisors_product == tests_product(first, k as nat),
        decreases monkeys.len() - k,
    {
        proof {
            assert(tests_product(first, (k + 1) as nat) <= u64::MAX);
            assert(first[k as int].test == monkeys@[k as int].test);
            assert(0 <= divisors_product * monkeys@[k as int].test.test) by (nonlinear_arith)
                requires
                    0 <= divisors_product,
                    0 <= monkeys@[k as int].test.test,
            ;
        }
        divisors_product = divisors_product * monkeys[k].test.test;
        k += 1;
    }
    let mut k: usize = 0;
    while k < monkeys.len()
        invariant
            k <= monkeys@.len(),
            monkeys@.len() == first.len(),
            forall|j: int|
                0 <= j < k ==> (#[trigger] monkeys@[j])@ == (Ape {
                    divisors_product: Some(divisors_product),
                    ..first[j]
                }),
            forall|j: int| k <= j < first.len() ==> (#[trigger] monkeys@[j])@ == first[j],
        decreases monkeys.len() - k,
    {
        let mut m = monkeys.remove(k);
        m.divisors_product = Some(divisors_product);
        monkeys.insert(k, m);
        k += 1;
    }
    proof {
        assert(apes(monkeys@) =~= careful(first));
    }
    play(&mut monkeys, 10000)
}

} // verus!
