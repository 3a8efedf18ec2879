//! Arithmetic between monkeys.

use crate::text::{
    bytes_eq, cut_once, is_digit, lines, lines_of, parse_i64, parse_int, split_once, tokens,
    tokens_of, views,
};
use vstd::prelude::*;
use vstd::string::*;

verus! {

/// An operation between two numbers.
#[derive(Debug, Clone, Copy, PartialEq, Eq, Structural)]
pub enum Op {
    Add,
    Sub,
    Mul,
    Div,
}

/// The operation that a sign names.
pub open spec fn op_of(s: Seq<u8>) -> Option<Op> {
    if s.len() != 1 {
        None
    } else if s[0] == 43 {
        Some(Op::Add)
    } else if s[0] == 45 {
        Some(Op::Sub)
    } else if s[0] == 42 {
        Some(Op::Mul)
    } else if s[0] == 47 {
        Some(Op::Div)
    } else {
        None
    }
}

/// The quotient of `a` by `b`, rounded towards 0.
pub open spec fn quotient(a: int, b: int) -> int {
    if (a >= 0) == (b > 0) {
        (if a >= 0 {
            a
        } else {
            -a
        }) / (if b > 0 {
            b
        } else {
            -b
        })
    } else {
        -((if a >= 0 {
            a
        } else {
            -a
        }) / (if b > 0 {
            b
        } else {
            -b
        }))
    }
}

impl Op {
    /// What the operation makes of `n1` and `n2`.
    pub open spec fn spec_apply(self, n1: int, n2: int) -> int {
        match self {
            Op::Add => n1 + n2,
            Op::Sub => n1 - n2,
            Op::Mul => n1 * n2,
            Op::Div => quotient(n1, n2),
        }
    }

    /// Whether the result can be computed in 64 bits.
    pub open spec fn applies(self, n1: int, n2: int) -> bool {
        &&& self == Op::Div ==> n2 != 0
        &&& i64::MIN <= self.spec_apply(n1, n2) <= i64::MAX
    }

    /// The operation that one of the signs `+`, `-`, `*`, `/` names.
    pub fn from_str(s: &str) -> (r: Self)
        requires
            op_of(s.spec_bytes()) is Some,
        ensures
            Some(r) == op_of(s.spec_bytes()),
    {
        let b = s.as_bytes();
        if b[0] == 43 {
            Op::Add
        } else if b[0] == 45 {
            Op::Sub
        } else if b[0] == 42 {
            Op::Mul
        } else {
            Op::Div
        }
    }

    pub fn apply(&self, n1: i64, n2: i64) -> (r: i64)
        requires
            self.applies(n1 as int, n2 as int),
        ensures
            r == self.spec_apply(n1 as int, n2 as int),
    {
        match self {
            Op::Add => n1 + n2,
            Op::Sub => n1 - n2,
            Op::Mul => n1 * n2,
            Op::Div => {
                let a: i128 = n1 as i128;
                let b: i128 = n2 as i128;
                let ua: i128 = if a >= 0 {
                    a
                } else {
                    -a
                };
                let ub: i128 = if b > 0 {
                    b
                } else {
                    -b
                };
                let q: i128 = ua / ub;
                if (a >= 0) == (b > 0) {
                    q as i64
                } else {
                    (-q) as i64
                }
            },
        }
    }
}


/// The name of a monkey.
pub type MonkeyName = Vec<u8>;

/// What a monkey does: it yells a number, or it is the human with a
/// number, or it yells what an operation makes of the numbers of two
/// others.
#[derive(Debug, Clone)]
pub enum Monkey {
    Num(i64),
    Human(i64),
    Math(MonkeyName, Op, MonkeyName),
}

/// What a monkey does, as a value of mathematics.
pub enum Job {
    Num(int),
    Human(int),
    Math(Seq<u8>, Op, Seq<u8>),
}

impl Monkey {
    /// What the monkey does.
    pub open spec fn view(&self) -> Job {
        match self {
            Monkey::Num(n) => Job::Num(*n as int),
            Monkey::Human(n) => Job::Human(*n as int),
            Monkey::Math(a, op, b) => Job::Math(a@, *op, b@),
        }
    }
}

/// A monkey with its name.
#[derive(Debug, Clone)]
pub struct Entry {
    pub name: MonkeyName,
    pub monkey: Monkey,
}

/// A monkey with its name, as a value of mathematics.
pub struct Named {
    pub name: Seq<u8>,
    pub job: Job,
}

/// The monkeys as values of mathematics.
pub open spec fn troop(monkeys: Seq<Entry>) -> Seq<Named> {
    Seq::new(monkeys.len(), |i: int| Named { name: monkeys[i].name@, job: monkeys[i].monkey@ })
}

/// The monkey that a line describes: its name, `: `, and then a number,
/// or the names of two monkeys with the sign of an operation between
/// them. The monkey named `humn` is the human.
pub open spec fn named_of(line: Seq<u8>) -> Option<Named> {
    match cut_once(line, seq![58u8, 32u8]) {
        Some(p) => if p.0 == seq![104u8, 117u8, 109u8, 110u8] {
            match parse_int(p.1, i64::MIN as int, i64::MAX as int) {
                Some(n) => Some(Named { name: p.0, job: Job::Human(n) }),
                None => None,
            }
        } else if p.1.len() > 0 && is_digit(p.1[0]) {
            match parse_int(p.1, i64::MIN as int, i64::MAX as int) {
                Some(n) => Some(Named { name: p.0, job: Job::Num(n) }),
                None => None,
            }
        } else if p.1.len() > 0 && tokens_of(p.1).len() >= 3 && op_of(tokens_of(p.1)[1]) is Some {
            Some(
                Named {
                    name: p.0,
                    job: Job::Math(
                        tokens_of(p.1)[0],
                        op_of(tokens_of(p.1)[1])->0,
                        tokens_of(p.1)[2],
                    ),
                },
            )
        } else {
            None
        },
        None => None,
    }
}

/// Whether every line describes a monkey.
pub open spec fn is_troop(ls: Seq<Seq<u8>>) -> bool {
    forall|i: int| 0 <= i < ls.len() ==> named_of(#[trigger] ls[i]) is Some
}

/// The monkeys that the lines describe.
pub open spec fn troop_of(ls: Seq<Seq<u8>>) -> Seq<Named> {
    Seq::new(ls.len(), |i: int| named_of(ls[i])->0)
}

fn op_from_bytes(b: &[u8]) -> (r: Op)
    requires
        op_of(b@) is Some,
    ensures
        Some(r) == op_of(b@),
{
    if b[0] == 43 {
        Op::Add
    } else if b[0] == 45 {
        Op::Sub
    } else if b[0] == 42 {
        Op::Mul
    } else {
        Op::Div
    }
}

/// The monkeys that the lines of the text describe.
pub fn parse_input(input: &str) -> (r: Vec<Entry>)
    requires
        is_troop(lines_of(input.spec_bytes())),
    ensures
        troop(r@) == troop_of(lines_of(input.spec_bytes())),
{
    let ls = lines(input.as_bytes());
    let ghost lv = lines_of(input.spec_bytes());
    let colon: [u8; 2] = [58, 32];
    let humn: [u8; 4] = [104, 117, 109, 110];
    proof {
        assert(colon@ =~= seq![58u8, 32u8]);
        assert(humn@ =~= seq![104u8, 117u8, 109u8, 110u8]);
    }
    let mut out: Vec<Entry> = Vec::new();
    let mut i: usize = 0;
    while i < ls.len()
        invariant
            i <= ls@.len(),
            lv == views(ls@),
            is_troop(lv),
            colon@ == seq![58u8, 32u8],
            humn@ == seq![104u8, 117u8, 109u8, 110u8],
            out@.len() == i,
            forall|j: int|
                0 <= j < i ==> (Named { name: (#[trigger] out@[j]).name@, job: out@[j].monkey@ })
                    == named_of(lv[j])->0,
        decreases ls.len() - i,
    {
        assert(ls@[i as int]@ == lv[i as int]);
        assert(named_of(lv[i as int]) is Some);
        let (key, rest) = match split_once(ls[i].as_slice(), colon.as_slice()) {
            Some(p) => p,
            None => (Vec::new(), Vec::new()),
        };
        let monkey = if bytes_eq(key.as_slice(), humn.as_slice()) {
            match parse_i64(rest.as_slice()) {
                Some(n) => Monkey::Human(n),
                None => Monkey::Human(0),
            }
        } else if rest[0] >= 48 && rest[0] <= 57 {
            match parse_i64(rest.as_slice()) {
                Some(n) => Monkey::Num(n),
                None => Monkey::Num(0),
            }
        } else {
            let mut math = tokens(rest.as_slice());
            let key2 = math.remove(2);
            let op = op_from_bytes(math[1].as_slice());
            let key1 = math.remove(0);
            Monkey::Math(key1, op, key2)
        };
        out.push(Entry { name: key, monkey });
        i += 1;
    }
    proof {
        assert(troop(out@) =~= troop_of(lv));
    }
    out
}

/// The place of the last of the first `k` monkeys with the name `name`.
pub open spec fn place_of(ms: Seq<Named>, name: Seq<u8>, k: nat) -> Option<int>
    decreases k,
{
    if k == 0 {
        None
    } else if ms[k - 1].name == name {
        Some(k - 1)
    } else {
        place_of(ms, name, (k - 1) as nat)
    }
}

/// A place is below the number of monkeys looked at.
pub proof fn lemma_place(ms: Seq<Named>, name: Seq<u8>, k: nat)
    ensures
        place_of(ms, name, k) is Some ==> 0 <= place_of(ms, name, k)->0 < k,
    decreases k,
{
    if k > 0 {
        lemma_place(ms, name, (k - 1) as nat);
    }
}

/// The place of the monkey with the name `name`: of the last, where
/// several have it.
pub fn find(monkeys: &Vec<Entry>, name: &[u8]) -> (r: Option<usize>)
    ensures
        match r {
            Some(i) => place_of(troop(monkeys@), name@, monkeys@.len()) == Some(i as int) && i
                < monkeys@.len(),
            None => place_of(troop(monkeys@), name@, monkeys@.len()) is None,
        },
{
    let mut k: usize = monkeys.len();
    while k > 0
        invariant
            k <= monkeys@.len(),
            place_of(troop(monkeys@), name@, monkeys@.len()) == place_of(
                troop(monkeys@),
                name@,
                k as nat,
            ),
        decreases k,
    {
        if bytes_eq(monkeys[k - 1].name.as_slice(), name) {
            return Some(k - 1);
        }
        k -= 1;
    }
    None
}

/// The number that the monkey named `name` yells, found in no more than
/// `fuel` steps down; `None` where a monkey is missing, a number does not
/// fit in 64 bits, or a division is by zero.
pub open spec fn yelled(ms: Seq<Named>, name: Seq<u8>, fuel: nat) -> Option<int>
    decreases fuel,
{
    match place_of(ms, name, ms.len()) {
        None => None,
        Some(i) => match ms[i].job {
            Job::Num(n) => Some(n),
            Job::Human(n) => Some(n),
            Job::Math(a, op, b) => if fuel == 0 {
                None
            } else {
                match (yelled(ms, a, (fuel - 1) as nat), yelled(ms, b, (fuel - 1) as nat)) {
                    (Some(x), Some(y)) => if op.applies(x, y) {
                        Some(op.spec_apply(x, y))
                    } else {
                        None
                    },
                    _ => None,
                }
            },
        },
    }
}

fn yell(name: &[u8], monkeys: &Vec<Entry>, Ghost(fuel): Ghost<nat>) -> (r: i64)
    requires
        yelled(troop(monkeys@), name@, fuel) is Some,
    ensures
        r == yelled(troop(monkeys@), name@, fuel)->0,
    decreases fuel,
{
    let i = match find(monkeys, name) {
        Some(i) => i,
        None => {
            return 0;
        },
    };
    assert(troop(monkeys@)[i as int].job == monkeys@[i as int].monkey@);
    match &monkeys[i].monkey {
        Monkey::Num(n) => *n,
        Monkey::Human(n) => *n,
        Monkey::Math(k1, op, k2) => {
            let a = yell(k1.as_slice(), monkeys, Ghost((fuel - 1) as nat));
            let b = yell(k2.as_slice(), monkeys, Ghost((fuel - 1) as nat));
            op.apply(a, b)
        },
    }
}

/// The number that the monkey named `name` yells.
pub fn get_monkey_num(name: &[u8], monkeys: &Vec<Entry>) -> (r: i64)
    requires
        yelled(troop(monkeys@), name@, monkeys@.len()) is Some,
    ensures
        r == yelled(troop(monkeys@), name@, monkeys@.len())->0,
{
    yell(name, monkeys, Ghost(monkeys@.len()))
}

/// The name `root`.
pub open spec fn root_name() -> Seq<u8> {
    seq![114u8, 111u8, 111u8, 116u8]
}

/// The number that the monkey named `root` yells.
pub fn day21_1(input: &str) -> (r: i64)
    requires
        is_troop(lines_of(input.spec_bytes())),
        yelled(
            troop_of(lines_of(input.spec_bytes())),
            root_name(),
            lines_of(input.spec_bytes()).len(),
        ) is Some,
    ensures
        r == yelled(
            troop_of(lines_of(input.spec_bytes())),
            root_name(),
            lines_of(input.spec_bytes()).len(),
        )->0,
{
    let monkeys = parse_input(input);
    let root: [u8; 4] = [114, 111, 111, 116];
    proof {
        assert(root@ =~= root_name());
        assert(troop(monkeys@).len() == monkeys@.len());
    }
    get_monkey_num(root.as_slice(), &monkeys)
}


/// What is found of the number of a monkey when the number of the human
/// is not known.
pub enum Found {
    /// The number, which does not depend on the human.
    Known(int),
    /// The number depends on the human.
    Open,
    /// There is no number: a monkey is missing, a number does not fit, a
    /// division is by zero, or both sides depend on the human.
    Stuck,
}

/// What is found of the number of the monkey named `name` in no more
/// than `fuel` steps down.
pub open spec fn sought(ms: Seq<Named>, name: Seq<u8>, fuel: nat) -> Found
    decreases fuel,
{
    match place_of(ms, name, ms.len()) {
        None => Found::Stuck,
        Some(i) => match ms[i].job {
            Job::Num(n) => Found::Known(n),
            Job::Human(_) => Found::Open,
            Job::Math(a, op, b) => if fuel == 0 {
                Found::Stuck
            } else {
                match (sought(ms, a, (fuel - 1) as nat), sought(ms, b, (fuel - 1) as nat)) {
                    (Found::Known(x), Found::Known(y)) => if op.applies(x, y) {
                        Found::Known(op.spec_apply(x, y))
                    } else {
                        Found::Stuck
                    },
                    (Found::Open, Found::Known(_)) => Found::Open,
                    (Found::Known(_), Found::Open) => Found::Open,
                    _ => Found::Stuck,
                }
            },
        },
    }
}

/// What is found in some steps is found in more steps too.
pub proof fn lemma_sought(ms: Seq<Named>, name: Seq<u8>, f: nat, g: nat)
    requires
        !(sought(ms, name, f) is Stuck),
        f <= g,
    ensures
        sought(ms, name, g) == sought(ms, name, f),
    decreases f,
{
    match place_of(ms, name, ms.len()) {
        None => {},
        Some(i) => match ms[i].job {
            Job::Math(a, op, b) => {
                if f > 0 {
                    lemma_sought(ms, a, (f - 1) as nat, (g - 1) as nat);
                    lemma_sought(ms, b, (f - 1) as nat, (g - 1) as nat);
                }
            },
            _ => {},
        },
    }
}

/// The monkey at the place of a name has that name.
pub proof fn lemma_place_name(ms: Seq<Named>, name: Seq<u8>, k: nat)
    requires
        k <= ms.len(),
    ensures
        place_of(ms, name, k) is Some ==> 0 <= place_of(ms, name, k)->0 < k && ms[place_of(
            ms,
            name,
            k,
        )->0].name == name,
    decreases k,
{
    if k > 0 {
        lemma_place_name(ms, name, (k - 1) as nat);
    }
}

/// What is found as a value of the program: a number, or nothing where
/// it depends on the human.
pub open spec fn found_of(r: Option<i64>) -> Found {
    match r {
        Some(n) => Found::Known(n as int),
        None => Found::Open,
    }
}

fn seek(name: &[u8], monkeys: &Vec<Entry>, Ghost(fuel): Ghost<nat>) -> (r: Option<i64>)
    requires
        !(sought(troop(monkeys@), name@, fuel) is Stuck),
    ensures
        found_of(r) == sought(troop(monkeys@), name@, fuel),
    decreases fuel,
{
    let i = match find(monkeys, name) {
        Some(i) => i,
        None => {
            return None;
        },
    };
    assert(troop(monkeys@)[i as int].job == monkeys@[i as int].monkey@);
    match &monkeys[i].monkey {
        Monkey::Num(n) => Some(*n),
        Monkey::Human(_) => None,
        Monkey::Math(k1, op, k2) => {
            let left = seek(k1.as_slice(), monkeys, Ghost((fuel - 1) as nat));
            let right = seek(k2.as_slice(), monkeys, Ghost((fuel - 1) as nat));
            match (left, right) {
                (Some(n1), Some(n2)) => Some(op.apply(n1, n2)),
                _ => None,
            }
        },
    }
}

/// The number of the monkey named `name`, or `None` where it depends on
/// the human.
pub fn get_monkey_num_opt(name: &[u8], monkeys: &Vec<Entry>) -> (r: Option<i64>)
    requires
        !(sought(troop(monkeys@), name@, monkeys@.len()) is Stuck),
    ensures
        found_of(r) == sought(troop(monkeys@), name@, monkeys@.len()),
{
    seek(name, monkeys, Ghost(monkeys@.len()))
}

/// What the table holds is true: a number at the place of a monkey is
/// the number of that monkey.
pub open spec fn cache_ok(cache: Seq<Option<i64>>, ms: Seq<Named>) -> bool {
    &&& cache.len() == ms.len()
    &&& forall|i: int|
        0 <= i < ms.len() && (#[trigger] cache[i]) is Some ==> sought(ms, ms[i].name, ms.len())
            == Found::Known(cache[i]->0 as int)
}

fn seek_cache(
    name: &[u8],
    monkeys: &Vec<Entry>,
    cache: &mut Vec<Option<i64>>,
    Ghost(fuel): Ghost<nat>,
) -> (r: Option<i64>)
    requires
        !(sought(troop(monkeys@), name@, fuel) is Stuck),
        fuel <= monkeys@.len(),
        cache_ok(old(cache)@, troop(monkeys@)),
    ensures
        found_of(r) == sought(troop(monkeys@), name@, fuel),
        cache_ok(final(cache)@, troop(monkeys@)),
    decreases fuel,
{
    let ghost ms = troop(monkeys@);
    let i = match find(monkeys, name) {
        Some(i) => i,
        None => {
            return None;
        },
    };
    proof {
        lemma_place_name(ms, name@, ms.len());
        lemma_sought(ms, name@, fuel, ms.len());
        assert(ms[i as int].job == monkeys@[i as int].monkey@);
    }
    match cache[i] {
        Some(known) => {
            return Some(known);
        },
        None => {},
    }
    match &monkeys[i].monkey {
        Monkey::Num(n) => Some(*n),
        Monkey::Human(_) => None,
        Monkey::Math(k1, op, k2) => {
            let left = seek_cache(k1.as_slice(), monkeys, cache, Ghost((fuel - 1) as nat));
            let right = seek_cache(k2.as_slice(), monkeys, cache, Ghost((fuel - 1) as nat));
            match (left, right) {
                (Some(n1), Some(n2)) => {
                    let res = op.apply(n1, n2);
                    cache.set(i, Some(res));
                    Some(res)
                },
                _ => None,
            }
        },
    }
}

/// The number of the monkey named `name`, or `None` where it depends on
/// the human. What it finds it notes in the table, and what the table
/// holds it does not work out again.
pub fn get_monkey_num_opt_cache(
    name: &[u8],
    monkeys: &Vec<Entry>,
    cache: &mut Vec<Option<i64>>,
) -> (r: Option<i64>)
    requires
        !(sought(troop(monkeys@), name@, monkeys@.len()) is Stuck),
        cache_ok(old(cache)@, troop(monkeys@)),
    ensures
        found_of(r) == sought(troop(monkeys@), name@, monkeys@.len()),
        cache_ok(final(cache)@, troop(monkeys@)),
{
    seek_cache(name, monkeys, cache, Ghost(monkeys@.len()))
}

/// The number that the human must yell for the monkey named `curr` to
/// yell `num`, found in no more than `fuel` steps down: of the two
/// monkeys of an operation one depends on the human, and the number
/// that it must yell follows from `num` and the number of the other.
/// `None` where this fails.
pub open spec fn needed(ms: Seq<Named>, num: int, curr: Seq<u8>, fuel: nat) -> Option<int>
    decreases fuel,
{
    match place_of(ms, curr, ms.len()) {
        None => None,
        Some(i) => match ms[i].job {
            Job::Num(_) => None,
            Job::Human(_) => Some(num),
            Job::Math(left, op, right) => if fuel == 0 {
                None
            } else {
                match (sought(ms, left, ms.len()), sought(ms, right, ms.len())) {
                    (Found::Open, Found::Known(n)) => {
                        let back = match op {
                            Op::Add => Op::Sub,
                            Op::Sub => Op::Add,
                            Op::Mul => Op::Div,
                            Op::Div => Op::Mul,
                        };
                        if back.applies(num, n) {
                            needed(ms, back.spec_apply(num, n), left, (fuel - 1) as nat)
                        } else {
                            None
                        }
                    },
                    (Found::Known(n), Found::Open) => match op {
                        Op::Add => if Op::Sub.applies(num, n) {
                            needed(ms, num - n, right, (fuel - 1) as nat)
                        } else {
                            None
                        },
                        Op::Sub => if Op::Sub.applies(n, num) {
                            needed(ms, n - num, right, (fuel - 1) as nat)
                        } else {
                            None
                        },
                        Op::Mul => if Op::Div.applies(num, n) {
                            needed(ms, quotient(num, n), right, (fuel - 1) as nat)
                        } else {
                            None
                        },
                        Op::Div => if Op::Div.applies(n, num) {
                            needed(ms, quotient(n, num), right, (fuel - 1) as nat)
                        } else {
                            None
                        },
                    },
                    _ => None,
                }
            },
        },
    }
}

fn need(num: i64, curr: &[u8], monkeys: &Vec<Entry>, Ghost(fuel): Ghost<nat>) -> (r: i64)
    requires
        needed(troop(monkeys@), num as int, curr@, fuel) is Some,
    ensures
        r == needed(troop(monkeys@), num as int, curr@, fuel)->0,
    decreases fuel,
{
    let i = match find(monkeys, curr) {
        Some(i) => i,
        None => {
            return 0;
        },
    };
    assert(troop(monkeys@)[i as int].job == monkeys@[i as int].monkey@);
    match &monkeys[i].monkey {
        Monkey::Num(_) => 0,
        Monkey::Human(_) => num,
        Monkey::Math(left, op, right) => {
            let left_num = get_monkey_num_opt(left.as_slice(), monkeys);
            let right_num = get_monkey_num_opt(right.as_slice(), monkeys);
            match (left_num, right_num) {
                (None, Some(n)) => {
                    let back = match op {
                        Op::Add => Op::Sub,
                        Op::Sub => Op::Add,
                        Op::Mul => Op::Div,
                        Op::Div => Op::Mul,
                    };
                    need(back.apply(num, n), left.as_slice(), monkeys, Ghost((fuel - 1) as nat))
                },
                (Some(n), None) => {
                    let next = match op {
                        Op::Add => Op::Sub.apply(num, n),
                        Op::Sub => Op::Sub.apply(n, num),
                        Op::Mul => Op::Div.apply(num, n),
                        Op::Div => Op::Div.apply(n, num),
                    };
                    need(next, right.as_slice(), monkeys, Ghost((fuel - 1) as nat))
                },
                _ => 0,
            }
        },
    }
}

/// The number that the human must yell for the monkey named `curr` to
/// yell `num`.
pub fn human_should_be(num: i64, curr: &[u8], monkeys: &Vec<Entry>) -> (r: i64)
    requires
        needed(troop(monkeys@), num as int, curr@, monkeys@.len()) is Some,
    ensures
        r == needed(troop(monkeys@), num as int, curr@, monkeys@.len())->0,
{
    need(num, curr, monkeys, Ghost(monkeys@.len()))
}

/// The number that the human must yell for the two monkeys of `root` to
/// yell the same: one of them depends on the human and must yell the
/// number of the other.
pub open spec fn human_number(ms: Seq<Named>) -> Option<int> {
    match place_of(ms, root_name(), ms.len()) {
        None => None,
        Some(i) => match ms[i].job {
            Job::Math(left, _, right) => match (
                sought(ms, left, ms.len()),
                sought(ms, right, ms.len()),
            ) {
                (Found::Open, Found::Known(n)) => if i64::MIN <= n <= i64::MAX {
                    needed(ms, n, left, ms.len())
                } else {
                    None
                },
                (Found::Known(n), Found::Open) => if i64::MIN <= n <= i64::MAX {
                    needed(ms, n, right, ms.len())
                } else {
                    None
                },
                _ => None,
            },
            _ => None,
        },
    }
}

/// The number that the human must yell.
pub fn day21_2(input: &str) -> (r: i64)
    requires
        is_troop(lines_of(input.spec_bytes())),
        human_number(troop_of(lines_of(input.spec_bytes()))) is Some,
    ensures
        r == human_number(troop_of(lines_of(input.spec_bytes())))->0,
{
    let monkeys = parse_input(input);
    let ghost ms = troop(monkeys@);
    let root: [u8; 4] = [114, 111, 111, 116];
    proof {
        assert(root@ =~= root_name());
        assert(ms.len() == monkeys@.len());
    }
    let i = match find(&monkeys, root.as_slice()) {
        Some(i) => i,
        None => {
            return 0;
        },
    };
    assert(ms[i as int].job == monkeys@[i as int].monkey@);
    let mut cache: Vec<Option<i64>> = Vec::new();
    let mut k: usize = 0;
    while k < monkeys.len()
        invariant
            k <= monkeys@.len(),
            cache@.len() == k,
            forall|j: int| 0 <= j < k ==> cache@[j] is None,
        decreases monkeys.len() - k,
    {
        cache.push(None);
        k += 1;
    }
    match &monkeys[i].monkey {
        Monkey::Math(left, _, right) => {
            let left_num = get_monkey_num_opt_cache(left.as_slice(), &monkeys, &mut cache);
            let right_num = get_monkey_num_opt_cache(right.as_slice(), &monkeys, &mut cache);
            match (left_num, right_num) {
                (None, Some(n)) => human_should_be(n, left.as_slice(), &monkeys),
                (Some(n), None) => human_should_be(n, right.as_slice(), &monkeys),
                _ => 0,
            }
        },
        _ => 0,
    }
}

} // verus!
