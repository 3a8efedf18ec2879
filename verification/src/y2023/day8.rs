//! A network of nodes, walked by a list of turns that repeats.

use crate::arith::{lcm, lcm_u64};
use crate::text::{gap_end, skip_gap};
use vstd::prelude::*;
use vstd::string::*;

verus! {

/// The text was no network.
#[derive(Debug, PartialEq, Eq)]
pub struct ParseError;

/// A turn at a node.
#[derive(Debug, Clone, Copy, PartialEq, Eq, Structural)]
pub enum Direction {
    Left,
    Right,
}

/// The turn that `b` names, if it is `L` or `R`.
pub open spec fn dir_of(b: u8) -> Option<Direction> {
    if b == 76 {
        Some(Direction::Left)
    } else if b == 82 {
        Some(Direction::Right)
    } else {
        None
    }
}

impl Direction {
    /// The turn that stands in `input` at `i`, with the index behind it.
    pub fn parse(input: &[u8], i: usize) -> (r: Option<(Self, usize)>)
        ensures
            match r {
                Some(p) => i < input@.len() && dir_of(input@[i as int]) == Some(p.0) && p.1 == i
                    + 1,
                None => i >= input@.len() || dir_of(input@[i as int]) is None,
            },
    {
        if i >= input.len() {
            None
        } else if input[i] == 76 {
            Some((Direction::Left, i + 1))
        } else if input[i] == 82 {
            Some((Direction::Right, i + 1))
        } else {
            None
        }
    }
}

/// The number of a node: its three letters, five bits each, the first
/// lowest.
#[derive(Debug, Clone, Copy, PartialEq, Eq, PartialOrd, Ord, Hash, Structural)]
pub struct NodeId(pub u16);

/// Whether `b` is a capital letter.
pub open spec fn is_upper(b: u8) -> bool {
    65 <= b <= 90
}

/// The number of the node with the letters `a`, `b`, `c`.
pub open spec fn id_of(a: u8, b: u8, c: u8) -> int {
    (a - 65) + 32 * (b - 65) + 1024 * (c - 65)
}

/// The number of the node whose letters stand in `s` at `i`.
pub open spec fn id_at(s: Seq<u8>, i: int) -> Option<int> {
    if 0 <= i && i + 3 <= s.len() && is_upper(s[i]) && is_upper(s[i + 1]) && is_upper(s[i + 2]) {
        Some(id_of(s[i], s[i + 1], s[i + 2]))
    } else {
        None
    }
}

/// The numbers of nodes are below this.
pub const NODE_LIMIT: usize = 32768;

impl NodeId {
    /// The node whose three capital letters stand in `input` at `i`, with
    /// the index behind them.
    pub fn parse(input: &[u8], i: usize) -> (r: Option<(Self, usize)>)
        ensures
            match r {
                Some(p) => id_at(input@, i as int) == Some(p.0.0 as int) && p.1 == i + 3
                    && p.0.0 < NODE_LIMIT,
                None => id_at(input@, i as int) is None,
            },
    {
        if input.len() < 3 || i > input.len() - 3 {
            return None;
        }
        let a: u8 = input[i];
        let b: u8 = input[i + 1];
        let c: u8 = input[i + 2];
        if !(65 <= a && a <= 90 && 65 <= b && b <= 90 && 65 <= c && c <= 90) {
            return None;
        }
        Some((Self::from_chars(&[a, b, c]), i + 3))
    }

    /// Whether the last letter of the node is `ascii_letter`.
    pub fn ends_with(&self, ascii_letter: u8) -> (r: bool)
        requires
            is_upper(ascii_letter),
        ensures
            r == (self.0 / 1024 == ascii_letter - 65),
    {
        (self.0 / 1024) == (ascii_letter - 65) as u16
    }

    /// The node with the three capital letters `chars`.
    pub fn from_chars(chars: &[u8; 3]) -> (r: Self)
        requires
            is_upper(chars[0]),
            is_upper(chars[1]),
            is_upper(chars[2]),
        ensures
            r.0 == id_of(chars[0], chars[1], chars[2]),
            r.0 < NODE_LIMIT,
    {
        let a: u16 = (chars[0] - 65) as u16;
        let b: u16 = (chars[1] - 65) as u16;
        let c: u16 = (chars[2] - 65) as u16;
        Self(a + 32 * b + 1024 * c)
    }
}

/// Where a node leads to the left and to the right.
#[derive(Debug, Clone, Copy, PartialEq, Eq, Structural)]
pub struct Node {
    pub left: NodeId,
    pub right: NodeId,
}

/// A node as it stands in the text, and the index behind it.
pub struct Entry {
    pub id: int,
    pub left: int,
    pub right: int,
    pub next: int,
}

/// The node that stands in `s` at `i`, after a gap: its letters, ` = (`,
/// the letters of the node to the left, `, `, those of the node to the
/// right, and `)`.
pub open spec fn node_at(s: Seq<u8>, i: int) -> Option<Entry> {
    let j = gap_end(s, i);
    if id_at(s, j) is Some && j + 16 <= s.len() && s[j + 3] == 32 && s[j + 4] == 61 && s[j + 5]
        == 32 && s[j + 6] == 40 && id_at(s, j + 7) is Some && s[j + 10] == 44 && s[j + 11] == 32
        && id_at(s, j + 12) is Some && s[j + 15] == 41 {
        Some(
            Entry {
                id: id_at(s, j)->0,
                left: id_at(s, j + 7)->0,
                right: id_at(s, j + 12)->0,
                next: j + 16,
            },
        )
    } else {
        None
    }
}

impl Node {
    /// The node that stands in `input` at `i`, with its number and the
    /// index behind it.
    pub fn parse(input: &[u8], i: usize) -> (r: Option<((NodeId, Self), usize)>)
        requires
            i <= input@.len(),
        ensures
            match r {
                Some(p) => node_at(input@, i as int) == Some(
                    Entry {
                        id: p.0.0.0 as int,
                        left: p.0.1.left.0 as int,
                        right: p.0.1.right.0 as int,
                        next: p.1 as int,
                    },
                ) && i < p.1 <= input@.len() && p.0.0.0 < NODE_LIMIT && p.0.1.left.0 < NODE_LIMIT
                    && p.0.1.right.0 < NODE_LIMIT,
                None => node_at(input@, i as int) is None,
            },
    {
        let j = skip_gap(input, i);
        let (id, _) = match NodeId::parse(input, j) {
            Some(p) => p,
            None => {
                return None;
            },
        };
        if input.len() - j < 16 {
            return None;
        }
        if !(input[j + 3] == 32 && input[j + 4] == 61 && input[j + 5] == 32 && input[j + 6] == 40) {
            return None;
        }
        let (left, _) = match NodeId::parse(input, j + 7) {
            Some(p) => p,
            None => {
                return None;
            },
        };
        if !(input[j + 10] == 44 && input[j + 11] == 32) {
            return None;
        }
        let (right, _) = match NodeId::parse(input, j + 12) {
            Some(p) => p,
            None => {
                return None;
            },
        };
        if input[j + 15] != 41 {
            return None;
        }
        Some(((id, Node { left, right }), j + 16))
    }
}

/// Where the turns end that begin at `i`.
pub open spec fn dirs_end(s: Seq<u8>, i: int) -> int
    decreases s.len() - i,
{
    if 0 <= i < s.len() && dir_of(s[i]) is Some {
        dirs_end(s, i + 1)
    } else {
        i
    }
}

/// The turns with which the text begins.
pub open spec fn turns_of(s: Seq<u8>) -> Seq<Direction> {
    Seq::new(dirs_end(s, 0) as nat, |k: int| dir_of(s[k])->0)
}

/// The network without nodes.
pub open spec fn no_nodes() -> Seq<Option<Node>> {
    Seq::new(NODE_LIMIT as nat, |k: int| None::<Node>)
}

/// The node that an entry stands for.
pub open spec fn node_of(e: Entry) -> Node {
    Node { left: NodeId(e.left as u16), right: NodeId(e.right as u16) }
}

/// The network `t` with the nodes that stand in `s` from `i` on, up to
/// the first place where none stands; a node that comes again takes the
/// place of the earlier one.
pub open spec fn nodes_from(s: Seq<u8>, i: int, t: Seq<Option<Node>>) -> Seq<Option<Node>>
    decreases s.len() - i,
{
    match node_at(s, i) {
        Some(e) => if i < e.next {
            nodes_from(s, e.next, t.update(e.id, Some(node_of(e))))
        } else {
            t
        },
        None => t,
    }
}

/// The network that the text holds behind its turns: for each number the
/// node, if there is one.
pub open spec fn network_of(s: Seq<u8>) -> Seq<Option<Node>> {
    nodes_from(s, dirs_end(s, 0), no_nodes())
}

/// The turns and the network that the text holds.
pub fn parse_input(input: &str) -> (r: Result<(Vec<Direction>, Vec<Option<Node>>), ParseError>)
    ensures
        r is Ok,
        r->Ok_0.0@ == turns_of(input.spec_bytes()),
        r->Ok_0.1@ == network_of(input.spec_bytes()),
{
    let s = input.as_bytes();
    let mut dirs: Vec<Direction> = Vec::new();
    let mut i: usize = 0;
    let mut more = true;
    while more
        invariant
            i <= s@.len(),
            s@ == input.spec_bytes(),
            dirs_end(s@, 0) == dirs_end(s@, i as int),
            dirs@.len() == i,
            forall|k: int| 0 <= k < i ==> dir_of(s@[k]) == Some(#[trigger] dirs@[k]),
            !more ==> dirs_end(s@, i as int) == i,
        decreases s@.len() - i + if more { 1int } else { 0int },
    {
        match Direction::parse(s, i) {
            Some(p) => {
                dirs.push(p.0);
                i = p.1;
            },
            None => {
                more = false;
            },
        }
    }
    proof {
        assert(dirs_end(s@, i as int) == i);
        assert(dirs@ =~= turns_of(s@));
    }
    let mut nodes: Vec<Option<Node>> = Vec::new();
    let mut k: usize = 0;
    while k < NODE_LIMIT
        invariant
            k <= NODE_LIMIT,
            nodes@.len() == k,
            forall|j: int| 0 <= j < k ==> nodes@[j] == None::<Node>,
        decreases NODE_LIMIT - k,
    {
        nodes.push(None);
        k += 1;
    }
    proof {
        assert(nodes@ =~= no_nodes());
    }
    let mut more = true;
    while more
        invariant
            i <= s@.len(),
            s@ == input.spec_bytes(),
            nodes@.len() == NODE_LIMIT,
            network_of(s@) == nodes_from(s@, i as int, nodes@),
            !more ==> network_of(s@) == nodes@,
        decreases s@.len() - i + if more { 1int } else { 0int },
    {
        match Node::parse(s, i) {
            Some(p) => {
                let id: usize = p.0.0.0 as usize;
                nodes.set(id, Some(p.0.1));
                i = p.1;
            },
            None => {
                more = false;
            },
        }
    }
    Ok((dirs, nodes))
}


/// The node to which the turn `d` leads from `node`, if the network has
/// that node.
pub open spec fn next_node(t: Seq<Option<Node>>, node: int, d: Direction) -> Option<int> {
    if 0 <= node < t.len() {
        match t[node] {
            Some(n) => Some(
                if d == Direction::Left {
                    n.left.0 as int
                } else {
                    n.right.0 as int
                },
            ),
            None => None,
        }
    } else {
        None
    }
}

/// The node reached from `start` after `n` steps, the turns taken in
/// turn and again from the first; `None` where a node is missing on the
/// way.
pub open spec fn node_after(t: Seq<Option<Node>>, dirs: Seq<Direction>, start: int, n: nat) -> Option<
    int,
>
    decreases n,
{
    if n == 0 {
        Some(start)
    } else {
        match node_after(t, dirs, start, (n - 1) as nat) {
            Some(c) => next_node(t, c, dirs[(n - 1) % (dirs.len() as int)]),
            None => None,
        }
    }
}

/// Whether `node` ends a walk: the node `ZZZ`, or, where `any_z` holds,
/// any node whose last letter is `Z`.
pub open spec fn is_goal(node: int, any_z: bool) -> bool {
    if any_z {
        node / 1024 == 25
    } else {
        node == 26425
    }
}

/// Whether the walk from `start` comes to a goal after `n` steps and
/// not before.
pub open spec fn arrives(
    t: Seq<Option<Node>>,
    dirs: Seq<Direction>,
    start: int,
    n: nat,
    any_z: bool,
) -> bool {
    &&& n >= 1
    &&& node_after(t, dirs, start, n) is Some
    &&& is_goal(node_after(t, dirs, start, n)->0, any_z)
    &&& forall|m: nat|
        1 <= m < n ==> (#[trigger] node_after(t, dirs, start, m)) is Some && !is_goal(
            node_after(t, dirs, start, m)->0,
            any_z,
        )
}

/// Whether the walk from `start` comes to a goal in a number of steps
/// that can be counted in 64 bits.
pub open spec fn can_arrive(
    t: Seq<Option<Node>>,
    dirs: Seq<Direction>,
    start: int,
    any_z: bool,
) -> bool {
    exists|n: nat| n <= u64::MAX && #[trigger] arrives(t, dirs, start, n, any_z)
}

/// The number of steps after which the walk from `start` comes to a goal.
pub open spec fn steps_to_goal(
    t: Seq<Option<Node>>,
    dirs: Seq<Direction>,
    start: int,
    any_z: bool,
) -> nat {
    choose|n: nat| n <= u64::MAX && #[trigger] arrives(t, dirs, start, n, any_z)
}

/// The number of steps from `start` to a goal.
pub fn walk(nodes: &Vec<Option<Node>>, dirs: &Vec<Direction>, start: NodeId, any_z: bool) -> (r:
    u64)
    requires
        dirs@.len() > 0,
        nodes@.len() == NODE_LIMIT,
        start.0 < NODE_LIMIT,
        forall|k: int|
            0 <= k < nodes@.len() && (#[trigger] nodes@[k]) is Some ==> nodes@[k]->0.left.0
                < NODE_LIMIT && nodes@[k]->0.right.0 < NODE_LIMIT,
        can_arrive(nodes@, dirs@, start.0 as int, any_z),
    ensures
        arrives(nodes@, dirs@, start.0 as int, r as nat, any_z),
        r == steps_to_goal(nodes@, dirs@, start.0 as int, any_z),
{
    let ghost t = nodes@;
    let ghost s0 = start.0 as int;
    let ghost goal = steps_to_goal(t, dirs@, s0, any_z);
    let len = dirs.len();
    let mut curr_node = start;
    let mut steps: u64 = 0;
    let mut idx: usize = 0;
    let mut found = false;
    while !found
        invariant
            len == dirs@.len(),
            len > 0,
            t == nodes@,
            s0 == start.0,
            t.len() == NODE_LIMIT,
            forall|k: int|
                0 <= k < t.len() && (#[trigger] t[k]) is Some ==> t[k]->0.left.0 < NODE_LIMIT
                    && t[k]->0.right.0 < NODE_LIMIT,
            goal <= u64::MAX,
            arrives(t, dirs@, s0, goal, any_z),
            curr_node.0 < NODE_LIMIT,
            idx < len,
            idx == steps % (len as u64),
            steps <= goal,
            found ==> steps == goal,
            !found ==> steps < goal,
            node_after(t, dirs@, s0, steps as nat) == Some(curr_node.0 as int),
            forall|m: nat|
                1 <= m <= steps && !found ==> !is_goal(
                    (#[trigger] node_after(t, dirs@, s0, m))->0,
                    any_z,
                ),
        decreases goal - steps + if found { 0int } else { 1int },
    {
        let ghost before = steps;
        steps += 1;
        proof {
            assert(node_after(t, dirs@, s0, steps as nat) is Some);
            lemma_next_phase(before as int, len as int, idx as int);
        }
        let node = match nodes[curr_node.0 as usize] {
            Some(n) => n,
            None => Node { left: curr_node, right: curr_node },
        };
        curr_node = match dirs[idx] {
            Direction::Left => node.left,
            Direction::Right => node.right,
        };
        idx = if idx + 1 == len {
            0
        } else {
            idx + 1
        };
        let at_goal = if any_z {
            curr_node.ends_with(90)
        } else {
            curr_node.0 == 26425
        };
        if at_goal {
            found = true;
            proof {
                if steps < goal {
                    assert(!is_goal(node_after(t, dirs@, s0, steps as nat)->0, any_z));
                }
            }
        } else {
            proof {
                if steps == goal {
                    assert(is_goal(node_after(t, dirs@, s0, goal)->0, any_z));
                }
            }
        }
    }
    steps
}

/// The place in the list of turns after one more step.
pub proof fn lemma_next_phase(n: int, len: int, idx: int)
    requires
        0 <= n,
        0 < len,
        idx == n % len,
    ensures
        0 <= idx < len,
        (n + 1) % len == if idx + 1 == len {
            0
        } else {
            idx + 1
        },
{
    vstd::arithmetic::div_mod::lemma_fundamental_div_mod(n, len);
    vstd::arithmetic::div_mod::lemma_mod_bound(n, len);
    let q = n / len;
    if idx + 1 == len {
        assert(n + 1 == (q + 1) * len + 0) by (nonlinear_arith)
            requires
                n == len * q + idx,
                idx + 1 == len,
        ;
        vstd::arithmetic::div_mod::lemma_fundamental_div_mod_converse(n + 1, len, q + 1, 0);
    } else {
        assert(n + 1 == q * len + (idx + 1)) by (nonlinear_arith)
            requires
                n == len * q + idx,
        ;
        vstd::arithmetic::div_mod::lemma_fundamental_div_mod_converse(n + 1, len, q, idx + 1);
    }
}

/// The network leads to nodes whose numbers are below the limit.
pub proof fn lemma_network(s: Seq<u8>, i: int, t: Seq<Option<Node>>)
    requires
        t.len() == NODE_LIMIT,
        forall|k: int|
            0 <= k < t.len() && (#[trigger] t[k]) is Some ==> t[k]->0.left.0 < NODE_LIMIT
                && t[k]->0.right.0 < NODE_LIMIT,
    ensures
        nodes_from(s, i, t).len() == NODE_LIMIT,
        forall|k: int|
            0 <= k < NODE_LIMIT && (#[trigger] nodes_from(s, i, t)[k]) is Some ==> nodes_from(
                s,
                i,
                t,
            )[k]->0.left.0 < NODE_LIMIT && nodes_from(s, i, t)[k]->0.right.0 < NODE_LIMIT,
    decreases s.len() - i,
{
    match node_at(s, i) {
        Some(e) => {
            if i < e.next {
                let j = gap_end(s, i);
                lemma_network(s, e.next, t.update(e.id, Some(node_of(e))));
            }
        },
        None => {},
    }
}

/// The number of steps from `AAA` to `ZZZ`; none where the text has no
/// turns.
pub fn day8_1(input: &str) -> (r: Result<u64, ParseError>)
    requires
        turns_of(input.spec_bytes()).len() > 0 ==> can_arrive(
            network_of(input.spec_bytes()),
            turns_of(input.spec_bytes()),
            0,
            false,
        ),
    ensures
        r == Ok::<u64, ParseError>(
            if turns_of(input.spec_bytes()).len() == 0 {
                0u64
            } else {
                steps_to_goal(
                    network_of(input.spec_bytes()),
                    turns_of(input.spec_bytes()),
                    0,
                    false,
                ) as u64
            },
        ),
{
    let (dirs, nodes) = match parse_input(input) {
        Ok(p) => p,
        Err(e) => {
            return Err(e);
        },
    };
    if dirs.len() == 0 {
        return Ok(0);
    }
    proof {
        lemma_network(input.spec_bytes(), dirs_end(input.spec_bytes(), 0), no_nodes());
    }
    let start = NodeId::from_chars(&[65, 65, 65]);
    Ok(walk(&nodes, &dirs, start, false))
}

/// The least common multiple of the numbers of steps from each of the
/// first `k` numbers that is a node of the network to a node that ends
/// with `Z`.
pub open spec fn all_arrive(t: Seq<Option<Node>>, dirs: Seq<Direction>, k: nat) -> nat
    decreases k,
{
    if k == 0 {
        1
    } else if t[k - 1] is Some {
        lcm(all_arrive(t, dirs, (k - 1) as nat), steps_to_goal(t, dirs, k - 1, true))
    } else {
        all_arrive(t, dirs, (k - 1) as nat)
    }
}

/// Whether every node that ends with `A` comes to one that ends with `Z`,
/// and the least common multiples on the way fit in 64 bits. The nodes
/// that end with `A` are those with the first 1024 numbers.
pub open spec fn can_all_arrive(t: Seq<Option<Node>>, dirs: Seq<Direction>) -> bool {
    &&& forall|k: int| 0 <= k < 1024 && (#[trigger] t[k]) is Some ==> can_arrive(t, dirs, k, true)
    &&& forall|k: nat| k <= 1024 ==> #[trigger] all_arrive(t, dirs, k) <= u64::MAX
}

/// The number of steps after which the walks from all the nodes that end
/// with `A` are at nodes that end with `Z` at once: the least common
/// multiple of the steps of each.
pub fn day8_2(input: &str) -> (r: Result<u64, ParseError>)
    requires
        turns_of(input.spec_bytes()).len() > 0 ==> can_all_arrive(
            network_of(input.spec_bytes()),
            turns_of(input.spec_bytes()),
        ),
    ensures
        r == Ok::<u64, ParseError>(
            if turns_of(input.spec_bytes()).len() == 0 {
                1u64
            } else {
                all_arrive(network_of(input.spec_bytes()), turns_of(input.spec_bytes()), 1024)
                    as u64
            },
        ),
{
    let (dirs, nodes) = match parse_input(input) {
        Ok(p) => p,
        Err(e) => {
            return Err(e);
        },
    };
    if dirs.len() == 0 {
        return Ok(1);
    }
    proof {
        lemma_network(input.spec_bytes(), dirs_end(input.spec_bytes(), 0), no_nodes());
    }
    let mut acc: u64 = 1;
    let mut k: u16 = 0;
    while k < 1024
        invariant
            k <= 1024,
            dirs@.len() > 0,
            nodes@.len() == NODE_LIMIT,
            forall|j: int|
                0 <= j < nodes@.len() && (#[trigger] nodes@[j]) is Some ==> nodes@[j]->0.left.0
                    < NODE_LIMIT && nodes@[j]->0.right.0 < NODE_LIMIT,
            can_all_arrive(nodes@, dirs@),
            acc == all_arrive(nodes@, dirs@, k as nat),
        decreases 1024 - k,
    {
        proof {
            assert(all_arrive(nodes@, dirs@, (k + 1) as nat) <= u64::MAX);
        }
        if nodes[k as usize].is_some() {
            let start = NodeId(k);
            if start.ends_with(65) {
                let steps = walk(&nodes, &dirs, start, true);
                acc = lcm_u64(acc, steps);
            }
        }
        k += 1;
    }
    Ok(acc)
}

} // verus!
