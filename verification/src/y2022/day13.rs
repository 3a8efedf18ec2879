//! Packets: integers and nested lists, read from text and put in order.

use crate::text::{
    lemma_first_space_bounds,
    lines,
    lines_of,
    parse_i32,
    parse_int,
    trim,
    trim_end_index,
    trimmed,
    views,
};
use vstd::prelude::*;
use vstd::string::*;

verus! {

/// A packet: an integer, or a list of packets.
#[derive(Debug)]
pub enum Packet {
    Int(i32),
    List(Vec<Packet>),
}

/// What a packet is, as a value of mathematics.
pub enum Tree {
    Int(int),
    List(Seq<Tree>),
}

/// How one packet stands to another.
#[derive(Debug, Clone, Copy, PartialEq, Eq, Structural)]
pub enum Order {
    Less,
    Equal,
    Greater,
}

/// The text was no packet.
#[derive(Debug, PartialEq, Eq)]
pub struct ParsePacketError;

/// How the lists `v` and `w` compare from index `i` on: by the first pair
/// of items that differ, and where one list ends first, the shorter is
/// less.
pub open spec fn list_order(v: Seq<Tree>, w: Seq<Tree>, i: int) -> Order
    decreases v, w, v.len() - i,
{
    if i < 0 {
        Order::Equal
    } else if i >= v.len() && i >= w.len() {
        Order::Equal
    } else if i >= v.len() {
        Order::Less
    } else if i >= w.len() {
        Order::Greater
    } else {
        let c = tree_order(v[i], w[i]);
        if c != Order::Equal {
            c
        } else {
            list_order(v, w, i + 1)
        }
    }
}

/// How the packets `a` and `b` compare. Two integers compare as numbers,
/// two lists item by item; an integer beside a list counts as the list of
/// that one integer.
pub open spec fn tree_order(a: Tree, b: Tree) -> Order
    decreases a, b, 0int,
{
    match (a, b) {
        (Tree::Int(x), Tree::Int(y)) => if x < y {
            Order::Less
        } else if x == y {
            Order::Equal
        } else {
            Order::Greater
        },
        (Tree::Int(x), Tree::List(w)) => if w.len() == 0 {
            Order::Greater
        } else {
            let c = tree_order(Tree::Int(x), w[0]);
            if c != Order::Equal {
                c
            } else if w.len() == 1 {
                Order::Equal
            } else {
                Order::Less
            }
        },
        (Tree::List(v), Tree::Int(y)) => if v.len() == 0 {
            Order::Less
        } else {
            let c = tree_order(v[0], Tree::Int(y));
            if c != Order::Equal {
                c
            } else if v.len() == 1 {
                Order::Equal
            } else {
                Order::Greater
            }
        },
        (Tree::List(v), Tree::List(w)) => list_order(v, w, 0),
    }
}

/// An integer beside a list compares as the list of that one integer
/// does.
pub proof fn lemma_promote(x: int, w: Seq<Tree>)
    ensures
        tree_order(Tree::Int(x), Tree::List(w)) == tree_order(
            Tree::List(seq![Tree::Int(x)]),
            Tree::List(w),
        ),
        tree_order(Tree::List(w), Tree::Int(x)) == tree_order(
            Tree::List(w),
            Tree::List(seq![Tree::Int(x)]),
        ),
{
    let one = seq![Tree::Int(x)];
    reveal_with_fuel(list_order, 3);
    assert(one[0] == Tree::Int(x));
    assert(list_order(one, w, 0) == tree_order(Tree::Int(x), Tree::List(w)));
    assert(list_order(w, one, 0) == tree_order(Tree::List(w), Tree::Int(x)));
}

/// Of two lists that agree as far as the shorter goes, the shorter is
/// less.
pub proof fn lemma_prefix_is_less(v: Seq<Tree>, w: Seq<Tree>, i: int)
    requires
        0 <= i <= v.len() < w.len(),
        forall|k: int| i <= k < v.len() ==> tree_order(#[trigger] v[k], w[k]) == Order::Equal,
    ensures
        list_order(v, w, i) == Order::Less,
    decreases v.len() - i,
{
    if i < v.len() {
        lemma_prefix_is_less(v, w, i + 1);
    }
}

impl Packet {
    /// The packet as a value of mathematics.
    pub open spec fn tree(&self) -> Tree
        decreases self,
    {
        match self {
            Packet::Int(n) => Tree::Int(*n as int),
            Packet::List(v) => Tree::List(
                Seq::new(
                    v.len() as nat,
                    |i: int|
                        if 0 <= i < v.len() {
                            v[i].tree()
                        } else {
                            Tree::Int(0)
                        },
                ),
            ),
        }
    }

    /// The list of the one packet `n`.
    pub fn list_wrap(n: Packet) -> (r: Packet)
        ensures
            r.tree() == Tree::List(seq![n.tree()]),
    {
        let mut v: Vec<Packet> = Vec::new();
        v.push(n);
        let r = Packet::List(v);
        proof {
            assert(r.tree()->List_0 =~= seq![n.tree()]);
        }
        r
    }

    /// How `self` stands to `other`.
    pub fn order(&self, other: &Packet) -> (r: Order)
        ensures
            r == tree_order(self.tree(), other.tree()),
        decreases self, other,
    {
        match self {
            Packet::Int(x) => match other {
                Packet::Int(y) => {
                    if *x < *y {
                        Order::Less
                    } else if *x == *y {
                        Order::Equal
                    } else {
                        Order::Greater
                    }
                },
                Packet::List(w) => {
                    if w.len() == 0 {
                        Order::Greater
                    } else {
                        let c = self.order(&w[0]);
                        if c != Order::Equal {
                            c
                        } else if w.len() == 1 {
                            Order::Equal
                        } else {
                            Order::Less
                        }
                    }
                },
            },
            Packet::List(v) => match other {
                Packet::Int(y) => {
                    if v.len() == 0 {
                        Order::Less
                    } else {
                        let c = v[0].order(other);
                        if c != Order::Equal {
                            c
                        } else if v.len() == 1 {
                            Order::Equal
                        } else {
                            Order::Greater
                        }
                    }
                },
                Packet::List(w) => {
                    let ghost vt = self.tree()->List_0;
                    let ghost wt = other.tree()->List_0;
                    let mut i: usize = 0;
                    loop
                        invariant
                            self == Packet::List(*v),
                            other == Packet::List(*w),
                            vt == self.tree()->List_0,
                            wt == other.tree()->List_0,
                            i <= v.len(),
                            i <= w.len(),
                            list_order(vt, wt, 0) == list_order(vt, wt, i as int),
                        decreases v.len() - i,
                    {
                        if i >= v.len() && i >= w.len() {
                            return Order::Equal;
                        } else if i >= v.len() {
                            return Order::Less;
                        } else if i >= w.len() {
                            return Order::Greater;
                        }
                        let c = v[i].order(&w[i]);
                        if c != Order::Equal {
                            return c;
                        }
                        i += 1;
                    }
                },
            },
        }
    }
}

/// The index of the first comma at or after `i` that stands outside all
/// brackets, where `bal` more brackets were opened than closed before `i`;
/// `s.len()` when there is none.
pub open spec fn top_comma(s: Seq<u8>, i: int, bal: int) -> int
    decreases s.len() - i,
{
    if i < 0 || i >= s.len() {
        s.len() as int
    } else if s[i] == 91 {
        top_comma(s, i + 1, bal + 1)
    } else if s[i] == 93 {
        top_comma(s, i + 1, bal - 1)
    } else if bal == 0 && s[i] == 44 {
        i
    } else {
        top_comma(s, i + 1, bal)
    }
}

pub proof fn lemma_top_comma_bounds(s: Seq<u8>, i: int, bal: int)
    requires
        0 <= i <= s.len(),
    ensures
        i <= top_comma(s, i, bal) <= s.len(),
    decreases s.len() - i,
{
    if i < s.len() {
        if s[i] == 91 {
            lemma_top_comma_bounds(s, i + 1, bal + 1);
        } else if s[i] == 93 {
            lemma_top_comma_bounds(s, i + 1, bal - 1);
        } else if bal == 0 && s[i] == 44 {
        } else {
            lemma_top_comma_bounds(s, i + 1, bal);
        }
    }
}

pub proof fn lemma_trimmed_len(s: Seq<u8>)
    ensures
        trimmed(s).len() <= s.len(),
{
    lemma_first_space_bounds(s, false, 0);
    lemma_trim_end_bounds(s);
}

pub proof fn lemma_trim_end_bounds(s: Seq<u8>)
    ensures
        0 <= trim_end_index(s) <= s.len(),
    decreases s.len(),
{
    if s.len() > 0 && crate::text::is_space(s.last()) {
        lemma_trim_end_bounds(s.drop_last());
    }
}

/// The packet that the text `s` spells, if it spells one: between white
/// space, either an integer of 32 bits, or `[`, packets with commas
/// between them, and `]`.
pub open spec fn parse_tree(s: Seq<u8>) -> Option<Tree>
    decreases s.len(), 0int,
{
    let t = trimmed(s);
    if t.len() >= 2 && t[0] == 91 && t.last() == 93 {
        proof {
            lemma_trimmed_len(s);
        }
        match parse_items(t.subrange(1, t.len() - 1), 0) {
            Some(items) => Some(Tree::List(items)),
            None => None,
        }
    } else {
        match parse_int(t, i32::MIN as int, i32::MAX as int) {
            Some(v) => Some(Tree::Int(v)),
            None => None,
        }
    }
}

/// The packets that `inner` spells from `pos` on, cut at the commas
/// outside all brackets; nothing follows a last comma.
pub open spec fn parse_items(inner: Seq<u8>, pos: int) -> Option<Seq<Tree>>
    decreases inner.len() + 1, inner.len() + 1 - pos,
{
    if pos < 0 || pos >= inner.len() {
        Some(Seq::empty())
    } else {
        let c = top_comma(inner, pos, 0);
        proof {
            lemma_top_comma_bounds(inner, pos, 0);
        }
        match parse_tree(inner.subrange(pos, c)) {
            None => None,
            Some(first) => match parse_items(inner, c + 1) {
                None => None,
                Some(rest) => Some(seq![first] + rest),
            },
        }
    }
}

/// The packets of `v`, as values of mathematics.
pub open spec fn trees(v: Seq<Packet>) -> Seq<Tree> {
    Seq::new(v.len(), |i: int| v[i].tree())
}

/// What `parse_items` gives from `pos` on, behind the packets `done`.
pub open spec fn items_after(done: Seq<Tree>, inner: Seq<u8>, pos: int) -> Option<Seq<Tree>> {
    match parse_items(inner, pos) {
        Some(rest) => Some(done + rest),
        None => None,
    }
}

/// Index of the first comma of `s` at or after `from` outside all brackets.
pub fn find_top_comma(s: &[u8], from: usize) -> (r: usize)
    requires
        from <= s.len(),
    ensures
        r == top_comma(s@, from as int, 0),
        from <= r <= s.len(),
{
    let mut i: usize = from;
    let mut bal: i128 = 0;
    proof {
        lemma_top_comma_bounds(s@, from as int, 0);
    }
    while i < s.len()
        invariant
            from <= i <= s.len(),
            -(i - from) <= bal <= i - from,
            top_comma(s@, from as int, 0) == top_comma(s@, i as int, bal as int),
        decreases s.len() - i,
    {
        let c = s[i];
        if c == 91 {
            bal = bal + 1;
        } else if c == 93 {
            bal = bal - 1;
        } else if bal == 0 && c == 44 {
            return i;
        }
        i += 1;
    }
    i
}

/// Reads a packet.
pub fn parse_packet(s: &[u8]) -> (r: Result<Packet, ParsePacketError>)
    ensures
        match r {
            Ok(p) => parse_tree(s@) == Some(p.tree()),
            Err(_) => parse_tree(s@) is None,
        },
    decreases s@.len(),
{
    let t = trim(s);
    proof {
        lemma_trimmed_len(s@);
    }
    if t.len() >= 2 && t[0] == 91 && t[t.len() - 1] == 93 {
        let inner = crate::text::copy_range(t.as_slice(), 1, t.len() - 1);
        let total = s.len();
        let mut items: Vec<Packet> = Vec::new();
        let mut pos: usize = 0;
        proof {
            assert(trees(items@) + parse_items(inner@, 0)->0 =~= parse_items(inner@, 0)->0);
        }
        while pos < inner.len()
            invariant
                pos <= inner.len() + 1,
                inner@.len() + 2 <= s@.len(),
                total == s@.len(),
                t@ == trimmed(s@),
                t@.len() >= 2 && t@[0] == 91 && t@.last() == 93,
                inner@ == t@.subrange(1, t@.len() - 1),
                parse_items(inner@, 0) == items_after(trees(items@), inner@, pos as int),
            decreases inner.len() + 1 - pos,
        {
            let c = find_top_comma(inner.as_slice(), pos);
            let part = crate::text::copy_range(inner.as_slice(), pos, c);
            match parse_packet(part.as_slice()) {
                Err(e) => {
                    proof {
                        assert(parse_items(inner@, pos as int) is None);
                        assert(parse_items(inner@, 0) is None);
                    }
                    return Err(e);
                },
                Ok(p) => {
                    let ghost before = items@;
                    let ghost first = p.tree();
                    items.push(p);
                    proof {
                        assert(trees(items@) =~= trees(before).push(first));
                        match parse_items(inner@, c + 1) {
                            Some(rest) => {
                                assert(trees(before) + (seq![first] + rest) =~= trees(items@)
                                    + rest);
                            },
                            None => {},
                        }
                    }
                },
            }
            pos = c + 1;
        }
        let r = Packet::List(items);
        proof {
            assert(parse_items(inner@, pos as int) == Some(Seq::<Tree>::empty()));
            assert(trees(items@) + Seq::<Tree>::empty() =~= trees(items@));
            assert(r.tree()->List_0 =~= trees(items@));
        }
        Ok(r)
    } else {
        match parse_i32(t.as_slice()) {
            Some(v) => Ok(Packet::Int(v)),
            None => Err(ParsePacketError),
        }
    }
}

impl Packet {
    /// Reads a packet from text.
    pub fn from_str(s: &str) -> (r: Result<Packet, ParsePacketError>)
        ensures
            match r {
                Ok(p) => parse_tree(s.spec_bytes()) == Some(p.tree()),
                Err(_) => parse_tree(s.spec_bytes()) is None,
            },
    {
        parse_packet(s.as_bytes())
    }
}


/// The parts of a text between its commas outside all brackets, one at a
/// time.
pub struct SplitPackets<'a> {
    s: &'a [u8],
}

impl<'a> SplitPackets<'a> {
    /// The text still to be cut.
    pub closed spec fn remaining(&self) -> Seq<u8> {
        self.s@
    }

    /// The next part; `None` when nothing is left. Nothing follows a last
    /// comma.
    pub fn next(&mut self) -> (r: Option<&'a [u8]>)
        ensures
            match r {
                None => old(self).remaining().len() == 0 && final(self).remaining().len() == 0,
                Some(part) => {
                    let rem = old(self).remaining();
                    let c = top_comma(rem, 0, 0);
                    &&& rem.len() > 0
                    &&& part@ == rem.subrange(0, c)
                    &&& final(self).remaining() == if c < rem.len() {
                        rem.subrange(c + 1, rem.len() as int)
                    } else {
                        Seq::empty()
                    }
                },
            },
    {
        if self.s.len() == 0 {
            return None;
        }
        let whole = self.s;
        let c = find_top_comma(whole, 0);
        let part = vstd::slice::slice_subrange(whole, 0, c);
        if c < whole.len() {
            self.s = vstd::slice::slice_subrange(whole, c + 1, whole.len());
        } else {
            self.s = vstd::slice::slice_subrange(whole, 0, 0);
            proof {
                assert(self.s@ =~= Seq::<u8>::empty());
            }
        }
        Some(part)
    }
}

impl Packet {
    /// The parts of `s` between its commas outside all brackets.
    pub fn split_packets<'a>(s: &'a str) -> (r: SplitPackets<'a>)
        ensures
            r.remaining() == s.spec_bytes(),
    {
        SplitPackets { s: s.as_bytes() }
    }
}

/// The lines among the first `k` of `ls` that are not empty.
pub open spec fn kept(ls: Seq<Seq<u8>>, k: nat) -> Seq<Seq<u8>>
    decreases k,
{
    if k == 0 {
        Seq::empty()
    } else if ls[k - 1].len() > 0 {
        kept(ls, (k - 1) as nat).push(ls[k - 1])
    } else {
        kept(ls, (k - 1) as nat)
    }
}

/// The packets of the text `s`: one to each line that is not empty.
pub open spec fn packet_lines(s: Seq<u8>) -> Seq<Seq<u8>> {
    kept(lines_of(s), lines_of(s).len())
}

/// Whether every line of `ps` spells a packet.
pub open spec fn all_parse(ps: Seq<Seq<u8>>) -> bool {
    forall|i: int| 0 <= i < ps.len() ==> parse_tree(#[trigger] ps[i]) is Some
}

/// The packets that the lines `ps` spell.
pub open spec fn parsed(ps: Seq<Seq<u8>>) -> Seq<Tree> {
    Seq::new(ps.len(), |i: int| parse_tree(ps[i])->0)
}

/// The packets of the text, one to each line that is not empty.
pub fn read_packets(input: &str) -> (r: Vec<Packet>)
    requires
        all_parse(packet_lines(input.spec_bytes())),
    ensures
        trees(r@) == parsed(packet_lines(input.spec_bytes())),
{
    let ls = lines(input.as_bytes());
    let ghost lv = lines_of(input.spec_bytes());
    let mut out: Vec<Packet> = Vec::new();
    let mut i: usize = 0;
    proof {
        assert(trees(out@) =~= parsed(kept(lv, 0)));
    }
    while i < ls.len()
        invariant
            i <= ls.len(),
            lv == views(ls@),
            lv == lines_of(input.spec_bytes()),
            all_parse(kept(lv, lv.len())),
            trees(out@) == parsed(kept(lv, i as nat)),
        decreases ls.len() - i,
    {
        assert(ls@[i as int]@ == lv[i as int]);
        if ls[i].len() > 0 {
            proof {
                lemma_kept_grows(lv, (i + 1) as nat, lv.len());
                let here = kept(lv, (i + 1) as nat);
                assert(here.last() == lv[i as int]);
                assert(kept(lv, lv.len())[here.len() - 1] == lv[i as int]);
            }
            match parse_packet(ls[i].as_slice()) {
                Ok(p) => {
                    let ghost before = out@;
                    let ghost t = p.tree();
                    out.push(p);
                    proof {
                        assert(trees(out@) =~= trees(before).push(t));
                        assert(parsed(kept(lv, (i + 1) as nat)) =~= parsed(kept(lv, i as nat)).push(
                            t,
                        ));
                    }
                },
                Err(_) => {
                    assert(false);
                },
            }
        }
        i += 1;
    }
    out
}

/// The lines kept among the first `j` are the first of those kept among
/// the first `k`.
pub proof fn lemma_kept_grows(ls: Seq<Seq<u8>>, j: nat, k: nat)
    requires
        j <= k,
    ensures
        kept(ls, j).len() <= kept(ls, k).len(),
        forall|i: int| 0 <= i < kept(ls, j).len() ==> kept(ls, j)[i] == kept(ls, k)[i],
    decreases k,
{
    if j < k {
        lemma_kept_grows(ls, j, (k - 1) as nat);
    }
}

/// The sum of the numbers of the first `k` pairs of `ts` that stand in
/// order, the pairs counted from 1.
pub open spec fn ordered_pairs_sum(ts: Seq<Tree>, k: nat) -> nat
    decreases k,
{
    if k == 0 {
        0
    } else {
        ordered_pairs_sum(ts, (k - 1) as nat) + if tree_order(ts[2 * k - 2], ts[2 * k - 1])
            == Order::Less {
            k
        } else {
            0
        }
    }
}

/// The sum of the numbers of the pairs of packets that stand in order. A
/// last packet without partner is left out.
pub fn day13_1(input: &str) -> (r: usize)
    requires
        all_parse(packet_lines(input.spec_bytes())),
        forall|k: nat|
            k <= packet_lines(input.spec_bytes()).len() / 2 ==> #[trigger] ordered_pairs_sum(
                parsed(packet_lines(input.spec_bytes())),
                k,
            ) <= usize::MAX,
    ensures
        r == ordered_pairs_sum(
            parsed(packet_lines(input.spec_bytes())),
            packet_lines(input.spec_bytes()).len() / 2,
        ),
{
    let ps = read_packets(input);
    let ghost ts = parsed(packet_lines(input.spec_bytes()));
    let pairs: usize = ps.len() / 2;
    proof {
        assert(trees(ps@).len() == ps@.len());
        assert(ts.len() == packet_lines(input.spec_bytes()).len());
    }
    let mut acc: usize = 0;
    let mut k: usize = 0;
    while k < pairs
        invariant
            k <= pairs,
            pairs == ps.len() / 2,
            ts.len() == ps.len(),
            trees(ps@) == ts,
            acc == ordered_pairs_sum(ts, k as nat),
            forall|j: nat| j <= pairs ==> #[trigger] ordered_pairs_sum(ts, j) <= usize::MAX,
        decreases pairs - k,
    {
        let first = &ps[2 * k];
        let second = &ps[2 * k + 1];
        proof {
            assert(trees(ps@)[2 * k] == first.tree());
            assert(trees(ps@)[2 * k + 1] == second.tree());
            assert(ordered_pairs_sum(ts, (k + 1) as nat) <= usize::MAX);
        }
        if first.order(second) == Order::Less {
            acc = acc + (k + 1);
        }
        k += 1;
    }
    acc
}

/// How many of the first `k` packets of `ts` are less than `d`.
pub open spec fn count_less(ts: Seq<Tree>, d: Tree, k: nat) -> nat
    decreases k,
{
    if k == 0 {
        0
    } else {
        count_less(ts, d, (k - 1) as nat) + if tree_order(ts[k - 1], d) == Order::Less {
            1nat
        } else {
            0nat
        }
    }
}

/// How many of the first `k` packets of `ts` are less than `hi` and not
/// less than `lo`.
pub open spec fn count_between(ts: Seq<Tree>, lo: Tree, hi: Tree, k: nat) -> nat
    decreases k,
{
    if k == 0 {
        0
    } else {
        count_between(ts, lo, hi, (k - 1) as nat) + if tree_order(ts[k - 1], lo) != Order::Less
            && tree_order(ts[k - 1], hi) == Order::Less {
            1nat
        } else {
            0nat
        }
    }
}

/// The divider `[[n]]`.
pub open spec fn divider(n: int) -> Tree {
    Tree::List(seq![Tree::List(seq![Tree::Int(n)])])
}

/// The place of the divider `[[2]]` among the packets in order, counted
/// from 1, times the place of `[[6]]` among those behind `[[2]]`. A packet
/// that compares equal to a divider stands behind it.
pub open spec fn decoder_key(ts: Seq<Tree>) -> nat {
    (count_less(ts, divider(2), ts.len()) + 1) * (count_between(
        ts,
        divider(2),
        divider(6),
        ts.len(),
    ) + 1)
}

/// The decoder key of the packets of the text.
pub fn day13_2(input: &str) -> (r: usize)
    requires
        all_parse(packet_lines(input.spec_bytes())),
        decoder_key(parsed(packet_lines(input.spec_bytes()))) <= usize::MAX,
    ensures
        r == decoder_key(parsed(packet_lines(input.spec_bytes()))),
{
    let ps = read_packets(input);
    let ghost ts = parsed(packet_lines(input.spec_bytes()));
    let div1 = Packet::list_wrap(Packet::list_wrap(Packet::Int(2)));
    let div2 = Packet::list_wrap(Packet::list_wrap(Packet::Int(6)));
    let mut below: u128 = 0;
    let mut between: u128 = 0;
    let mut i: usize = 0;
    while i < ps.len()
        invariant
            i <= ps.len(),
            trees(ps@) == ts,
            div1.tree() == divider(2),
            div2.tree() == divider(6),
            below == count_less(ts, divider(2), i as nat),
            between == count_between(ts, divider(2), divider(6), i as nat),
            below <= i,
            between <= i,
        decreases ps.len() - i,
    {
        let p = &ps[i];
        proof {
            assert(trees(ps@)[i as int] == p.tree());
        }
        if p.order(&div1) == Order::Less {
            below = below + 1;
        } else if p.order(&div2) == Order::Less {
            between = between + 1;
        }
        i += 1;
    }
    proof {
        assert(ts.len() == ps.len());
        assert((below + 1) * (between + 1) <= usize::MAX);
        assert((below + 1) * (between + 1) <= 0x1_0000_0000_0000_0000_0000_0000_0000_0000) by (nonlinear_arith)
            requires
                below <= usize::MAX,
                between <= usize::MAX,
        ;
    }
    ((below + 1) * (between + 1)) as usize
}

} // verus!
