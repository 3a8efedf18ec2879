//! Stacks of crates, and a crane that moves crates from stack to stack.

use crate::text::{
    all_ascii,
    ascii_chars,
    ascii_string,
    cut_once,
    is_rect,
    lemma_flat_index,
    parse_int,
    parse_i32,
    parse_usize,
    rect_cells,
    split,
    split_on,
    split_once,
    tokens,
    tokens_of,
    views,
};
use crate::y2022::grid::lemma_index_in_bounds;
use vstd::prelude::*;
use vstd::string::*;

verus! {

/// `transpose::transpose_inplace` on bytes: the buffer, read as `height`
/// rows of `width` bytes, becomes `width` rows of `height` bytes with
/// rows and columns changed over. Neither side may be zero, the buffer
/// holds `width * height` bytes, and the scratch space as many as the
/// longer side.
#[verifier::external_body]
fn transpose_bytes(buffer: &mut Vec<u8>, scratch: &mut Vec<u8>, width: usize, height: usize)
    requires
        width > 0,
        height > 0,
        old(buffer)@.len() == width * height,
        old(scratch)@.len() == if width > height {
            width
        } else {
            height
        },
    ensures
        final(buffer)@.len() == old(buffer)@.len(),
        forall|x: int, y: int|
            0 <= x < width && 0 <= y < height ==> #[trigger] final(buffer)@[x * height + y] == old(
                buffer,
            )@[y * width + x],
{
    transpose::transpose_inplace(buffer.as_mut_slice(), scratch.as_mut_slice(), width, height)
}

/// The column `x` of the rows, from the top down.
pub open spec fn column(rows: Seq<Seq<u8>>, x: int) -> Seq<u8> {
    Seq::new(rows.len(), |y: int| rows[y][x])
}

/// The first `k` bytes of `s` without the blanks among them.
pub open spec fn packed(s: Seq<u8>, k: nat) -> Seq<u8>
    decreases k,
{
    if k == 0 {
        Seq::empty()
    } else if s[k - 1] == 32 {
        packed(s, (k - 1) as nat)
    } else {
        packed(s, (k - 1) as nat).push(s[k - 1])
    }
}

/// The stack that a column shows: its crates from the bottom up. The
/// last byte of the column is the name of the stack.
pub open spec fn stack_of(col: Seq<u8>) -> Seq<u8> {
    packed(col, col.len()).drop_last().reverse()
}

/// The stacks that the first `x` columns show: one for each column whose
/// last byte is no blank.
pub open spec fn stacks_upto(rows: Seq<Seq<u8>>, x: nat) -> Seq<Seq<u8>>
    decreases x,
{
    if x == 0 {
        Seq::empty()
    } else if column(rows, x - 1).last() == 32 {
        stacks_upto(rows, (x - 1) as nat)
    } else {
        stacks_upto(rows, (x - 1) as nat).push(stack_of(column(rows, x - 1)))
    }
}

/// Whether the text is a drawing of stacks: two lines or more, all as
/// long as the first, which is not empty, and the drawing can be held.
pub open spec fn is_drawing(s: Seq<u8>) -> bool {
    let rows = split_on(s, seq![10u8]);
    &&& is_rect(rows)
    &&& rows.len() >= 2
    &&& rows[0].len() > 0
    &&& rows.len() * rows[0].len() <= usize::MAX
}

/// The stacks that the drawing shows.
pub open spec fn stacks_of(s: Seq<u8>) -> Seq<Seq<u8>> {
    stacks_upto(split_on(s, seq![10u8]), split_on(s, seq![10u8])[0].len())
}

/// The stacks that the drawing shows, each from the bottom up.
pub fn parse_crates(crates: &[u8]) -> (r: Vec<Vec<u8>>)
    requires
        is_drawing(crates@),
    ensures
        views(r@) == stacks_of(crates@),
{
    let nl: [u8; 1] = [10];
    proof {
        assert(nl@ =~= seq![10u8]);
    }
    let rows = split(crates, nl.as_slice());
    let ghost rv = split_on(crates@, seq![10u8]);
    let width: usize = rows[0].len();
    let height: usize = rows.len();
    assert(rows@[0]@ == rv[0]);
    let mut crate_matrix = rect_cells(&rows);
    let mut scratch: Vec<u8> = Vec::new();
    let side: usize = if width > height {
        width
    } else {
        height
    };
    let mut k: usize = 0;
    while k < side
        invariant
            k <= side,
            scratch@.len() == k,
        decreases side - k,
    {
        scratch.push(0);
        k += 1;
    }
    proof {
        assert(width * height == height * width) by (nonlinear_arith);
    }
    let ghost flat_cells = crate_matrix@;
    transpose_bytes(&mut crate_matrix, &mut scratch, width, height);
    proof {
        assert forall|x: int, y: int| 0 <= x < width && 0 <= y < height implies #[trigger] crate_matrix@[x
            * height + y] == rv[y][x] by {
            lemma_flat_index(rv, x, y);
            lemma_index_in_bounds(y, x, height as int, width as int);
            assert(flat_cells[y * width + x] == rv[y][x]);
        }
    }
    let mut hmap: Vec<Vec<u8>> = Vec::new();
    let total: usize = crate_matrix.len();
    let mut x: usize = 0;
    while x < width
        invariant
            x <= width,
            total == height * width,
            width == rv[0].len(),
            height == rv.len(),
            height >= 2,
            is_rect(rv),
            crate_matrix@.len() == height * width,
            forall|a: int, b: int|
                0 <= a < width && 0 <= b < height ==> #[trigger] crate_matrix@[a * height + b]
                    == rv[b][a],
            views(hmap@) == stacks_upto(rv, x as nat),
        decreases width - x,
    {
        proof {
            lemma_index_in_bounds(0, x as int, height as int, width as int);
            lemma_index_in_bounds(height - 1, x as int, height as int, width as int);
        }
        let base: usize = x * height;
        let ghost col = column(rv, x as int);
        proof {
            assert forall|b: int| 0 <= b < height implies crate_matrix@[base + b] == col[b] by {
                lemma_index_in_bounds(b, x as int, height as int, width as int);
                assert(crate_matrix@[x * height + b] == rv[b][x as int]);
            }
        }
        if crate_matrix[base + height - 1] != 32 {
            let mut line: Vec<u8> = Vec::new();
            let mut y: usize = 0;
            while y < height
                invariant
                    y <= height,
                    base + height <= total,
                    total == crate_matrix@.len(),
                    col.len() == height,
                    forall|b: int| 0 <= b < height ==> crate_matrix@[base + b] == col[b],
                    line@ == packed(col, y as nat),
                decreases height - y,
            {
                let c = crate_matrix[base + y];
                if c != 32 {
                    line.push(c);
                }
                y += 1;
            }
            let _key = line.pop();
            let ghost up = line@;
            let mut stack: Vec<u8> = Vec::new();
            let mut j: usize = line.len();
            while j > 0
                invariant
                    j <= line@.len(),
                    up == line@,
                    stack@.len() == line@.len() - j,
                    forall|q: int| 0 <= q < stack@.len() ==> stack@[q] == up[up.len() - 1 - q],
                decreases j,
            {
                j -= 1;
                stack.push(line[j]);
            }
            proof {
                assert(col.last() != 32);
                assert(stack@ =~= stack_of(col));
            }
            let ghost before = views(hmap@);
            hmap.push(stack);
            proof {
                assert(views(hmap@) =~= before.push(stack_of(col)));
            }
        }
        x += 1;
    }
    hmap
}


/// An order to the crane: how many crates to move, and the places of the
/// stacks from which and to which.
pub struct Order {
    pub qnt: int,
    pub from: int,
    pub to: int,
}

/// What a line orders: nothing, if it is empty; else it reads `move`, a
/// number between `min` and `max`, `from`, the name of a stack, `to`, the
/// name of a stack. The name of a stack is a digit from 1 on, and what
/// follows it does not count. `None` where the line is neither.
pub open spec fn order_of(line: Seq<u8>, min: int, max: int) -> Option<Option<Order>> {
    let t = tokens_of(line);
    if t.len() == 0 {
        Some(None)
    } else if t.len() == 6 && t[0] == "move".spec_bytes() && t[2] == "from".spec_bytes() && t[4]
        == "to".spec_bytes() && parse_int(t[1], min, max) is Some && t[3].len() > 0 && t[3][0]
        >= 49 && t[5].len() > 0 && t[5][0] >= 49 {
        Some(
            Some(
                Order { qnt: parse_int(t[1], min, max)->0, from: t[3][0] - 49, to: t[5][0] - 49 },
            ),
        )
    } else {
        None
    }
}

/// The stacks after the top crate of stack `from` has been put on stack
/// `to`.
pub open spec fn lift_one(stacks: Seq<Seq<u8>>, from: int, to: int) -> Seq<Seq<u8>> {
    let less = stacks.update(from, stacks[from].drop_last());
    less.update(to, less[to].push(stacks[from].last()))
}

/// The stacks after `q` crates have been moved from stack `from` to
/// stack `to`, one at a time; `None` where a stack is missing or runs
/// out of crates.
pub open spec fn lifted(stacks: Seq<Seq<u8>>, from: int, to: int, q: int) -> Option<Seq<Seq<u8>>>
    decreases q,
{
    if q <= 0 {
        Some(stacks)
    } else if 0 <= from < stacks.len() && 0 <= to < stacks.len() && stacks[from].len() > 0 {
        lifted(lift_one(stacks, from, to), from, to, q - 1)
    } else {
        None
    }
}

/// The stacks after the `q` top crates of stack `from` have been put on
/// another stack `to` together; `None` where a stack is missing, the two
/// are one, or the stack has fewer crates.
pub open spec fn hoisted(stacks: Seq<Seq<u8>>, from: int, to: int, q: int) -> Option<Seq<Seq<u8>>> {
    if 0 <= from < stacks.len() && 0 <= to < stacks.len() && from != to && 0 <= q
        <= stacks[from].len() {
        let rest = stacks[from].len() - q;
        Some(
            stacks.update(from, stacks[from].subrange(0, rest)).update(
                to,
                stacks[to] + stacks[from].subrange(rest, stacks[from].len() as int),
            ),
        )
    } else {
        None
    }
}

/// The stacks after the first `k` lines of orders have been carried
/// out, the crates of an order moved one at a time or, where `together`
/// holds, together; `None` where an order cannot be read or carried out.
pub open spec fn carried_out(
    stacks: Seq<Seq<u8>>,
    orders: Seq<Seq<u8>>,
    k: nat,
    together: bool,
) -> Option<Seq<Seq<u8>>>
    decreases k,
{
    if k == 0 {
        Some(stacks)
    } else {
        match carried_out(stacks, orders, (k - 1) as nat, together) {
            None => None,
            Some(before) => if together {
                match order_of(orders[k - 1], 0, usize::MAX as int) {
                    None => None,
                    Some(None) => Some(before),
                    Some(Some(o)) => hoisted(before, o.from, o.to, o.qnt),
                }
            } else {
                match order_of(orders[k - 1], i32::MIN as int, i32::MAX as int) {
                    None => None,
                    Some(None) => Some(before),
                    Some(Some(o)) => lifted(before, o.from, o.to, o.qnt),
                }
            },
        }
    }
}

/// The top crates of the first `k` stacks that have one.
pub open spec fn tops(stacks: Seq<Seq<u8>>, k: nat) -> Seq<u8>
    decreases k,
{
    if k == 0 {
        Seq::empty()
    } else if stacks[k - 1].len() == 0 {
        tops(stacks, (k - 1) as nat)
    } else {
        tops(stacks, (k - 1) as nat).push(stacks[k - 1].last())
    }
}

/// The crates that end up on top: the text holds a drawing of stacks, an
/// empty line, and a line for each order.
pub open spec fn message(s: Seq<u8>, together: bool) -> Option<Seq<u8>> {
    match cut_once(s, seq![10u8, 10u8]) {
        Some(p) => if is_drawing(p.0) {
            let orders = split_on(p.1, seq![10u8]);
            match carried_out(stacks_of(p.0), orders, orders.len(), together) {
                Some(stacks) => Some(tops(stacks, stacks.len())),
                None => None,
            }
        } else {
            None
        },
        None => None,
    }
}

/// Where the first orders cannot be carried out, the orders cannot.
pub proof fn lemma_carried(
    stacks: Seq<Seq<u8>>,
    orders: Seq<Seq<u8>>,
    k: nat,
    n: nat,
    together: bool,
)
    requires
        carried_out(stacks, orders, n, together) is Some,
        k <= n,
    ensures
        carried_out(stacks, orders, k, together) is Some,
    decreases n,
{
    if k < n {
        lemma_carried(stacks, orders, k, (n - 1) as nat, together);
    }
}

fn read_order(line: &[u8], together: bool) -> (r: Option<(usize, usize, usize)>)
    requires
        order_of(
            line@,
            if together {
                0
            } else {
                i32::MIN as int
            },
            if together {
                usize::MAX as int
            } else {
                i32::MAX as int
            },
        ) is Some,
    ensures
        match r {
            None => order_of(
                line@,
                if together {
                    0
                } else {
                    i32::MIN as int
                },
                if together {
                    usize::MAX as int
                } else {
                    i32::MAX as int
                },
            ) == Some(None::<Order>),
            Some(o) => {
                let want = order_of(
                    line@,
                    if together {
                        0
                    } else {
                        i32::MIN as int
                    },
                    if together {
                        usize::MAX as int
                    } else {
                        i32::MAX as int
                    },
                )->0;
                want is Some && o.1 == want->0.from && o.2 == want->0.to && o.0 == if want->0.qnt
                    < 0 {
                    0
                } else {
                    want->0.qnt
                }
            },
        },
{
    let command = tokens(line);
    if command.len() == 0 {
        return None;
    }
    assert(command@[1]@ == tokens_of(line@)[1]);
    assert(command@[3]@ == tokens_of(line@)[3]);
    assert(command@[5]@ == tokens_of(line@)[5]);
    let qnt: usize = if together {
        match parse_usize(command[1].as_slice()) {
            Some(q) => q,
            None => 0,
        }
    } else {
        match parse_i32(command[1].as_slice()) {
            Some(q) => if q < 0 {
                0
            } else {
                q as usize
            },
            None => 0,
        }
    };
    let from_key: u8 = command[3][0] - 49;
    let to_key: u8 = command[5][0] - 49;
    Some((qnt, from_key as usize, to_key as usize))
}


/// Puts the top crate of stack `from` on stack `to`.
fn move_one(crates: &mut Vec<Vec<u8>>, from: usize, to: usize)
    requires
        from < old(crates)@.len(),
        to < old(crates)@.len(),
        old(crates)@[from as int]@.len() > 0,
    ensures
        views(final(crates)@) == lift_one(views(old(crates)@), from as int, to as int),
{
    let ghost before = views(crates@);
    let mut stack = crates.remove(from);
    let elem: u8 = match stack.pop() {
        Some(e) => e,
        None => 0,
    };
    crates.insert(from, stack);
    let ghost less = views(crates@);
    proof {
        assert(less =~= before.update(from as int, before[from as int].drop_last()));
    }
    let mut target = crates.remove(to);
    target.push(elem);
    crates.insert(to, target);
    proof {
        assert(views(crates@) =~= less.update(to as int, less[to as int].push(elem)));
    }
}

/// Puts the `qnt` top crates of stack `from` on stack `to` together.
fn move_many(crates: &mut Vec<Vec<u8>>, from: usize, to: usize, qnt: usize)
    requires
        hoisted(views(old(crates)@), from as int, to as int, qnt as int) is Some,
    ensures
        Some(views(final(crates)@)) == hoisted(
            views(old(crates)@),
            from as int,
            to as int,
            qnt as int,
        ),
{
    let ghost before = views(crates@);
    let mut stack = crates.remove(from);
    let len = stack.len();
    let mut elems = stack.split_off(len - qnt);
    crates.insert(from, stack);
    let ghost less = views(crates@);
    proof {
        assert(less =~= before.update(
            from as int,
            before[from as int].subrange(0, len - qnt),
        ));
    }
    let mut target = crates.remove(to);
    target.append(&mut elems);
    crates.insert(to, target);
    proof {
        assert(views(crates@) =~= less.update(
            to as int,
            before[to as int] + before[from as int].subrange(len - qnt, len as int),
        ));
    }
}

fn rearrange(input: &str, together: bool) -> (r: String)
    requires
        message(input.spec_bytes(), together) is Some,
        all_ascii(message(input.spec_bytes(), together)->0),
    ensures
        r@ == ascii_chars(message(input.spec_bytes(), together)->0),
{
    let gap: [u8; 2] = [10, 10];
    let nl: [u8; 1] = [10];
    proof {
        assert(gap@ =~= seq![10u8, 10u8]);
        assert(nl@ =~= seq![10u8]);
    }
    let (drawing, commands) = match split_once(input.as_bytes(), gap.as_slice()) {
        Some(p) => p,
        None => (Vec::new(), Vec::new()),
    };
    let mut crates = parse_crates(drawing.as_slice());
    let orders = split(commands.as_slice(), nl.as_slice());
    let ghost first = views(crates@);
    let ghost ov = split_on(commands@, seq![10u8]);
    let mut i: usize = 0;
    while i < orders.len()
        invariant
            i <= orders@.len(),
            ov == views(orders@),
            carried_out(first, ov, ov.len(), together) is Some,
            carried_out(first, ov, i as nat, together) == Some(views(crates@)),
        decreases orders.len() - i,
    {
        proof {
            lemma_carried(first, ov, (i + 1) as nat, ov.len(), together);
            assert(orders@[i as int]@ == ov[i as int]);
        }
        match read_order(orders[i].as_slice(), together) {
            Some((qnt, from, to)) => {
                if together {
                    move_many(&mut crates, from, to, qnt);
                } else {
                    let ghost start = views(crates@);
                    let mut k: usize = 0;
                    while k < qnt
                        invariant
                            k <= qnt,
                            lifted(start, from as int, to as int, qnt as int) is Some,
                            lifted(start, from as int, to as int, qnt as int) == lifted(
                                views(crates@),
                                from as int,
                                to as int,
                                qnt - k,
                            ),
                        decreases qnt - k,
                    {
                        move_one(&mut crates, from, to);
                        k += 1;
                    }
                }
            },
            None => {},
        }
        i += 1;
    }
    let mut chars: Vec<u8> = Vec::new();
    let mut k: usize = 0;
    while k < crates.len()
        invariant
            k <= crates@.len(),
            chars@ == tops(views(crates@), k as nat),
        decreases crates.len() - k,
    {
        let n = crates[k].len();
        if n > 0 {
            chars.push(crates[k][n - 1]);
        }
        k += 1;
    }
    ascii_string(chars.as_slice())
}

/// The crates that end up on top when the crane moves one crate at a
/// time.
pub fn day5_1(input: &str) -> (r: String)
    requires
        message(input.spec_bytes(), false) is Some,
        all_ascii(message(input.spec_bytes(), false)->0),
    ensures
        r@ == ascii_chars(message(input.spec_bytes(), false)->0),
{
    rearrange(input, false)
}

/// The crates that end up on top when the crane moves the crates of an
/// order together.
pub fn day5_2(input: &str) -> (r: String)
    requires
        message(input.spec_bytes(), true) is Some,
        all_ascii(message(input.spec_bytes(), true)->0),
    ensures
        r@ == ascii_chars(message(input.spec_bytes(), true)->0),
{
    rearrange(input, true)
}

} // verus!
