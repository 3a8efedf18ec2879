//! A processor with one register, and the screen that it draws on.

use crate::iters::chunks;
use crate::text::{
    all_ascii, ascii_chars, ascii_string, lines, lines_of, parse_i64, parse_int, tokens, tokens_of,
    views,
};
use vstd::prelude::*;
use vstd::string::*;

verus! {

/// An instruction of the processor: add to the register, or do nothing.
#[derive(Debug, Copy, Clone, PartialEq, Eq, Structural)]
pub enum Instruction {
    Addx(i64),
    Noop,
}

/// The instruction that a line spells: `noop`, or `addx` and a number.
pub open spec fn instruction_of(line: Seq<u8>) -> Option<Instruction> {
    let words = tokens_of(line);
    if words.len() == 1 && words[0] == "noop".spec_bytes() {
        Some(Instruction::Noop)
    } else if words.len() == 2 && words[0] == "addx".spec_bytes() {
        match parse_int(words[1], i64::MIN as int, i64::MAX as int) {
            Some(n) => Some(Instruction::Addx(n as i64)),
            None => None,
        }
    } else {
        None
    }
}

/// Whether every line spells an instruction.
pub open spec fn is_program(ls: Seq<Seq<u8>>) -> bool {
    forall|i: int| 0 <= i < ls.len() ==> instruction_of(#[trigger] ls[i]) is Some
}

/// The instructions that the lines spell.
pub open spec fn program_of(ls: Seq<Seq<u8>>) -> Seq<Instruction> {
    Seq::new(ls.len(), |i: int| instruction_of(ls[i])->0)
}

/// The instructions that the lines of the text spell.
pub fn parse_instructions(input: &str) -> (r: Vec<Instruction>)
    requires
        is_program(lines_of(input.spec_bytes())),
    ensures
        r@ == program_of(lines_of(input.spec_bytes())),
{
    let ls = lines(input.as_bytes());
    let ghost lv = lines_of(input.spec_bytes());
    let mut out: Vec<Instruction> = Vec::new();
    let mut i: usize = 0;
    while i < ls.len()
        invariant
            i <= ls@.len(),
            lv == views(ls@),
            is_program(lv),
            out@.len() == i,
            forall|j: int| 0 <= j < i ==> out@[j] == instruction_of(lv[j])->0,
        decreases ls.len() - i,
    {
        assert(ls@[i as int]@ == lv[i as int]);
        assert(instruction_of(lv[i as int]) is Some);
        let command = tokens(ls[i].as_slice());
        let ins = if command.len() == 2 {
            match parse_i64(command[1].as_slice()) {
                Some(n) => Instruction::Addx(n),
                None => Instruction::Noop,
            }
        } else {
            Instruction::Noop
        };
        out.push(ins);
        i += 1;
    }
    proof {
        assert(out@ =~= program_of(lv));
    }
    out
}

/// The processor between two cycles: the place in the program, whether
/// an addition is half done, and the register.
pub struct Cpu {
    pub pc: int,
    pub busy: bool,
    pub x: int,
}

/// The processor after one more cycle. An addition takes two cycles and
/// changes the register at the end of the second; `noop` takes one.
pub open spec fn ticked(program: Seq<Instruction>, c: Cpu) -> Cpu {
    match program[c.pc] {
        Instruction::Addx(n) => if c.busy {
            Cpu { pc: c.pc + 1, busy: false, x: c.x + n }
        } else {
            Cpu { pc: c.pc, busy: true, x: c.x }
        },
        Instruction::Noop => Cpu { pc: c.pc + 1, busy: false, x: c.x },
    }
}

/// The processor after `n` cycles, or after the last of the program if
/// that comes before.
pub open spec fn cpu_after(program: Seq<Instruction>, n: nat) -> Cpu
    decreases n,
{
    if n == 0 {
        Cpu { pc: 0, busy: false, x: 1 }
    } else {
        let before = cpu_after(program, (n - 1) as nat);
        if 0 <= before.pc < program.len() {
            ticked(program, before)
        } else {
            before
        }
    }
}

/// Whether the program still runs in cycle `n`, the first being cycle 1.
pub open spec fn runs_in(program: Seq<Instruction>, n: nat) -> bool {
    n >= 1 && 0 <= cpu_after(program, (n - 1) as nat).pc < program.len()
}

/// The sum of the signal strengths of the first `n` cycles: that of a
/// cycle is its number times the register during it, and counts in the
/// cycles 20, 60, 100 and so on, while the program runs.
pub open spec fn signal_sum(program: Seq<Instruction>, n: nat) -> int
    decreases n,
{
    if n == 0 {
        0
    } else {
        signal_sum(program, (n - 1) as nat) + if runs_in(program, n) && (n + 20) % 40 == 0 {
            n * cpu_after(program, (n - 1) as nat).x
        } else {
            0
        }
    }
}

/// Whether the register, the signal strengths and their sums stay within
/// 64 bits while the program runs.
pub open spec fn can_run(program: Seq<Instruction>) -> bool {
    forall|n: nat|
        n <= 2 * program.len() ==> {
            &&& i64::MIN < (#[trigger] cpu_after(program, n)).x < i64::MAX
            &&& i64::MIN <= signal_sum(program, n) <= i64::MAX
            &&& i64::MIN <= (n + 1) * cpu_after(program, n).x <= i64::MAX
        }
}

/// The program is over after two cycles for each instruction, and the
/// place in it is never behind its end.
pub proof fn lemma_cpu(program: Seq<Instruction>, n: nat)
    ensures
        0 <= cpu_after(program, n).pc <= program.len(),
        2 * cpu_after(program, n).pc + (if cpu_after(program, n).busy {
            1int
        } else {
            0int
        }) >= n || cpu_after(program, n).pc == program.len(),
        cpu_after(program, n).busy ==> cpu_after(program, n).pc < program.len(),
    decreases n,
{
    if n > 0 {
        lemma_cpu(program, (n - 1) as nat);
    }
}

/// The sum of the signal strengths of the cycles 20, 60, 100 and so on.
pub fn day10_1(input: &str) -> (r: i64)
    requires
        is_program(lines_of(input.spec_bytes())),
        can_run(program_of(lines_of(input.spec_bytes()))),
        2 * lines_of(input.spec_bytes()).len() + 21 < i64::MAX,
    ensures
        r == signal_sum(
            program_of(lines_of(input.spec_bytes())),
            2 * lines_of(input.spec_bytes()).len(),
        ),
{
    let instruction = parse_instructions(input);
    let ghost program = instruction@;
    let mut pc: usize = 0;
    let mut i_cycle: usize = 0;
    let mut reg_x: i64 = 1;
    let mut signal_strength: i64 = 0;
    let mut cycle: i64 = 1;
    while pc < instruction.len()
        invariant
            program == instruction@,
            can_run(program),
            2 * program.len() + 21 < i64::MAX,
            1 <= cycle <= 2 * program.len() + 1,
            pc <= program.len(),
            cpu_after(program, (cycle - 1) as nat) == (Cpu {
                pc: pc as int,
                busy: i_cycle == 1,
                x: reg_x as int,
            }),
            i_cycle == 0 || i_cycle == 1,
            signal_strength == signal_sum(program, (cycle - 1) as nat),
        decreases 2 * program.len() + 1 - cycle,
    {
        proof {
            lemma_cpu(program, (cycle - 1) as nat);
            lemma_cpu(program, cycle as nat);
            assert(i64::MIN < cpu_after(program, cycle as nat).x < i64::MAX);
            assert(i64::MIN <= signal_sum(program, cycle as nat) <= i64::MAX);
            assert(i64::MIN <= cycle * cpu_after(program, (cycle - 1) as nat).x <= i64::MAX);
        }
        if (cycle + 20) % 40 == 0 {
            signal_strength = signal_strength + cycle * reg_x;
        }
        match instruction[pc] {
            Instruction::Addx(n) => {
                if i_cycle == 1 {
                    i_cycle = 0;
                    pc += 1;
                    reg_x = reg_x + n;
                } else {
                    i_cycle += 1;
                }
            },
            Instruction::Noop => {
                pc += 1;
            },
        }
        cycle += 1;
    }
    proof {
        lemma_signal_ends(program, (cycle - 1) as nat, 2 * program.len());
    }
    signal_strength
}

/// Once the program is over, the sum of the signal strengths stays.
pub proof fn lemma_signal_ends(program: Seq<Instruction>, n: nat, m: nat)
    requires
        cpu_after(program, n).pc >= program.len(),
        n <= m,
    ensures
        cpu_after(program, m) == cpu_after(program, n),
        signal_sum(program, m) == signal_sum(program, n),
    decreases m,
{
    if n < m {
        lemma_signal_ends(program, n, (m - 1) as nat);
    }
}

/// Whether the pixel of cycle `n` is lit: the beam, which in cycle `n` is
/// at column `(n - 1) % 40`, is at most one column from the register.
pub open spec fn lit(program: Seq<Instruction>, n: nat) -> bool {
    let x = cpu_after(program, (n - 1) as nat).x;
    x - 1 <= (n - 1) % 40 <= x + 1
}

/// The pixels of the cycles in which the program runs, `n` at most.
pub open spec fn pixels(program: Seq<Instruction>, n: nat) -> Seq<bool>
    decreases n,
{
    if n == 0 {
        Seq::empty()
    } else if runs_in(program, n) {
        pixels(program, (n - 1) as nat).push(lit(program, n))
    } else {
        pixels(program, (n - 1) as nat)
    }
}

/// The first `k` pixels as text: a line feed before each row of 40, `#`
/// for a pixel that is lit and `.` for one that is not.
pub open spec fn screen(px: Seq<bool>, k: nat) -> Seq<u8>
    decreases k,
{
    if k == 0 {
        Seq::empty()
    } else {
        screen(px, (k - 1) as nat) + (if (k - 1) % 40 == 0 {
            seq![10u8]
        } else {
            Seq::empty()
        }) + seq![
            if px[k - 1] {
                35u8
            } else {
                46u8
            },
        ]
    }
}

/// The text of a screen is made of ASCII.
pub proof fn lemma_screen(px: Seq<bool>, k: nat)
    ensures
        all_ascii(screen(px, k)),
    decreases k,
{
    if k > 0 {
        lemma_screen(px, (k - 1) as nat);
    }
}

/// The pixels as text, row by row.
pub fn render(crt_pixels: &Vec<bool>) -> (r: String)
    requires
        crt_pixels@.len() + 40 <= usize::MAX,
    ensures
        r@ == ascii_chars(screen(crt_pixels@, crt_pixels@.len())),
{
    let px = crt_pixels.as_slice();
    let rows = chunks(px, 40);
    let mut out: Vec<u8> = Vec::new();
    let mut i: usize = 0;
    while i < rows.len()
        invariant
            i <= rows@.len(),
            px@ == crt_pixels@,
            px@.len() + 40 <= usize::MAX,
            rows@.len() == (px@.len() + 40 - 1) / 40,
            forall|q: int|
                0 <= q < rows@.len() ==> (#[trigger] rows@[q])@ == px@.subrange(
                    q * 40,
                    if (q + 1) * 40 < px@.len() {
                        (q + 1) * 40
                    } else {
                        px@.len() as int
                    },
                ),
            out@ == screen(
                px@,
                if i * 40 < px@.len() {
                    (i * 40) as nat
                } else {
                    px@.len()
                },
            ),
        decreases rows.len() - i,
    {
        let row = &rows[i];
        assert(row@ == px@.subrange(
            i * 40,
            if (i + 1) * 40 < px@.len() {
                (i + 1) * 40
            } else {
                px@.len() as int
            },
        ));
        let mut j: usize = 0;
        while j < row.len()
            invariant
                j <= row@.len(),
                i * 40 + row@.len() <= px@.len(),
                row@.len() <= 40,
                forall|q: int| 0 <= q < row@.len() ==> row@[q] == px@[i * 40 + q],
                out@ == screen(px@, (i * 40 + j) as nat),
            decreases row.len() - j,
        {
            if j == 0 {
                out.push(10);
            }
            out.push(
                if row[j] {
                    35
                } else {
                    46
                },
            );
            proof {
                assert(out@ =~= screen(px@, (i * 40 + j + 1) as nat));
            }
            j += 1;
        }
        i += 1;
    }
    proof {
        lemma_screen(px@, px@.len());
    }
    ascii_string(out.as_slice())
}

/// The screen that the program draws.
pub fn day10_2(input: &str) -> (r: String)
    requires
        is_program(lines_of(input.spec_bytes())),
        can_run(program_of(lines_of(input.spec_bytes()))),
        2 * lines_of(input.spec_bytes()).len() + 40 < usize::MAX,
        2 * lines_of(input.spec_bytes()).len() < i64::MAX,
    ensures
        r@ == ascii_chars(
            screen(
                pixels(
                    program_of(lines_of(input.spec_bytes())),
                    2 * lines_of(input.spec_bytes()).len(),
                ),
                pixels(
                    program_of(lines_of(input.spec_bytes())),
                    2 * lines_of(input.spec_bytes()).len(),
                ).len(),
            ),
        ),
{
    let instruction = parse_instructions(input);
    let ghost program = instruction@;
    let mut pc: usize = 0;
    let mut i_cycle: usize = 0;
    let mut reg_x: i64 = 1;
    let mut crt_pixels: Vec<bool> = Vec::new();
    let mut cycle: i64 = 1;
    while pc < instruction.len()
        invariant
            program == instruction@,
            can_run(program),
            2 * program.len() < i64::MAX,
            1 <= cycle <= 2 * program.len() + 1,
            pc <= program.len(),
            cpu_after(program, (cycle - 1) as nat) == (Cpu {
                pc: pc as int,
                busy: i_cycle == 1,
                x: reg_x as int,
            }),
            i_cycle == 0 || i_cycle == 1,
            crt_pixels@ == pixels(program, (cycle - 1) as nat),
            crt_pixels@.len() == cycle - 1,
        decreases 2 * program.len() + 1 - cycle,
    {
        proof {
            lemma_cpu(program, (cycle - 1) as nat);
            lemma_cpu(program, cycle as nat);
            assert(i64::MIN < cpu_after(program, cycle as nat).x < i64::MAX);
            assert(i64::MIN < cpu_after(program, (cycle - 1) as nat).x < i64::MAX);
        }
        let crt_pos: i64 = (cycle - 1) % 40;
        if reg_x - 1 <= crt_pos && crt_pos <= reg_x + 1 {
            crt_pixels.push(true);
        } else {
            crt_pixels.push(false);
        }
        match instruction[pc] {
            Instruction::Addx(n) => {
                if i_cycle == 1 {
                    i_cycle = 0;
                    pc += 1;
                    reg_x = reg_x + n;
                } else {
                    i_cycle += 1;
                }
            },
            Instruction::Noop => {
                pc += 1;
            },
        }
        cycle += 1;
    }
    proof {
        lemma_pixels_end(program, (cycle - 1) as nat, 2 * program.len());
    }
    render(&crt_pixels)
}

/// Once the program is over, no pixel is added.
pub proof fn lemma_pixels_end(program: Seq<Instruction>, n: nat, m: nat)
    requires
        cpu_after(program, n).pc >= program.len(),
        n <= m,
    ensures
        cpu_after(program, m) == cpu_after(program, n),
        pixels(program, m) == pixels(program, n),
    decreases m,
{
    if n < m {
        lemma_pixels_end(program, n, (m - 1) as nat);
    }
}

} // verus!
