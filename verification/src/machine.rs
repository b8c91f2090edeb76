//! A tiny register machine: three registers, eight opcodes on 3-bit
//! operands, and an output tape.

use vstd::prelude::*;
use crate::text::{
    chars_of, digit_end, digits_value, is_seq_at, line_seqs, scan_digits, seq_at, sub_chars, trim,
    trimmed, parse_u64,
};

verus! {

broadcast use vstd::seq_lib::group_seq_properties;

/// A three-bit value.
#[allow(non_camel_case_types)]
#[derive(Clone, Copy, PartialEq, Eq, Structural, Debug)]
pub enum u3 {
    ZERO,
    ONE,
    TWO,
    THREE,
    FOUR,
    FIVE,
    SIX,
    SEVEN,
}

/// The numeric value of a three-bit value.
pub open spec fn u3_val(v: u3) -> int {
    match v {
        u3::ZERO => 0,
        u3::ONE => 1,
        u3::TWO => 2,
        u3::THREE => 3,
        u3::FOUR => 4,
        u3::FIVE => 5,
        u3::SIX => 6,
        u3::SEVEN => 7,
    }
}

impl u3 {
    /// The three-bit value with a given numeric value, when in range.
    pub fn try_from_u8(value: u8) -> (r: Option<u3>)
        ensures
            r matches Some(v) ==> value <= 7 && u3_val(v) == value,
            r is None <==> value > 7,
    {
        match value {
            0 => Some(u3::ZERO),
            1 => Some(u3::ONE),
            2 => Some(u3::TWO),
            3 => Some(u3::THREE),
            4 => Some(u3::FOUR),
            5 => Some(u3::FIVE),
            6 => Some(u3::SIX),
            7 => Some(u3::SEVEN),
            _ => None,
        }
    }

    pub fn to_u8(self) -> (r: u8)
        ensures
            r == u3_val(self),
            r <= 7,
    {
        match self {
            u3::ZERO => 0,
            u3::ONE => 1,
            u3::TWO => 2,
            u3::THREE => 3,
            u3::FOUR => 4,
            u3::FIVE => 5,
            u3::SIX => 6,
            u3::SEVEN => 7,
        }
    }

    /// Bitwise exclusive or of two three-bit values.
    pub fn bitxor(self, rhs: u3) -> (r: u3)
        ensures
            u3_val(r) == (u3_val(self) as u8) ^ (u3_val(rhs) as u8),
    {
        let a = self.to_u8();
        let b = rhs.to_u8();
        let x = a ^ b;
        proof {
            assert(a <= 7 && b <= 7 ==> (a ^ b) <= 7) by (bit_vector);
        }
        match u3::try_from_u8(x) {
            Some(v) => v,
            None => {
                proof {
                    assert(false);
                }
                u3::ZERO
            },
        }
    }
}

/// The eight opcodes.
#[derive(Clone, Copy, PartialEq, Eq, Structural, Debug)]
pub enum Instruction {
    Adv,
    Bxl,
    Bst,
    Jnz,
    Bxc,
    Out,
    Bdv,
    Cdv,
}

/// The opcode a three-bit value denotes.
pub open spec fn spec_instruction_of(v: u3) -> Instruction {
    match v {
        u3::ZERO => Instruction::Adv,
        u3::ONE => Instruction::Bxl,
        u3::TWO => Instruction::Bst,
        u3::THREE => Instruction::Jnz,
        u3::FOUR => Instruction::Bxc,
        u3::FIVE => Instruction::Out,
        u3::SIX => Instruction::Bdv,
        u3::SEVEN => Instruction::Cdv,
    }
}

impl Instruction {
    pub fn of_u3(value: u3) -> (r: Instruction)
        ensures
            r == spec_instruction_of(value),
    {
        match value {
            u3::ZERO => Instruction::Adv,
            u3::ONE => Instruction::Bxl,
            u3::TWO => Instruction::Bst,
            u3::THREE => Instruction::Jnz,
            u3::FOUR => Instruction::Bxc,
            u3::FIVE => Instruction::Out,
            u3::SIX => Instruction::Bdv,
            u3::SEVEN => Instruction::Cdv,
        }
    }
}

/// The machine: three registers, the program, and the output tape.
pub struct Computer {
    pub register_a: i64,
    pub register_b: i64,
    pub register_c: i64,
    pub program: Vec<u3>,
    pub output: Vec<u8>,
}

/// The value a combo operand denotes; operand seven is reserved.
pub open spec fn spec_combo(c: Computer, literal: u3) -> int {
    match literal {
        u3::ZERO => 0,
        u3::ONE => 1,
        u3::TWO => 2,
        u3::THREE => 3,
        u3::FOUR => c.register_a as int,
        u3::FIVE => c.register_b as int,
        u3::SIX => c.register_c as int,
        u3::SEVEN => 0,
    }
}

impl Computer {
    /// The value of a combo operand.  Operand seven is reserved and has
    /// no value.
    pub fn get_combo_operand(&self, literal_operand: u3) -> (r: i64)
        requires
            literal_operand != u3::SEVEN,
        ensures
            r as int == spec_combo(*self, literal_operand),
    {
        match literal_operand {
            u3::ZERO => 0,
            u3::ONE => 1,
            u3::TWO => 2,
            u3::THREE => 3,
            u3::FOUR => self.register_a,
            u3::FIVE => self.register_b,
            u3::SIX => self.register_c,
            u3::SEVEN => 0,
        }
    }
}

/// Rust's truncating division, as the machine's divisions behave.
pub open spec fn trunc_div(x: int, d: int) -> int {
    if x == 0 || d == 0 {
        0
    } else if x > 0 && d > 0 {
        x / d
    } else if x < 0 && d < 0 {
        (x * -1) / (d * -1)
    } else if x < 0 {
        ((x * -1) / d) * -1
    } else {
        (x / (d * -1)) * -1
    }
}

/// Rust's truncating remainder.
pub open spec fn trunc_rem(x: int, d: int) -> int {
    if x == 0 || d == 0 {
        0
    } else if x > 0 && d > 0 {
        x % d
    } else if x < 0 && d < 0 {
        ((x * -1) % (d * -1)) * -1
    } else if x < 0 {
        ((x * -1) % d) * -1
    } else {
        x % (d * -1)
    }
}

/// Two to a small power; large shifts drain a register to zero.
pub open spec fn spec_shift_div(a: int, k: int) -> int {
    if 0 <= k < 63 {
        trunc_div(a, pow2_int(k))
    } else {
        0
    }
}

pub open spec fn pow2_int(k: int) -> int
    decreases k,
{
    if k <= 0 {
        1
    } else {
        2 * pow2_int(k - 1)
    }
}

/// A running program: the machine plus an instruction pointer.
pub struct Execution {
    pub computer: Computer,
    pub instruction_pointer: usize,
}

/// The observable machine state.
pub struct MachineView {
    pub a: int,
    pub b: int,
    pub c: int,
    pub program: Seq<u3>,
    pub output: Seq<int>,
    pub ip: int,
}

impl Execution {
    pub open spec fn view_of(self) -> MachineView {
        MachineView {
            a: self.computer.register_a as int,
            b: self.computer.register_b as int,
            c: self.computer.register_c as int,
            program: self.computer.program@,
            output: self.computer.output@.map_values(|v: u8| v as int),
            ip: self.instruction_pointer as int,
        }
    }
}

/// The value a combo operand denotes on a view.
pub open spec fn combo_v(m: MachineView, literal: u3) -> int {
    match literal {
        u3::ZERO => 0,
        u3::ONE => 1,
        u3::TWO => 2,
        u3::THREE => 3,
        u3::FOUR => m.a,
        u3::FIVE => m.b,
        u3::SIX => m.c,
        u3::SEVEN => 0,
    }
}

/// The i64 result of a division, exclusive-or or remainder, wrapped as the
/// machine stores it.
pub open spec fn as_reg(x: int) -> int {
    x as i64 as int
}

/// The pointer has left the program: the machine can run no further.
pub open spec fn halted_v(m: MachineView) -> bool {
    !(0 <= m.ip && m.ip + 1 < m.program.len())
}

/// One machine step, as a mathematical function of the observable state.
pub open spec fn step_v(m: MachineView) -> MachineView {
    let inst = spec_instruction_of(m.program[m.ip]);
    let lit = m.program[m.ip + 1];
    match inst {
        Instruction::Adv => MachineView {
            a: as_reg(spec_shift_div(m.a, combo_v(m, lit))),
            ip: m.ip + 2,
            ..m
        },
        Instruction::Bxl => MachineView {
            b: as_reg(((m.b as i64) ^ (u3_val(lit) as i64)) as int),
            ip: m.ip + 2,
            ..m
        },
        Instruction::Bst => MachineView { b: as_reg(trunc_rem(combo_v(m, lit), 8)), ip: m.ip + 2, ..m },
        Instruction::Jnz => {
            if m.a != 0 {
                MachineView { ip: u3_val(lit) / 2, ..m }
            } else {
                MachineView { ip: m.ip + 2, ..m }
            }
        },
        Instruction::Bxc => MachineView { b: as_reg(((m.b as i64) ^ (m.c as i64)) as int), ip: m.ip + 2, ..m },
        Instruction::Out => MachineView {
            output: m.output.push(trunc_rem(combo_v(m, lit), 8) as u8 as int),
            ip: m.ip + 2,
            ..m
        },
        Instruction::Bdv => MachineView {
            b: as_reg(spec_shift_div(m.a, combo_v(m, lit))),
            ip: m.ip + 2,
            ..m
        },
        Instruction::Cdv => MachineView {
            c: as_reg(spec_shift_div(m.a, combo_v(m, lit))),
            ip: m.ip + 2,
            ..m
        },
    }
}

/// The state after n steps, halting when the pointer leaves the program.
pub open spec fn steps_v(m: MachineView, n: nat) -> MachineView
    decreases n,
{
    if n == 0 || !(0 <= m.ip && m.ip + 1 < m.program.len()) {
        m
    } else {
        steps_v(step_v(m), (n - 1) as nat)
    }
}

} // verus!

verus! {

/// A left shift of one is the power of two.
proof fn lemma_shift_pow2(k: u64)
    requires
        k < 63,
    ensures
        (1i64 << k) as int == pow2_int(k as int),
        1 <= (1i64 << k),
    decreases k,
{
    if k == 0 {
        assert(1i64 << 0u64 == 1) by (bit_vector);
    } else {
        lemma_shift_pow2((k - 1) as u64);
        assert(forall|j: u64|
            1u64 <= j < 63u64 ==> #[trigger] (1i64 << j) == 2i64 * (1i64 << ((j - 1u64) as u64)))
            by (bit_vector);
        assert(1i64 << k == 2i64 * (1i64 << ((k - 1u64) as u64)));
        assert((k - 1u64) as int == k as int - 1);
        assert(pow2_int(k as int) == 2 * pow2_int(k as int - 1));
    }
}

/// Truncating division by a positive power of two, saturating large
/// shifts to zero.
fn shift_div(a: i64, k: i64) -> (r: i64)
    ensures
        r as int == as_reg(spec_shift_div(a as int, k as int)),
{
    if k < 0 || k >= 63 {
        return 0;
    }
    let ku: u64 = k as u64;
    let p: i64 = 1i64 << ku;
    proof {
        lemma_shift_pow2(ku);
    }
    let q = match a.checked_div(p) {
        Some(q) => q,
        None => {
            proof {
                assert(false);
            }
            0
        },
    };
    proof {
        assert(q as int == trunc_div(a as int, p as int));
    }
    q
}

/// Truncating remainder by eight.
fn rem8(a: i64) -> (r: i64)
    ensures
        r as int == trunc_rem(a as int, 8),
        -8 < r < 8,
{
    let q = match a.checked_rem(8) {
        Some(q) => q,
        None => {
            proof {
                assert(false);
            }
            0
        },
    };
    proof {
        assert(q as int == trunc_rem(a as int, 8));
    }
    q
}

impl Execution {
    /// Wrap a machine into a fresh run.
    pub fn new(computer: Computer) -> (r: Execution)
        ensures
            r.computer == computer,
            r.instruction_pointer == 0,
    {
        Execution { computer, instruction_pointer: 0 }
    }

    /// Execute the instruction under the pointer.
    pub fn step(&mut self)
        requires
            old(self).instruction_pointer + 1 < old(self).computer.program@.len(),
        ensures
            final(self).view_of() == step_v(old(self).view_of()),
    {
        let ghost m0 = self.view_of();
        let ip = self.instruction_pointer;
        let plen = self.computer.program.len();
        let opcode = self.computer.program[ip];
        let lit = self.computer.program[ip + 1];
        let inst = Instruction::of_u3(opcode);
        let combo: i64 = match lit {
            u3::SEVEN => 0,
            _ => self.computer.get_combo_operand(lit),
        };
        proof {
            assert(combo as int == combo_v(m0, lit));
        }
        match inst {
            Instruction::Adv => {
                self.computer.register_a = shift_div(self.computer.register_a, combo);
                self.instruction_pointer = ip + 2;
            },
            Instruction::Bxl => {
                self.computer.register_b = self.computer.register_b ^ (lit.to_u8() as i64);
                self.instruction_pointer = ip + 2;
            },
            Instruction::Bst => {
                self.computer.register_b = rem8(combo);
                self.instruction_pointer = ip + 2;
            },
            Instruction::Jnz => {
                if self.computer.register_a != 0 {
                    self.instruction_pointer = (lit.to_u8() / 2) as usize;
                } else {
                    self.instruction_pointer = ip + 2;
                }
            },
            Instruction::Bxc => {
                self.computer.register_b = self.computer.register_b ^ self.computer.register_c;
                self.instruction_pointer = ip + 2;
            },
            Instruction::Out => {
                let v = rem8(combo);
                let b = #[verifier::truncate] (v as u8);
                let ghost out0 = self.computer.output@;
                self.computer.output.push(b);
                proof {
                    assert(self.computer.output@.map_values(|x: u8| x as int) =~= out0.map_values(
                        |x: u8| x as int,
                    ).push(b as int));
                }
                self.instruction_pointer = ip + 2;
            },
            Instruction::Bdv => {
                self.computer.register_b = shift_div(self.computer.register_a, combo);
                self.instruction_pointer = ip + 2;
            },
            Instruction::Cdv => {
                self.computer.register_c = shift_div(self.computer.register_a, combo);
                self.instruction_pointer = ip + 2;
            },
        }
        proof {
            assert(self.view_of() == step_v(m0));
        }
    }

    /// Run until the pointer leaves the program, or the step budget runs
    /// out; true exactly when the machine halted.
    pub fn run(&mut self, max_steps: usize) -> (halted: bool)
        ensures
            halted == halted_v(final(self).view_of()),
            halted ==> final(self).view_of() == steps_v(old(self).view_of(), max_steps as nat),
            exists|k: nat|
                k <= max_steps && final(self).view_of() == steps_v(old(self).view_of(), k),
    {
        let ghost m0 = self.view_of();
        let mut k: usize = 0;
        loop
            invariant
                0 <= k <= max_steps,
                self.view_of() == steps_v(m0, k as nat),
            ensures
                0 <= k <= max_steps,
                self.view_of() == steps_v(m0, k as nat),
                k == max_steps || halted_v(self.view_of()),
            decreases max_steps - k,
        {
            let n = self.computer.program.len();
            let ip = self.instruction_pointer;
            if !(k < max_steps && ip < n && n - ip > 1) {
                break ;
            }
            let ghost prev = self.view_of();
            proof {
                lemma_machine_chain(m0, k as nat, 1);
                assert(steps_v(prev, 1) == steps_v(step_v(prev), 0));
                assert(steps_v(step_v(prev), 0) == step_v(prev));
            }
            self.step();
            k = k + 1;
            proof {
                assert(self.view_of() == steps_v(m0, k as nat));
            }
        }
        proof {
            if halted_v(self.view_of()) {
                lemma_machine_halt(self.view_of(), (max_steps - k) as nat);
                lemma_machine_chain(m0, k as nat, (max_steps - k) as nat);
            }
        }
        let n = self.computer.program.len();
        let ip = self.instruction_pointer;
        !(ip < n && n - ip > 1)
    }
}

proof fn lemma_machine_chain(m: MachineView, a: nat, b: nat)
    ensures
        steps_v(steps_v(m, a), b) == steps_v(m, (a + b) as nat),
    decreases a,
{
    if a > 0 {
        if 0 <= m.ip && m.ip + 1 < m.program.len() {
            lemma_machine_chain(step_v(m), (a - 1) as nat, b);
        } else {
            lemma_machine_halt(m, a);
            lemma_machine_halt(m, b);
            lemma_machine_halt(m, (a + b) as nat);
        }
    }
}

proof fn lemma_machine_halt(m: MachineView, n: nat)
    requires
        !(0 <= m.ip && m.ip + 1 < m.program.len()),
    ensures
        steps_v(m, n) == m,
    decreases n,
{
    if n > 0 {
        lemma_machine_halt(m, (n - 1) as nat);
    }
}

} // verus!

verus! {

/// A register line: its prefix, an optional minus sign, digits to the end,
/// within the i64 range.
pub open spec fn spec_reg_line(l: Seq<char>, pre: Seq<char>) -> Option<int> {
    if !is_seq_at(l, 0, pre) {
        None
    } else {
        let a0 = pre.len() as int;
        let neg = a0 < l.len() && l[a0] == '-';
        let d0 = if neg {
            a0 + 1
        } else {
            a0
        };
        let d1 = digit_end(l, d0);
        if d1 == d0 || d1 != l.len() || digits_value(l.subrange(d0, d1)) > i64::MAX {
            None
        } else if neg {
            Some(-digits_value(l.subrange(d0, d1)))
        } else {
            Some(digits_value(l.subrange(d0, d1)))
        }
    }
}

/// A comma-separated run of three-bit digits, read from position i.
pub open spec fn spec_u3s(l: Seq<char>, i: int) -> Option<Seq<u3>>
    decreases l.len() - i,
{
    if !(0 <= i < l.len()) {
        None
    } else if crate::text::digit_of(l[i]) is None || crate::text::digit_of(l[i])->Some_0 > 7 {
        None
    } else {
        let d = crate::text::digit_of(l[i])->Some_0;
        let v = spec_u3_of(d);
        if i + 1 == l.len() {
            Some(seq![v])
        } else if l[i + 1] == ',' && i + 2 <= l.len() {
            match spec_u3s(l, i + 2) {
                Some(rest) => Some(seq![v] + rest),
                None => None,
            }
        } else {
            None
        }
    }
}

pub open spec fn spec_u3_of(d: int) -> u3 {
    if d == 0 {
        u3::ZERO
    } else if d == 1 {
        u3::ONE
    } else if d == 2 {
        u3::TWO
    } else if d == 3 {
        u3::THREE
    } else if d == 4 {
        u3::FOUR
    } else if d == 5 {
        u3::FIVE
    } else if d == 6 {
        u3::SIX
    } else {
        u3::SEVEN
    }
}

/// What a successful parse promises about each part of the text.
pub open spec fn spec_parse_computer(s: Seq<char>, c: Computer) -> bool {
    let lines = line_seqs(trimmed(s));
    &&& lines.len() >= 5
    &&& spec_reg_line(crate::text::trimmed(lines[0]), "Register A: "@) == Some(
        c.register_a as int,
    )
    &&& spec_reg_line(crate::text::trimmed(lines[1]), "Register B: "@) == Some(
        c.register_b as int,
    )
    &&& spec_reg_line(crate::text::trimmed(lines[2]), "Register C: "@) == Some(
        c.register_c as int,
    )
    &&& is_seq_at(crate::text::trimmed(lines[4]), 0, "Program: "@)
    &&& spec_u3s(crate::text::trimmed(lines[4]), "Program: "@.len() as int) == Some(c.program@)
    &&& c.output@.len() == 0
}

/// Read one register line.
fn parse_reg_line(l: &Vec<char>, pre: &Vec<char>) -> (r: Option<i64>)
    ensures
        match r {
            Some(v) => spec_reg_line(l@, pre@) == Some(v as int),
            None => spec_reg_line(l@, pre@) is None,
        },
{
    if !seq_at(l, 0, pre) {
        return None;
    }
    let a0 = pre.len();
    proof {
        assert(a0 <= l@.len());
    }
    let neg = a0 < l.len() && l[a0] == '-';
    let d0 = if neg {
        a0 + 1
    } else {
        a0
    };
    let d1 = scan_digits(l, d0);
    if d1 == d0 || d1 != l.len() {
        return None;
    }
    let ds = sub_chars(l, d0, d1);
    let v = match parse_u64(&ds) {
        Some(v) => v,
        None => {
            proof {
                crate::claw::lemma_digit_run_all(l@, d0 as int, d1 as int);
            }
            return None;
        },
    };
    if v > 0x7fffffffffffffff {
        return None;
    }
    if neg {
        Some(-(v as i64))
    } else {
        Some(v as i64)
    }
}

/// Read the program digits.
fn parse_u3s(l: &Vec<char>, i: usize) -> (r: Option<Vec<u3>>)
    requires
        i <= l@.len(),
    ensures
        match r {
            Some(v) => spec_u3s(l@, i as int) == Some(v@),
            None => spec_u3s(l@, i as int) is None,
        },
    decreases l@.len() - i,
{
    if i >= l.len() {
        return None;
    }
    let c = l[i];
    if !(c >= '0' && c <= '9') {
        return None;
    }
    let d: u8 = (c as u32 as u8) - ('0' as u32 as u8);
    if d > 7 {
        return None;
    }
    let v = match u3::try_from_u8(d) {
        Some(v) => v,
        None => {
            proof {
                assert(false);
            }
            u3::ZERO
        },
    };
    proof {
        assert(u3_val(v) == crate::text::digit_of(l@[i as int])->Some_0);
        assert(v == spec_u3_of(crate::text::digit_of(l@[i as int])->Some_0));
    }
    if i + 1 == l.len() {
        let mut out: Vec<u3> = Vec::new();
        out.push(v);
        proof {
            assert(out@ =~= seq![v]);
        }
        return Some(out);
    }
    if l[i + 1] == ',' {
        match parse_u3s(l, i + 2) {
            Some(rest) => {
                let mut out: Vec<u3> = Vec::new();
                out.push(v);
                let mut j: usize = 0;
                while j < rest.len()
                    invariant
                        0 <= j <= rest@.len(),
                        out@ == seq![v] + rest@.take(j as int),
                    decreases rest@.len() - j,
                {
                    out.push(rest[j]);
                    proof {
                        assert(seq![v] + rest@.take(j + 1) =~= (seq![v] + rest@.take(
                            j as int,
                        )).push(rest@[j as int]));
                    }
                    j = j + 1;
                }
                proof {
                    assert(rest@.take(rest@.len() as int) =~= rest@);
                }
                Some(out)
            },
            None => None,
        }
    } else {
        None
    }
}

impl Computer {
    /// Parse a machine description; None when any line deviates from the
    /// expected shape.
    pub fn parse(input: &str) -> (r: Option<Computer>)
        ensures
            r matches Some(c) ==> spec_parse_computer(input@, c),
            r is None ==> !(exists|c: Computer| spec_parse_computer(input@, c)),
    {
        let cs = chars_of(input);
        let t = trim(&cs);
        let lines = crate::text::split_lines(&t);
        let ghost glines = line_seqs(trimmed(input@));
        if lines.len() < 5 {
            proof {
                assert(glines.len() < 5);
            }
            return None;
        }
        proof {
            assert(glines.len() == lines@.len());
            assert(glines[0] == lines@.map_values(|l: Vec<char>| l@)[0]);
            assert(glines[1] == lines@.map_values(|l: Vec<char>| l@)[1]);
            assert(glines[2] == lines@.map_values(|l: Vec<char>| l@)[2]);
            assert(glines[4] == lines@.map_values(|l: Vec<char>| l@)[4]);
        }
        let pre_a = chars_of("Register A: ");
        let pre_b = chars_of("Register B: ");
        let pre_c = chars_of("Register C: ");
        let pre_p = chars_of("Program: ");
        let l0 = trim(&lines[0]);
        let l1 = trim(&lines[1]);
        let l2 = trim(&lines[2]);
        let l4 = trim(&lines[4]);
        let a = match parse_reg_line(&l0, &pre_a) {
            Some(v) => v,
            None => {
                return None;
            },
        };
        let b = match parse_reg_line(&l1, &pre_b) {
            Some(v) => v,
            None => {
                return None;
            },
        };
        let c = match parse_reg_line(&l2, &pre_c) {
            Some(v) => v,
            None => {
                return None;
            },
        };
        if !seq_at(&l4, 0, &pre_p) {
            return None;
        }
        let p0 = pre_p.len();
        proof {
            assert(p0 <= l4@.len());
        }
        let program = match parse_u3s(&l4, p0) {
            Some(p) => p,
            None => {
                return None;
            },
        };
        Some(
            Computer {
                register_a: a,
                register_b: b,
                register_c: c,
                program,
                output: Vec::new(),
            },
        )
    }
}

} // verus!
