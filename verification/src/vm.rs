//! The Zonary machine: registers named by numbers, each holding an unsigned
//! value of the program's bit width.

use crate::error::{Fault, ZonaryError};
use crate::word::{
    big_add, big_and, big_from_u64, big_is_zero, big_low_u64, big_lt, big_shl, big_sub,
    big_parse_radix, big_to_radix, char_digit, digits_fold, lemma_and_low_mask, lemma_binary_len,
    lemma_hex_len, lemma_radix_first, lemma_radix_roundtrip, radix_parse, radix_string, strip_plus, Word,
};
use crate::text::{
    all_bits, all_bits_exec, all_hex, chars_of, is_hex_digit, is_white_space, is_whitespace,
    slice_chars, string_from_chars,
};
use std::collections::HashMap;
use vstd::arithmetic::power2::pow2;
use vstd::prelude::*;

verus! {

/// Bit width of a program without a `/01` directive.
pub const DEFAULT_BIT_WIDTH: u8 = 8;

/// A decoded instruction.
#[derive(Debug, Clone, Copy, PartialEq, Eq, Structural)]
pub enum Instruction {
    /// `000`: register `reg` := `param` (mode 0) or register `param`.
    Assign { reg: u64, param: u64, mode: u8 },
    /// `001`: register `reg_a` += `param` (mode 0) or register `param`.
    Add { reg_a: u64, param: u64, mode: u8 },
    /// `010`: register `reg_a` -= `param` (mode 0) or register `param`.
    Sub { reg_a: u64, param: u64, mode: u8 },
    /// `011`: defines label `param` (`def`), or jumps to it; the label is
    /// read from register `param` when `use_register`.
    Jmp { param: u64, def: bool, use_register: bool },
    /// `100`: jumps to label `param` (mode 0) or to the label in register
    /// `param` when register `reg` is zero.
    Ifz { reg: u64, param: u64, mode: u8 },
    /// `101`: prints `param` (`mode2` 0) or register `param` in binary,
    /// decimal, hexadecimal or ASCII (`mode1` 0 to 3).
    Out { param: u64, mode1: u8, mode2: u8 },
    /// `110`: reads a line into register `reg` as binary, decimal,
    /// hexadecimal or one character (`mode` 0 to 3).
    Inp { reg: u64, mode: u8 },
    /// `111`: ends the program with exit code `param` (mode 0) or sleeps
    /// `param` milliseconds.
    Sys { param: u64, mode: u8 },
}

/// The machine as mathematics: the bit width, the registers that hold a
/// value (a register absent from the map holds 0), the program counter and
/// the exit code.
pub struct MachineState {
    pub bit_width: u8,
    pub registers: Map<u64, nat>,
    pub pc: nat,
    pub return_code: i32,
}

/// The value of register `r`.
pub open spec fn reg_value(s: MachineState, r: u64) -> nat {
    if s.registers.contains_key(r) {
        s.registers[r]
    } else {
        0
    }
}

/// Only registers with a value other than 0 occupy the map, and every value
/// fits in the bit width.
pub open spec fn state_wf(s: MachineState) -> bool {
    forall|r: u64|
        #[trigger] s.registers.contains_key(r) ==> 0 < s.registers[r] < pow2(s.bit_width as nat)
}

/// `s` with register `r` set to `v` cut to the bit width; a register set to
/// 0 is dropped from the map.
pub open spec fn store(s: MachineState, r: u64, v: nat) -> MachineState {
    let t = v % pow2(s.bit_width as nat);
    MachineState {
        registers: if t == 0 {
            s.registers.remove(r)
        } else {
            s.registers.insert(r, t)
        },
        ..s
    }
}

/// `a - b` wrapped around modulo `2^bw`.
pub open spec fn wrap_sub(a: nat, b: nat, bw: nat) -> nat {
    ((a - b) % (pow2(bw) as int)) as nat
}

/// A fresh machine of bit width `bw`.
pub open spec fn fresh_state(bw: u8) -> MachineState {
    MachineState { bit_width: bw, registers: Map::empty(), pc: 0, return_code: 0 }
}

/// Registers and the state of execution.
pub struct VM {
    bit_width: u8,
    registers: HashMap<u64, Word>,
    pc: usize,
    return_code: i32,
}

impl View for VM {
    type V = MachineState;

    closed spec fn view(&self) -> MachineState {
        MachineState {
            bit_width: self.bit_width,
            registers: self.registers@.map_values(|w: Word| w@),
            pc: self.pc as nat,
            return_code: self.return_code,
        }
    }
}

impl VM {
    /// The invariant of the register file.
    pub open spec fn wf(&self) -> bool {
        state_wf(self@)
    }

    /// A machine of the given bit width with every register 0.
    pub fn new(bit_width: u8) -> (r: Self)
        ensures
            r@ == fresh_state(bit_width),
            r.wf(),
    {
        let r = VM { bit_width, registers: HashMap::new(), pc: 0, return_code: 0 };
        assert(r@.registers =~= Map::<u64, nat>::empty());
        r
    }

    /// The exit code set by `SYS` mode 0, 0 if none ran.
    pub fn get_return_code(&self) -> (r: i32)
        ensures
            r == self@.return_code,
    {
        self.return_code
    }

    /// The bit width.
    pub fn bit_width(&self) -> (r: u8)
        ensures
            r == self@.bit_width,
    {
        self.bit_width
    }

    /// The value of a register.
    fn get_register(&self, reg: u64) -> (r: Word)
        ensures
            r@ == reg_value(self@, reg),
    {
        broadcast use vstd::std_specs::hash::group_hash_axioms;

        match self.registers.get(&reg) {
            Some(w) => w.duplicate(),
            None => Word::zero(),
        }
    }

    /// `2^bw - 1`.
    fn get_max_value(&self) -> (r: Word)
        ensures
            r@ == pow2(self.bit_width as nat) - 1,
    {
        if self.bit_width == 0 {
            proof {
                vstd::arithmetic::power2::lemma2_to64();
            }
            return Word::zero();
        }
        let one = Word::one();
        let high = big_shl(&one, self.bit_width as usize);
        proof {
            vstd::arithmetic::power2::lemma_pow2_pos(self.bit_width as nat);
        }
        big_sub(&high, &one)
    }

    /// The value cut to the bit width.
    fn truncate(&self, value: Word) -> (r: Word)
        ensures
            r@ == value@ % pow2(self.bit_width as nat),
    {
        let max = self.get_max_value();
        proof {
            vstd::arithmetic::power2::lemma_pow2_pos(self.bit_width as nat);
        }
        if big_lt(&max, &value) {
            proof {
                lemma_and_low_mask(value@, self.bit_width as nat);
            }
            big_and(&value, &max)
        } else {
            proof {
                vstd::arithmetic::div_mod::lemma_small_mod(value@, pow2(self.bit_width as nat));
            }
            value
        }
    }

    /// Sets a register to the value cut to the bit width; a register set to
    /// 0 gives up its storage.
    fn set_register(&mut self, reg: u64, value: Word)
        requires
            old(self).wf(),
        ensures
            final(self)@ == store(old(self)@, reg, value@),
            final(self).wf(),
    {
        broadcast use vstd::std_specs::hash::group_hash_axioms;

        let masked = self.truncate(value);
        proof {
            vstd::arithmetic::power2::lemma_pow2_pos(self.bit_width as nat);
        }
        if big_is_zero(&masked) {
            self.registers.remove(&reg);
        } else {
            self.registers.insert(reg, masked);
        }
        assert(self@.registers =~= store(old(self)@, reg, value@).registers);
    }
}

/// `n` zeros.
pub open spec fn zeros(n: nat) -> Seq<char> {
    Seq::new(n, |i: int| '0')
}

/// `t` with zeros in front up to `width` characters.
pub open spec fn pad_left(t: Seq<char>, width: nat) -> Seq<char> {
    if t.len() < width {
        zeros((width - t.len()) as nat) + t
    } else {
        t
    }
}

/// A value cut to the bit width, in binary, padded to the bit width.
pub open spec fn format_binary_spec(v: nat, bw: nat) -> Seq<char> {
    pad_left(radix_string(v % pow2(bw), 2), bw)
}

/// ASCII lower-case letters turned to upper case.
pub open spec fn upper_char(c: char) -> char {
    if 'a' <= c <= 'z' {
        ((c as u32) - 32) as char
    } else {
        c
    }
}

/// `t` in upper case.
pub open spec fn to_upper(t: Seq<char>) -> Seq<char> {
    t.map_values(|c: char| upper_char(c))
}

/// Upper-case hexadecimal digit of a value below 16.
pub open spec fn hex_upper(d: nat) -> char {
    if d < 10 {
        (48 + d) as char
    } else {
        (55 + d) as char
    }
}

/// What `OUT` prints of `v`: cut to the bit width, then in binary padded to
/// the bit width (mode 0), in decimal (mode 1), in upper-case hexadecimal
/// padded to a digit per 4 bits (mode 2), or as the ASCII character of its
/// low 64 bits when that is printable and `\xHH` of its low byte otherwise
/// (mode 3).
pub open spec fn render_value(v: nat, mode: u8, bw: nat) -> Result<Seq<char>, Fault> {
    let t = v % pow2(bw);
    if mode == 0 {
        Ok(format_binary_spec(t, bw))
    } else if mode == 1 {
        Ok(radix_string(t, 10))
    } else if mode == 2 {
        Ok(pad_left(to_upper(radix_string(t, 16)), (bw + 3) / 4))
    } else if mode == 3 {
        let c = t % pow2(64);
        if 32 <= c <= 126 {
            Ok(seq![c as char])
        } else {
            Ok(seq!['\\', 'x', hex_upper((c % 256) / 16), hex_upper((c % 256) % 16)])
        }
    } else {
        Err(Fault::InvalidOutputMode(mode))
    }
}

/// `t` with zeros in front up to `width` characters.
fn pad_zeros(t: Vec<char>, width: usize) -> (r: Vec<char>)
    ensures
        r@ == pad_left(t@, width as nat),
{
    if t.len() >= width {
        return t;
    }
    let mut r: Vec<char> = Vec::new();
    let fill = width - t.len();
    let mut k: usize = 0;
    while k < fill
        invariant
            k <= fill,
            r@ == zeros(k as nat),
        decreases fill - k,
    {
        r.push('0');
        k = k + 1;
        assert(r@ =~= zeros(k as nat));
    }
    let mut j: usize = 0;
    while j < t.len()
        invariant
            j <= t.len(),
            r@ == zeros(fill as nat) + t@.take(j as int),
        decreases t.len() - j,
    {
        r.push(t[j]);
        j = j + 1;
        assert(r@ =~= zeros(fill as nat) + t@.take(j as int));
    }
    assert(t@.take(j as int) =~= t@);
    r
}

/// `t` in upper case.
fn upper(t: Vec<char>) -> (r: Vec<char>)
    ensures
        r@ == to_upper(t@),
{
    let mut r: Vec<char> = Vec::new();
    let mut j: usize = 0;
    while j < t.len()
        invariant
            j <= t.len(),
            r@ == to_upper(t@.take(j as int)),
        decreases t.len() - j,
    {
        let c = t[j];
        let u = if 'a' <= c && c <= 'z' {
            ((c as u32) - 32) as u8 as char
        } else {
            c
        };
        r.push(u);
        j = j + 1;
        assert(r@ =~= to_upper(t@.take(j as int)));
    }
    assert(t@.take(j as int) =~= t@);
    r
}

/// Upper-case hexadecimal digit of a value below 16.
fn hex_digit(d: u64) -> (r: char)
    requires
        d < 16,
    ensures
        r == hex_upper(d as nat),
{
    if d < 10 {
        (48 + d) as u8 as char
    } else {
        (55 + d) as u8 as char
    }
}

impl VM {
    /// The value cut to the bit width, in binary, padded to the bit width.
    fn format_binary(&self, value: &Word) -> (r: Vec<char>)
        ensures
            r@ == format_binary_spec(value@, self.bit_width as nat),
    {
        let bits = self.bit_width as usize;
        let val = self.truncate(value.duplicate());
        let bin = big_to_radix(&val, 2);
        pad_zeros(bin, bits)
    }

    /// The text that `OUT` prints for `value` in the given mode.
    fn output_value(&self, value: &Word, mode: u8) -> (r: Result<Vec<char>, ZonaryError>)
        ensures
            match render_value(value@, mode, self.bit_width as nat) {
                Ok(t) => r matches Ok(x) && x@ == t,
                Err(e) => r matches Err(x) && x@ == e,
            },
    {
        let val = self.truncate(value.duplicate());
        if mode == 0 {
            Ok(self.format_binary(&val))
        } else if mode == 1 {
            Ok(big_to_radix(&val, 10))
        } else if mode == 2 {
            let digits = (self.bit_width as usize + 3) / 4;
            let hex = upper(big_to_radix(&val, 16));
            Ok(pad_zeros(hex, digits))
        } else if mode == 3 {
            let val_u64 = big_low_u64(&val);
            if 32 <= val_u64 && val_u64 <= 126 {
                let mut r: Vec<char> = Vec::new();
                r.push(val_u64 as u8 as char);
                assert(r@ =~= seq![(val_u64 as nat) as char]);
                Ok(r)
            } else {
                let low = val_u64 % 256;
                let mut r: Vec<char> = Vec::new();
                r.push('\\');
                r.push('x');
                r.push(hex_digit(low / 16));
                r.push(hex_digit(low % 16));
                assert(r@ =~= seq!['\\', 'x', hex_upper((low as nat) / 16), hex_upper((low as nat) % 16)]);
                Ok(r)
            }
        } else {
            Err(ZonaryError::InvalidOutputMode(mode))
        }
    }
}

/// `s` without its leading blanks.
pub open spec fn trim_start(s: Seq<char>) -> Seq<char>
    decreases s.len(),
{
    if s.len() > 0 && is_white_space(s[0]) {
        trim_start(s.drop_first())
    } else {
        s
    }
}

/// `s` without its trailing blanks.
pub open spec fn trim_end(s: Seq<char>) -> Seq<char>
    decreases s.len(),
{
    if s.len() > 0 && is_white_space(s.last()) {
        trim_end(s.drop_last())
    } else {
        s
    }
}

/// `s` without leading and trailing blanks (`str::trim`).
pub open spec fn trim(s: Seq<char>) -> Seq<char> {
    trim_end(trim_start(s))
}

/// `s` without its leading `0`s.
pub open spec fn strip_zeros(s: Seq<char>) -> Seq<char>
    decreases s.len(),
{
    if s.len() > 0 && s[0] == '0' {
        strip_zeros(s.drop_first())
    } else {
        s
    }
}

/// The number, or 0 when there is none.
pub open spec fn or_zero(v: Option<nat>) -> nat {
    match v {
        Some(n) => n,
        None => 0,
    }
}

/// What `INP` stores for a line of input, before the register cuts it to
/// the bit width: the line is trimmed; an empty line is 0; then mode 0 takes
/// exactly `bw` binary digits, mode 1 a decimal number, mode 2 hexadecimal
/// digits that, without leading zeros, fit in a digit per 4 bits, and mode 3
/// the code of the first character; input that does not fit its mode is 0.
pub open spec fn input_value(line: Seq<char>, mode: u8, bw: nat) -> Result<nat, Fault> {
    let b = trim(line);
    if b.len() == 0 {
        Ok(0)
    } else if mode > 3 {
        Err(Fault::InvalidInputMode(mode))
    } else {
        let v = if mode == 0 {
            if all_bits(b) && b.len() == bw {
                or_zero(radix_parse(b, 2))
            } else {
                0
            }
        } else if mode == 1 {
            or_zero(radix_parse(b, 10))
        } else if mode == 2 {
            if strip_zeros(b).len() <= (bw + 3) / 4 && all_hex(b) {
                or_zero(radix_parse(b, 16))
            } else {
                0
            }
        } else {
            (b[0] as u32) as nat
        };
        Ok(v % pow2(bw))
    }
}

/// `s` without leading and trailing blanks.
fn trim_chars(s: &Vec<char>) -> (r: Vec<char>)
    ensures
        r@ == trim(s@),
{
    let n = s.len();
    let mut k: usize = 0;
    assert(s@.skip(0) =~= s@);
    while k < n && is_whitespace(s[k])
        invariant
            n == s.len(),
            k <= n,
            trim_start(s@) == trim_start(s@.skip(k as int)),
        decreases n - k,
    {
        assert(s@.skip(k as int).drop_first() =~= s@.skip(k + 1));
        k = k + 1;
    }
    let ghost t = s@.skip(k as int);
    assert(trim_start(s@) == t);
    let mut e: usize = n;
    assert(t =~= s@.subrange(k as int, e as int));
    while e > k && is_whitespace(s[e - 1])
        invariant
            n == s.len(),
            k <= e <= n,
            t == s@.skip(k as int),
            trim_end(t) == trim_end(s@.subrange(k as int, e as int)),
        decreases e - k,
    {
        assert(s@.subrange(k as int, e as int).drop_last() =~= s@.subrange(k as int, e - 1));
        e = e - 1;
    }
    slice_chars(s, k, e)
}

/// `s` has no more than `limit` characters once its leading zeros are
/// dropped.
fn fits_without_zeros(s: &Vec<char>, limit: usize) -> (r: bool)
    ensures
        r == (strip_zeros(s@).len() <= limit),
{
    let n = s.len();
    let mut z: usize = 0;
    assert(s@.skip(0) =~= s@);
    while z < n && s[z] == '0'
        invariant
            n == s.len(),
            z <= n,
            strip_zeros(s@) == strip_zeros(s@.skip(z as int)),
        decreases n - z,
    {
        assert(s@.skip(z as int).drop_first() =~= s@.skip(z + 1));
        z = z + 1;
    }
    assert(strip_zeros(s@) == s@.skip(z as int));
    n - z <= limit
}

/// Whether every character of `s` is a hexadecimal digit.
fn all_hex_exec(s: &Vec<char>) -> (r: bool)
    ensures
        r == all_hex(s@),
{
    let mut k: usize = 0;
    while k < s.len()
        invariant
            k <= s.len(),
            forall|i: int| 0 <= i < k ==> is_hex_digit(#[trigger] s@[i]),
        decreases s.len() - k,
    {
        let c = s[k];
        if !(('0' <= c && c <= '9') || ('a' <= c && c <= 'f') || ('A' <= c && c <= 'F')) {
            return false;
        }
        k = k + 1;
    }
    true
}

impl VM {
    /// The value that `INP` reads from a line of input in the given mode.
    fn read_input(&self, mode: u8, line: &Vec<char>) -> (r: Result<Word, ZonaryError>)
        ensures
            match input_value(line@, mode, self.bit_width as nat) {
                Ok(v) => r matches Ok(w) && w@ == v,
                Err(e) => r matches Err(x) && x@ == e,
            },
    {
        let buffer = trim_chars(line);
        if buffer.len() == 0 {
            return Ok(Word::zero());
        }
        let result = if mode == 0 {
            if all_bits_exec(&buffer) && buffer.len() == self.bit_width as usize {
                match big_parse_radix(&buffer, 2) {
                    Some(w) => w,
                    None => Word::zero(),
                }
            } else {
                Word::zero()
            }
        } else if mode == 1 {
            match big_parse_radix(&buffer, 10) {
                Some(w) => w,
                None => Word::zero(),
            }
        } else if mode == 2 {
            let expected_digits = (self.bit_width as usize + 3) / 4;
            if fits_without_zeros(&buffer, expected_digits) && all_hex_exec(&buffer) {
                match big_parse_radix(&buffer, 16) {
                    Some(w) => w,
                    None => Word::zero(),
                }
            } else {
                Word::zero()
            }
        } else if mode == 3 {
            let code = buffer[0] as u32;
            big_from_u64(code as u64)
        } else {
            return Err(ZonaryError::InvalidInputMode(mode));
        };
        Ok(self.truncate(result))
    }

    /// Stores a line of input into a register, as `INP` does once the line
    /// has been read.
    pub fn store_input(&mut self, reg: u64, mode: u8, line: &str) -> (r: Result<(), ZonaryError>)
        requires
            old(self).wf(),
        ensures
            final(self).wf(),
            match input_value(line@, mode, old(self)@.bit_width as nat) {
                Ok(v) => r is Ok && final(self)@ == store(old(self)@, reg, v),
                Err(e) => r matches Err(x) && x@ == e && final(self)@ == old(self)@,
            },
    {
        let chars = chars_of(line);
        let value = self.read_input(mode, &chars)?;
        proof {
            vstd::arithmetic::power2::lemma_pow2_pos(self.bit_width as nat);
            vstd::arithmetic::div_mod::lemma_mod_twice(value@ as int, pow2(self.bit_width as nat) as int);
        }
        self.set_register(reg, value);
        Ok(())
    }
}

/// What the caller has to do after a step, as mathematics.
pub enum Effect {
    Continue,
    Print(Seq<char>),
    LabelNotFound(u64),
    Read { reg: u64, mode: u8 },
    Sleep(u64),
    Exit(Seq<char>),
    Finished(Seq<char>),
}

/// What the caller has to do after a step of the machine.
#[derive(Debug, Clone)]
pub enum Action {
    /// Nothing: go on.
    Continue,
    /// Print the text (no line break) and flush the output.
    Print(String),
    /// A jump named a label that no `JMP` defines; the jump was skipped.
    LabelNotFound(u64),
    /// Read a line of input and hand it to `VM::store_input` with this
    /// register and mode.
    Read { reg: u64, mode: u8 },
    /// Sleep for the given number of milliseconds.
    Sleep(u64),
    /// `SYS` ended the program; the text is its exit code in binary.
    Exit(String),
    /// The program ran past its last instruction; the text is exit code 0
    /// in binary.
    Finished(String),
}

impl View for Action {
    type V = Effect;

    open spec fn view(&self) -> Effect {
        match self {
            Action::Continue => Effect::Continue,
            Action::Print(t) => Effect::Print(t@),
            Action::LabelNotFound(l) => Effect::LabelNotFound(*l),
            Action::Read { reg, mode } => Effect::Read { reg: *reg, mode: *mode },
            Action::Sleep(ms) => Effect::Sleep(*ms),
            Action::Exit(t) => Effect::Exit(t@),
            Action::Finished(t) => Effect::Finished(t@),
        }
    }
}

/// The value of an operand: the immediate `param` (mode 0) or register
/// `param`.
pub open spec fn operand(s: MachineState, param: u64, mode: u8) -> nat {
    if mode == 0 {
        param as nat
    } else {
        reg_value(s, param)
    }
}

/// `s` moved on to the next instruction.
pub open spec fn advance(s: MachineState) -> MachineState {
    MachineState { pc: s.pc + 1, ..s }
}

/// A jump to `label`: execution goes on after the `JMP` that defines it, or
/// with the next instruction when no `JMP` defines it.
pub open spec fn jump(s: MachineState, labels: Map<u64, usize>, label: u64) -> (MachineState, Effect) {
    if labels.contains_key(label) {
        (MachineState { pc: labels[label] as nat + 1, ..s }, Effect::Continue)
    } else {
        (advance(s), Effect::LabelNotFound(label))
    }
}

/// One step of the machine on the program `prog` with its label table.
pub open spec fn step_spec(s: MachineState, prog: Seq<Instruction>, labels: Map<u64, usize>) -> Result<
    (MachineState, Effect),
    Fault,
> {
    let bw = s.bit_width as nat;
    if s.pc >= prog.len() {
        Ok((s, Effect::Finished(format_binary_spec(0, bw))))
    } else {
        match prog[s.pc as int] {
            Instruction::Assign { reg, param, mode } => Ok(
                (store(advance(s), reg, operand(s, param, mode)), Effect::Continue),
            ),
            Instruction::Add { reg_a, param, mode } => Ok(
                (
                    store(advance(s), reg_a, reg_value(s, reg_a) + operand(s, param, mode)),
                    Effect::Continue,
                ),
            ),
            Instruction::Sub { reg_a, param, mode } => Ok(
                (
                    store(advance(s), reg_a, wrap_sub(reg_value(s, reg_a), operand(s, param, mode), bw)),
                    Effect::Continue,
                ),
            ),
            Instruction::Jmp { param, def, use_register } => if def {
                Ok((advance(s), Effect::Continue))
            } else {
                Ok(
                    jump(
                        s,
                        labels,
                        if use_register {
                            (reg_value(s, param) % pow2(64)) as u64
                        } else {
                            param
                        },
                    ),
                )
            },
            Instruction::Ifz { reg, param, mode } => if reg_value(s, reg) == 0 {
                Ok(
                    jump(
                        s,
                        labels,
                        if mode == 0 {
                            param
                        } else {
                            (reg_value(s, param) % pow2(64)) as u64
                        },
                    ),
                )
            } else {
                Ok((advance(s), Effect::Continue))
            },
            Instruction::Out { param, mode1, mode2 } => match render_value(
                operand(s, param, mode2),
                mode1,
                bw,
            ) {
                Ok(t) => Ok((advance(s), Effect::Print(t))),
                Err(e) => Err(e),
            },
            Instruction::Inp { reg, mode } => Ok((advance(s), Effect::Read { reg, mode })),
            Instruction::Sys { param, mode } => if mode == 0 {
                Ok(
                    (
                        MachineState { return_code: param as i32, ..s },
                        Effect::Exit(format_binary_spec(param as nat, bw)),
                    ),
                )
            } else if param > 0 {
                Ok((advance(s), Effect::Sleep(param)))
            } else {
                Ok((advance(s), Effect::Continue))
            },
        }
    }
}

/// The instruction at the program counter does not subtract an immediate
/// wider than the bit width (which the big-number subtraction refuses).
pub open spec fn step_safe(s: MachineState, prog: Seq<Instruction>) -> bool {
    s.pc < prog.len() ==> (prog[s.pc as int] matches Instruction::Sub { param, mode, .. } ==> (mode
        == 0 ==> param < pow2(s.bit_width as nat)))
}

/// Every label points below the largest index.
pub open spec fn labels_in_range(labels: Map<u64, usize>) -> bool {
    forall|l: u64| #[trigger] labels.contains_key(l) ==> labels[l] < usize::MAX
}

/// The wrapped difference that `SUB` computes equals `a - b` modulo `2^bw`.
proof fn lemma_wrap_sub(a: nat, b: nat, bw: nat)
    requires
        a < pow2(bw),
        b < pow2(bw),
    ensures
        a < b ==> wrap_sub(a, b, bw) == (pow2(bw) - 1 - b) + a + 1,
        a >= b ==> wrap_sub(a, b, bw) == a - b,
        wrap_sub(a, b, bw) < pow2(bw),
{
    let m = pow2(bw) as int;
    if a < b {
        vstd::arithmetic::div_mod::lemma_mod_multiples_vanish(1, a - b, m);
        vstd::arithmetic::div_mod::lemma_small_mod((m + a - b) as nat, m as nat);
    } else {
        vstd::arithmetic::div_mod::lemma_small_mod((a - b) as nat, m as nat);
    }
}

impl VM {
    /// The value of an operand.
    fn operand(&self, param: u64, mode: u8) -> (r: Word)
        ensures
            r@ == operand(self@, param, mode),
    {
        if mode == 0 {
            big_from_u64(param)
        } else {
            self.get_register(param)
        }
    }

    /// Moves the program counter past a taken jump to `label`, or on by one.
    fn jump_to(&mut self, labels: &HashMap<u64, usize>, label: u64) -> (r: Action)
        requires
            labels_in_range(labels@),
            old(self)@.pc < usize::MAX,
        ensures
            (final(self)@, r@) == jump(old(self)@, labels@, label),
            final(self).bit_width == old(self).bit_width,
            final(self).registers == old(self).registers,
            final(self).return_code == old(self).return_code,
    {
        broadcast use vstd::std_specs::hash::group_hash_axioms;

        match labels.get(&label) {
            Some(target) => {
                self.pc = *target + 1;
                Action::Continue
            },
            None => {
                self.pc = self.pc + 1;
                Action::LabelNotFound(label)
            },
        }
    }

    /// Executes the instruction at the program counter, or notices that the
    /// program is over, and says what the caller has to do next. Repeated
    /// until it returns `Exit` or `Finished`, it runs the program.
    pub fn execute(&mut self, instructions: &[Instruction], labels: &HashMap<u64, usize>) -> (r:
        Result<Action, ZonaryError>)
        requires
            old(self).wf(),
            step_safe(old(self)@, instructions@),
            labels_in_range(labels@),
        ensures
            final(self).wf(),
            match step_spec(old(self)@, instructions@, labels@) {
                Ok((s, e)) => r matches Ok(a) && a@ == e && final(self)@ == s,
                Err(f) => r matches Err(x) && x@ == f && final(self)@ == old(self)@,
            },
    {
        let ghost bw = self.bit_width as nat;
        proof {
            vstd::arithmetic::power2::lemma_pow2_pos(bw);
        }
        if self.pc >= instructions.len() {
            let zero = Word::zero();
            let text = self.format_binary(&zero);
            return Ok(Action::Finished(string_from_chars(&text)));
        }
        let instruction = instructions[self.pc];
        match instruction {
            Instruction::Assign { reg, param, mode } => {
                let value = self.operand(param, mode);
                self.pc = self.pc + 1;
                self.set_register(reg, value);
                Ok(Action::Continue)
            },
            Instruction::Add { reg_a, param, mode } => {
                let a = self.get_register(reg_a);
                let b = self.operand(param, mode);
                let result = big_add(&a, &b);
                self.pc = self.pc + 1;
                self.set_register(reg_a, result);
                Ok(Action::Continue)
            },
            Instruction::Sub { reg_a, param, mode } => {
                let a = self.get_register(reg_a);
                let b = self.operand(param, mode);
                let max = self.get_max_value();
                proof {
                    if self@.registers.contains_key(reg_a) {
                        assert(self@.registers[reg_a] < pow2(bw));
                    }
                    if mode != 0 && self@.registers.contains_key(param) {
                        assert(self@.registers[param] < pow2(bw));
                    }
                    lemma_wrap_sub(a@, b@, bw);
                }
                let result = if big_lt(&a, &b) {
                    let gap = big_sub(&max, &b);
                    let sum = big_add(&gap, &a);
                    big_add(&sum, &Word::one())
                } else {
                    big_sub(&a, &b)
                };
                self.pc = self.pc + 1;
                self.set_register(reg_a, result);
                Ok(Action::Continue)
            },
            Instruction::Jmp { param, def, use_register } => {
                let label_num = if use_register {
                    let w = self.get_register(param);
                    big_low_u64(&w)
                } else {
                    param
                };
                if def {
                    self.pc = self.pc + 1;
                    Ok(Action::Continue)
                } else {
                    Ok(self.jump_to(labels, label_num))
                }
            },
            Instruction::Ifz { reg, param, mode } => {
                let value = self.get_register(reg);
                if big_is_zero(&value) {
                    let label_num = if mode == 0 {
                        param
                    } else {
                        let w = self.get_register(param);
                        big_low_u64(&w)
                    };
                    Ok(self.jump_to(labels, label_num))
                } else {
                    self.pc = self.pc + 1;
                    Ok(Action::Continue)
                }
            },
            Instruction::Out { param, mode1, mode2 } => {
                let value = self.operand(param, mode2);
                let text = self.output_value(&value, mode1)?;
                self.pc = self.pc + 1;
                Ok(Action::Print(string_from_chars(&text)))
            },
            Instruction::Inp { reg, mode } => {
                self.pc = self.pc + 1;
                Ok(Action::Read { reg, mode })
            },
            Instruction::Sys { param, mode } => {
                if mode == 0 {
                    self.return_code = param as i32;
                    let code = big_from_u64(param);
                    let text = self.format_binary(&code);
                    Ok(Action::Exit(string_from_chars(&text)))
                } else {
                    self.pc = self.pc + 1;
                    if param > 0 {
                        Ok(Action::Sleep(param))
                    } else {
                        Ok(Action::Continue)
                    }
                }
            },
        }
    }
}

/// Zeros read as 0.
proof fn lemma_fold_zeros(k: nat, radix: nat)
    requires
        2 <= radix,
    ensures
        digits_fold(zeros(k), radix) == Some(0nat),
    decreases k,
{
    if k > 0 {
        assert(zeros(k).drop_last() =~= zeros((k - 1) as nat));
        lemma_fold_zeros((k - 1) as nat, radix);
        assert(0 * radix == 0);
    }
}

/// Leading zeros do not change the number read.
proof fn lemma_fold_leading_zeros(k: nat, s: Seq<char>, radix: nat)
    requires
        2 <= radix,
    ensures
        digits_fold(zeros(k) + s, radix) == digits_fold(s, radix),
    decreases s.len(),
{
    if s.len() == 0 {
        assert(zeros(k) + s =~= zeros(k));
        lemma_fold_zeros(k, radix);
    } else {
        assert((zeros(k) + s).drop_last() =~= zeros(k) + s.drop_last());
        assert((zeros(k) + s).last() == s.last());
        lemma_fold_leading_zeros(k, s.drop_last(), radix);
    }
}

/// Upper case does not change the number read.
proof fn lemma_fold_upper(s: Seq<char>, radix: nat)
    ensures
        digits_fold(to_upper(s), radix) == digits_fold(s, radix),
    decreases s.len(),
{
    if s.len() > 0 {
        assert(to_upper(s).drop_last() =~= to_upper(s.drop_last()));
        let c = s.last();
        assert(to_upper(s).last() == upper_char(c));
        assert(char_digit(upper_char(c)) == char_digit(c));
        assert(upper_char(c) == '_' <==> c == '_');
        lemma_fold_upper(s.drop_last(), radix);
    }
}

/// A text that neither starts nor ends with a blank is its own trim.
proof fn lemma_trim_plain(s: Seq<char>)
    requires
        s.len() > 0,
        !is_white_space(s[0]),
        !is_white_space(s.last()),
    ensures
        trim(s) == s,
{
}

/// Leading zeros in front do not change what `strip_zeros` leaves.
proof fn lemma_strip_leading_zeros(k: nat, u: Seq<char>)
    ensures
        strip_zeros(zeros(k) + u) == strip_zeros(u),
    decreases k,
{
    if k > 0 {
        assert((zeros(k) + u).drop_first() =~= zeros((k - 1) as nat) + u);
        lemma_strip_leading_zeros((k - 1) as nat, u);
    } else {
        assert(zeros(k) + u =~= u);
    }
}

/// What `OUT` prints in binary padded to the bit width, and its length.
proof fn lemma_binary_output(v: nat, bw: nat)
    requires
        v < pow2(bw),
        bw >= 1,
    ensures
        format_binary_spec(v, bw).len() == bw,
        format_binary_spec(v, bw) == zeros((bw - radix_string(v, 2).len()) as nat) + radix_string(
            v,
            2,
        ),
{
    vstd::arithmetic::div_mod::lemma_small_mod(v, pow2(bw));
    lemma_binary_len(v, bw);
    let u = radix_string(v, 2);
    if u.len() == bw {
        assert(zeros(0) + u =~= u);
    }
}

/// What `OUT` prints of a value that fits the bit width, `INP` reads back in
/// the same mode: binary, decimal and hexadecimal always, ASCII for the
/// printable characters other than the space (which `INP` trims away).
pub proof fn law_output_input_roundtrip(v: nat, mode: u8, bw: nat, t: Seq<char>)
    requires
        v < pow2(bw),
        mode <= 2 || (mode == 3 && 33 <= v <= 126),
        render_value(v, mode, bw) == Ok::<Seq<char>, Fault>(t),
    ensures
        input_value(t, mode, bw) == Ok::<nat, Fault>(v),
{
    vstd::arithmetic::power2::lemma_pow2_pos(bw);
    vstd::arithmetic::div_mod::lemma_small_mod(v, pow2(bw));
    if mode == 0 {
        if bw == 0 {
            assert(pow2(0) == 1) by {
                vstd::arithmetic::power2::lemma2_to64();
            }
            assert(v == 0);
            lemma_radix_first(0, 2);
            assert(t == radix_string(0, 2));
            assert(trim(t) == t);
            assert(all_bits(t));
            assert(0nat % 1 == 0);
        } else {
            lemma_binary_output(v, bw);
            let u = radix_string(v, 2);
            lemma_radix_first(v, 2);
            lemma_radix_roundtrip(v, 2);
            let k = (bw - u.len()) as nat;
            assert(t == zeros(k) + u);
            assert(t[0] == '0' || t[0] == u[0]);
            assert(t.last() == u.last());
            lemma_trim_plain(t);
            assert forall|i: int| 0 <= i < t.len() implies crate::text::is_bit(#[trigger] t[i]) by {
                if i >= k {
                    assert(t[i] == u[i - k]);
                }
            }
            lemma_fold_leading_zeros(k, u, 2);
            assert(strip_plus(t) == t);
        }
    } else if mode == 1 {
        let u = radix_string(v, 10);
        lemma_radix_first(v, 10);
        lemma_radix_roundtrip(v, 10);
        assert(t == u);
        lemma_trim_plain(t);
        assert(strip_plus(t) == t);
    } else if mode == 2 {
        let w = (bw + 3) / 4;
        let r = radix_string(v, 16);
        lemma_radix_first(v, 16);
        lemma_radix_roundtrip(v, 16);
        let u = to_upper(r);
        let k: nat = if u.len() < w {
            (w - u.len()) as nat
        } else {
            0
        };
        assert(t =~= zeros(k) + u);
        assert(u.len() == r.len());
        assert(u[0] == upper_char(r[0]));
        assert(t[0] == '0' || t[0] == u[0]);
        assert(t.last() == u.last());
        assert(u.last() == upper_char(r.last()));
        lemma_trim_plain(t);
        assert forall|i: int| 0 <= i < t.len() implies crate::text::is_hex_digit(#[trigger] t[i]) by {
            if i >= k {
                assert(t[i] == u[i - k]);
                assert(u[i - k] == upper_char(r[i - k]));
            }
        }
        lemma_strip_leading_zeros(k, u);
        if v == 0 {
            assert(u =~= seq!['0']);
            assert(u.drop_first() =~= Seq::<char>::empty());
            assert(u[0] == '0');
            assert(strip_zeros(u) == strip_zeros(u.drop_first()));
            assert(strip_zeros(u.drop_first()).len() == 0);
        } else {
            assert(strip_zeros(u) == u);
            assert(bw >= 1) by {
                if bw == 0 {
                    vstd::arithmetic::power2::lemma2_to64();
                }
            }
            if bw < 4 * w {
                vstd::arithmetic::power2::lemma_pow2_strictly_increases(bw, 4 * w);
            }
            lemma_hex_len(v, w);
        }
        lemma_fold_leading_zeros(k, u, 16);
        lemma_fold_upper(r, 16);
        assert(strip_plus(t) == t);
    } else {
        vstd::arithmetic::power2::lemma2_to64();
        vstd::arithmetic::div_mod::lemma_small_mod(v, pow2(64));
        assert(t == seq![v as char]);
        lemma_trim_plain(t);
    }
}

/// Adding then subtracting `b` modulo `2^bw` gives back `a`, and so does
/// subtracting then adding.
proof fn lemma_add_sub_inverse(a: nat, b: nat, bw: nat)
    requires
        a < pow2(bw),
        b < pow2(bw),
    ensures
        wrap_sub((a + b) % pow2(bw), b, bw) == a,
        (wrap_sub(a, b, bw) + b) % pow2(bw) == a,
{
    let m = pow2(bw) as int;
    vstd::arithmetic::power2::lemma_pow2_pos(bw);
    if a + b < m {
        vstd::arithmetic::div_mod::lemma_small_mod((a + b) as nat, m as nat);
        vstd::arithmetic::div_mod::lemma_small_mod(a, m as nat);
    } else {
        vstd::arithmetic::div_mod::lemma_mod_multiples_vanish(1, a + b - m, m);
        vstd::arithmetic::div_mod::lemma_small_mod((a + b - m) as nat, m as nat);
        vstd::arithmetic::div_mod::lemma_mod_multiples_vanish(-1, a as int, m);
        vstd::arithmetic::div_mod::lemma_small_mod(a, m as nat);
    }
    lemma_wrap_sub(a, b, bw);
    if a < b {
        vstd::arithmetic::div_mod::lemma_mod_multiples_vanish(1, a as int, m);
        vstd::arithmetic::div_mod::lemma_small_mod(a, m as nat);
    } else {
        vstd::arithmetic::div_mod::lemma_small_mod(a, m as nat);
    }
}

/// `ADD r b` followed by `SUB r b`, with an immediate `b` that fits the bit
/// width, leaves every register as it was.
pub proof fn law_add_then_sub(
    s: MachineState,
    prog: Seq<Instruction>,
    labels: Map<u64, usize>,
    r: u64,
    b: u64,
)
    requires
        state_wf(s),
        s.pc + 1 < prog.len(),
        prog[s.pc as int] == (Instruction::Add { reg_a: r, param: b, mode: 0 }),
        prog[(s.pc + 1) as int] == (Instruction::Sub { reg_a: r, param: b, mode: 0 }),
        b < pow2(s.bit_width as nat),
    ensures
        match step_spec(s, prog, labels) {
            Ok((s1, e1)) => e1 == Effect::Continue && match step_spec(s1, prog, labels) {
                Ok((s2, e2)) => e2 == Effect::Continue && s2.registers == s.registers && s2.pc
                    == s.pc + 2,
                Err(_) => false,
            },
            Err(_) => false,
        },
{
    let bw = s.bit_width as nat;
    let a = reg_value(s, r);
    vstd::arithmetic::power2::lemma_pow2_pos(bw);
    if s.registers.contains_key(r) {
        assert(s.registers[r] < pow2(bw));
    }
    lemma_add_sub_inverse(a, b as nat, bw);
    vstd::arithmetic::div_mod::lemma_mod_twice((a + b) as int, pow2(bw) as int);
    let s1 = store(advance(s), r, a + b as nat);
    assert(reg_value(s1, r) == (a + b as nat) % pow2(bw));
    let s2 = store(advance(s1), r, wrap_sub(reg_value(s1, r), b as nat, bw));
    if a == 0 {
        assert(s2.registers =~= s.registers);
    } else {
        vstd::arithmetic::div_mod::lemma_small_mod(a, pow2(bw));
        assert(s2.registers =~= s.registers);
    }
}

/// `SUB r b` followed by `ADD r b`, with an immediate `b` that fits the bit
/// width, leaves every register as it was.
pub proof fn law_sub_then_add(
    s: MachineState,
    prog: Seq<Instruction>,
    labels: Map<u64, usize>,
    r: u64,
    b: u64,
)
    requires
        state_wf(s),
        s.pc + 1 < prog.len(),
        prog[s.pc as int] == (Instruction::Sub { reg_a: r, param: b, mode: 0 }),
        prog[(s.pc + 1) as int] == (Instruction::Add { reg_a: r, param: b, mode: 0 }),
        b < pow2(s.bit_width as nat),
    ensures
        match step_spec(s, prog, labels) {
            Ok((s1, e1)) => e1 == Effect::Continue && match step_spec(s1, prog, labels) {
                Ok((s2, e2)) => e2 == Effect::Continue && s2.registers == s.registers && s2.pc
                    == s.pc + 2,
                Err(_) => false,
            },
            Err(_) => false,
        },
{
    let bw = s.bit_width as nat;
    let a = reg_value(s, r);
    vstd::arithmetic::power2::lemma_pow2_pos(bw);
    if s.registers.contains_key(r) {
        assert(s.registers[r] < pow2(bw));
    }
    lemma_add_sub_inverse(a, b as nat, bw);
    lemma_wrap_sub(a, b as nat, bw);
    let d = wrap_sub(a, b as nat, bw);
    vstd::arithmetic::div_mod::lemma_small_mod(d, pow2(bw));
    let s1 = store(advance(s), r, d);
    assert(reg_value(s1, r) == d);
    let s2 = store(advance(s1), r, reg_value(s1, r) + b as nat);
    if a == 0 {
        assert(s2.registers =~= s.registers);
    } else {
        vstd::arithmetic::div_mod::lemma_small_mod(a, pow2(bw));
        assert(s2.registers =~= s.registers);
    }
}

/// A register set to a value that is 0 modulo `2^bw` holds no storage, and
/// one set to any other value holds that value cut to the bit width; the
/// invariant of the register file is kept either way.
pub proof fn law_store(s: MachineState, r: u64, v: nat)
    requires
        state_wf(s),
    ensures
        state_wf(store(s, r, v)),
        v % pow2(s.bit_width as nat) == 0 ==> !store(s, r, v).registers.contains_key(r),
        v % pow2(s.bit_width as nat) != 0 ==> store(s, r, v).registers.contains_key(r),
        reg_value(store(s, r, v), r) == v % pow2(s.bit_width as nat),
        forall|q: u64| q != r ==> #[trigger] reg_value(store(s, r, v), q) == reg_value(s, q),
{
    vstd::arithmetic::power2::lemma_pow2_pos(s.bit_width as nat);
}


/// `s2` is `s` moved on by one instruction with register `r` now holding
/// `v` modulo `2^bw` and every other register as before.
pub open spec fn sets_register(s: MachineState, s2: MachineState, r: u64, v: nat) -> bool {
    &&& s2.pc == s.pc + 1
    &&& s2.bit_width == s.bit_width
    &&& s2.return_code == s.return_code
    &&& reg_value(s2, r) == v % pow2(s.bit_width as nat)
    &&& forall|q: u64| q != r ==> #[trigger] reg_value(s2, q) == reg_value(s, q)
}

/// `s2` is `s` with every register, the bit width and the exit code as
/// before.
pub open spec fn same_data(s: MachineState, s2: MachineState) -> bool {
    &&& s2.bit_width == s.bit_width
    &&& s2.return_code == s.return_code
    &&& s2.registers == s.registers
}

/// Storing into a register changes that register alone.
proof fn lemma_store_effect(s: MachineState, r: u64, v: nat)
    ensures
        sets_register(s, store(advance(s), r, v), r, v),
{
    vstd::arithmetic::power2::lemma_pow2_pos(s.bit_width as nat);
}

/// `SET r p` stores the immediate `p` (mode 0) or the value of register `p`
/// (any other mode) into register `r`, cut to the bit width, and changes
/// nothing else.
pub proof fn law_assign(
    s: MachineState,
    prog: Seq<Instruction>,
    labels: Map<u64, usize>,
    r: u64,
    p: u64,
    m: u8,
)
    requires
        s.pc < prog.len(),
        prog[s.pc as int] == (Instruction::Assign { reg: r, param: p, mode: m }),
    ensures
        match step_spec(s, prog, labels) {
            Ok((s2, e)) => e == Effect::Continue && sets_register(
                s,
                s2,
                r,
                if m == 0 {
                    p as nat
                } else {
                    reg_value(s, p)
                },
            ),
            Err(_) => false,
        },
{
    lemma_store_effect(s, r, if m == 0 { p as nat } else { reg_value(s, p) });
}

/// `ADD r p` adds the immediate `p` (mode 0) or the value of register `p`
/// (any other mode) to register `r`, wrapping around at `2^bw`, and changes
/// nothing else.
pub proof fn law_add(
    s: MachineState,
    prog: Seq<Instruction>,
    labels: Map<u64, usize>,
    r: u64,
    p: u64,
    m: u8,
)
    requires
        s.pc < prog.len(),
        prog[s.pc as int] == (Instruction::Add { reg_a: r, param: p, mode: m }),
    ensures
        match step_spec(s, prog, labels) {
            Ok((s2, e)) => e == Effect::Continue && sets_register(
                s,
                s2,
                r,
                reg_value(s, r) + if m == 0 {
                    p as nat
                } else {
                    reg_value(s, p)
                },
            ),
            Err(_) => false,
        },
{
    lemma_store_effect(s, r, reg_value(s, r) + if m == 0 { p as nat } else { reg_value(s, p) });
}

/// `SUB r p` subtracts the immediate `p` (mode 0) or the value of register
/// `p` (any other mode) from register `r`, wrapping around at `2^bw`, and
/// changes nothing else.
pub proof fn law_sub(
    s: MachineState,
    prog: Seq<Instruction>,
    labels: Map<u64, usize>,
    r: u64,
    p: u64,
    m: u8,
)
    requires
        s.pc < prog.len(),
        prog[s.pc as int] == (Instruction::Sub { reg_a: r, param: p, mode: m }),
    ensures
        match step_spec(s, prog, labels) {
            Ok((s2, e)) => e == Effect::Continue && sets_register(
                s,
                s2,
                r,
                ((reg_value(s, r) - (if m == 0 {
                    p as nat
                } else {
                    reg_value(s, p)
                })) % (pow2(s.bit_width as nat) as int)) as nat,
            ),
            Err(_) => false,
        },
{
    let bw = s.bit_width as nat;
    let b = if m == 0 {
        p as nat
    } else {
        reg_value(s, p)
    };
    let d = wrap_sub(reg_value(s, r), b, bw);
    vstd::arithmetic::power2::lemma_pow2_pos(bw);
    vstd::arithmetic::div_mod::lemma_mod_bound(reg_value(s, r) - b, pow2(bw) as int);
    lemma_store_effect(s, r, d);
    vstd::arithmetic::div_mod::lemma_small_mod(d, pow2(bw));
}

/// `ADD r q` then `SUB r q`, with a register operand `q` other than `r`,
/// leaves register `r` as it was.
pub proof fn law_add_then_sub_register(
    s: MachineState,
    prog: Seq<Instruction>,
    labels: Map<u64, usize>,
    r: u64,
    q: u64,
)
    requires
        state_wf(s),
        r != q,
        s.pc + 1 < prog.len(),
        prog[s.pc as int] == (Instruction::Add { reg_a: r, param: q, mode: 1 }),
        prog[(s.pc + 1) as int] == (Instruction::Sub { reg_a: r, param: q, mode: 1 }),
    ensures
        match step_spec(s, prog, labels) {
            Ok((s1, e1)) => match step_spec(s1, prog, labels) {
                Ok((s2, e2)) => reg_value(s2, r) == reg_value(s, r) && s2.pc == s.pc + 2,
                Err(_) => false,
            },
            Err(_) => false,
        },
{
    let bw = s.bit_width as nat;
    let a = reg_value(s, r);
    let b = reg_value(s, q);
    vstd::arithmetic::power2::lemma_pow2_pos(bw);
    if s.registers.contains_key(r) {
        assert(s.registers[r] < pow2(bw));
    }
    if s.registers.contains_key(q) {
        assert(s.registers[q] < pow2(bw));
    }
    law_add(s, prog, labels, r, q, 1);
    lemma_add_sub_inverse(a, b, bw);
    if let Ok((s1, e1)) = step_spec(s, prog, labels) {
        assert(reg_value(s1, q) == b);
        assert(reg_value(s1, r) == (a + b) % pow2(bw));
        law_sub(s1, prog, labels, r, q, 1);
        if let Ok((s2, e2)) = step_spec(s1, prog, labels) {
            assert(reg_value(s2, r) == wrap_sub((a + b) % pow2(bw), b, bw) % pow2(bw));
            vstd::arithmetic::div_mod::lemma_small_mod(a, pow2(bw));
        }
    }
}

/// A `JMP` that defines a label does nothing; one that uses a label (the
/// immediate, or the low 64 bits of register `param`) goes on after the
/// instruction that the label table names, or with the next instruction and
/// a warning when the label is unknown. Registers never change.
pub proof fn law_jmp(
    s: MachineState,
    prog: Seq<Instruction>,
    labels: Map<u64, usize>,
    p: u64,
    def: bool,
    use_register: bool,
)
    requires
        s.pc < prog.len(),
        prog[s.pc as int] == (Instruction::Jmp { param: p, def, use_register }),
    ensures
        match step_spec(s, prog, labels) {
            Ok((s2, e)) => {
                let l = if use_register {
                    (reg_value(s, p) % pow2(64)) as u64
                } else {
                    p
                };
                &&& same_data(s, s2)
                &&& def ==> s2.pc == s.pc + 1 && e == Effect::Continue
                &&& !def && labels.contains_key(l) ==> s2.pc == labels[l] + 1 && e == Effect::Continue
                &&& !def && !labels.contains_key(l) ==> s2.pc == s.pc + 1 && e == Effect::LabelNotFound(l)
            },
            Err(_) => false,
        },
{
}

/// `IFZ r p` goes on with the next instruction when register `r` is not
/// zero, and otherwise jumps like `JMP` to the label `p` (mode 0) or the
/// label in register `p`. Registers never change.
pub proof fn law_ifz(
    s: MachineState,
    prog: Seq<Instruction>,
    labels: Map<u64, usize>,
    r: u64,
    p: u64,
    m: u8,
)
    requires
        s.pc < prog.len(),
        prog[s.pc as int] == (Instruction::Ifz { reg: r, param: p, mode: m }),
    ensures
        match step_spec(s, prog, labels) {
            Ok((s2, e)) => {
                let l = if m == 0 {
                    p
                } else {
                    (reg_value(s, p) % pow2(64)) as u64
                };
                &&& same_data(s, s2)
                &&& reg_value(s, r) != 0 ==> s2.pc == s.pc + 1 && e == Effect::Continue
                &&& reg_value(s, r) == 0 && labels.contains_key(l) ==> s2.pc == labels[l] + 1 && e
                    == Effect::Continue
                &&& reg_value(s, r) == 0 && !labels.contains_key(l) ==> s2.pc == s.pc + 1 && e
                    == Effect::LabelNotFound(l)
            },
            Err(_) => false,
        },
{
}

/// `OUT p` prints the immediate `p` (`mode2` 0) or the value of register `p`
/// in the format that `mode1` picks, and is refused for a `mode1` above 3;
/// nothing else changes.
pub proof fn law_out(
    s: MachineState,
    prog: Seq<Instruction>,
    labels: Map<u64, usize>,
    p: u64,
    mode1: u8,
    mode2: u8,
)
    requires
        s.pc < prog.len(),
        prog[s.pc as int] == (Instruction::Out { param: p, mode1, mode2 }),
    ensures
        mode1 <= 3 ==> match step_spec(s, prog, labels) {
            Ok((s2, e)) => same_data(s, s2) && s2.pc == s.pc + 1 && render_value(
                if mode2 == 0 {
                    p as nat
                } else {
                    reg_value(s, p)
                },
                mode1,
                s.bit_width as nat,
            ) == Ok::<Seq<char>, Fault>(e->Print_0) && e is Print,
            Err(_) => false,
        },
        mode1 > 3 ==> step_spec(s, prog, labels) == Err::<(MachineState, Effect), Fault>(
            Fault::InvalidOutputMode(mode1),
        ),
{
}

/// `INP r m` asks for a line for register `r` in mode `m` and changes
/// nothing itself.
pub proof fn law_inp(s: MachineState, prog: Seq<Instruction>, labels: Map<u64, usize>, r: u64, m: u8)
    requires
        s.pc < prog.len(),
        prog[s.pc as int] == (Instruction::Inp { reg: r, mode: m }),
    ensures
        match step_spec(s, prog, labels) {
            Ok((s2, e)) => same_data(s, s2) && s2.pc == s.pc + 1 && e == (Effect::Read {
                reg: r,
                mode: m,
            }),
            Err(_) => false,
        },
{
}

/// `SYS p 0` stops with exit code `p` (as an `i32`) and reports it in binary
/// on `bw` digits; `SYS p m` with another mode sleeps `p` milliseconds (no
/// sleep for 0) and goes on. Registers never change.
pub proof fn law_sys(s: MachineState, prog: Seq<Instruction>, labels: Map<u64, usize>, p: u64, m: u8)
    requires
        s.pc < prog.len(),
        prog[s.pc as int] == (Instruction::Sys { param: p, mode: m }),
    ensures
        match step_spec(s, prog, labels) {
            Ok((s2, e)) => {
                &&& s2.registers == s.registers
                &&& s2.bit_width == s.bit_width
                &&& m == 0 ==> s2.return_code == p as i32 && s2.pc == s.pc && e == Effect::Exit(
                    format_binary_spec(p as nat, s.bit_width as nat),
                )
                &&& m != 0 ==> s2.return_code == s.return_code && s2.pc == s.pc + 1
                &&& m != 0 && p > 0 ==> e == Effect::Sleep(p)
                &&& m != 0 && p == 0 ==> e == Effect::Continue
            },
            Err(_) => false,
        },
{
}

/// Past the last instruction the program is over: exit code 0 is reported
/// as `bw` zeros (`0` for width 0) and nothing changes.
pub proof fn law_finished(s: MachineState, prog: Seq<Instruction>, labels: Map<u64, usize>)
    requires
        s.pc >= prog.len(),
    ensures
        step_spec(s, prog, labels) == Ok::<(MachineState, Effect), Fault>(
            (
                s,
                Effect::Finished(
                    if s.bit_width == 0 {
                        seq!['0']
                    } else {
                        zeros(s.bit_width as nat)
                    },
                ),
            ),
        ),
{
    let bw = s.bit_width as nat;
    vstd::arithmetic::power2::lemma_pow2_pos(bw);
    vstd::arithmetic::div_mod::lemma_small_mod(0, pow2(bw));
    assert(radix_string(0, 2) == seq!['0']);
    if bw >= 1 {
        if bw == 1 {
            assert(zeros(0) + seq!['0'] =~= zeros(1));
        } else {
            assert(zeros((bw - 1) as nat) + seq!['0'] =~= zeros(bw));
        }
    }
}

/// In ASCII mode, `OUT` prints the one character whose code is the value
/// cut to the bit width when that code is printable (32 to 126, the space
/// included), and otherwise `\x` and two upper-case hexadecimal digits of the
/// low byte.
pub proof fn law_ascii_output(v: nat, bw: nat)
    ensures
        ({
            let t = v % pow2(bw);
            32 <= t <= 126 ==> render_value(v, 3, bw) == Ok::<Seq<char>, Fault>(seq![t as char])
        }),
        ({
            let c = (v % pow2(bw)) % pow2(64);
            !(32 <= c <= 126) ==> (render_value(v, 3, bw) matches Ok(x) && x.len() == 4 && x[0]
                == '\\' && x[1] == 'x' && is_upper_hex(x[2]) && is_upper_hex(x[3]) && 16
                * char_digit(x[2]) + char_digit(x[3]) == c % 256)
        }),
{
    let t = v % pow2(bw);
    vstd::arithmetic::power2::lemma2_to64();
    if 32 <= t <= 126 {
        vstd::arithmetic::div_mod::lemma_small_mod(t, pow2(64));
    }
    let low = (t % pow2(64)) % 256;
    lemma_hex_upper_digit(low / 16);
    lemma_hex_upper_digit(low % 16);
}

/// A digit in upper-case hexadecimal.
pub open spec fn is_upper_hex(c: char) -> bool {
    ('0' <= c <= '9') || ('A' <= c <= 'F')
}

/// `hex_upper` writes a digit below 16 as an upper-case hexadecimal digit
/// that reads back as itself.
proof fn lemma_hex_upper_digit(d: nat)
    requires
        d < 16,
    ensures
        is_upper_hex(hex_upper(d)),
        char_digit(hex_upper(d)) == d,
{
}

/// The first character of `s` stays first after trimming when it is not a
/// blank.
proof fn lemma_trim_keeps_first(s: Seq<char>)
    requires
        s.len() > 0,
        !is_white_space(s[0]),
    ensures
        trim(s).len() > 0,
        trim(s)[0] == s[0],
    decreases s.len(),
{
    if s.len() > 1 && is_white_space(s.last()) {
        lemma_trim_keeps_first(s.drop_last());
    }
}

/// Trimming twice is trimming once.
proof fn lemma_trim_twice(s: Seq<char>)
    ensures
        trim(trim(s)) == trim(s),
{
    let t = trim(s);
    lemma_trim_start_props(s);
    lemma_trim_end_props(trim_start(s));
    if t.len() > 0 {
        lemma_trim_plain(t);
    }
}

/// `trim_start` leaves a text that is empty or starts with a non-blank.
proof fn lemma_trim_start_props(s: Seq<char>)
    ensures
        trim_start(s).len() == 0 || !is_white_space(trim_start(s)[0]),
    decreases s.len(),
{
    if s.len() > 0 && is_white_space(s[0]) {
        lemma_trim_start_props(s.drop_first());
    }
}

/// `trim_end` of a text that starts with a non-blank keeps that start, and
/// leaves a text that is empty or ends with a non-blank.
proof fn lemma_trim_end_props(s: Seq<char>)
    ensures
        trim_end(s).len() == 0 || !is_white_space(trim_end(s).last()),
        s.len() > 0 && !is_white_space(s[0]) ==> trim_end(s).len() > 0 && trim_end(s)[0] == s[0],
    decreases s.len(),
{
    if s.len() > 0 && is_white_space(s.last()) {
        lemma_trim_end_props(s.drop_last());
        if s.len() > 1 {
            assert(s.drop_last()[0] == s[0]);
        }
    }
}

/// Blanks around a line of input do not change what `INP` reads.
pub proof fn law_input_ignores_blanks(line: Seq<char>, mode: u8, bw: nat)
    ensures
        input_value(trim(line), mode, bw) == input_value(line, mode, bw),
{
    lemma_trim_twice(line);
}

/// In ASCII mode, `INP` reads the code of the first non-blank character of
/// the line, cut to the bit width, whatever follows it: a line that starts
/// with a non-blank character `c` reads as `c` alone.
pub proof fn law_ascii_input(c: char, rest: Seq<char>, bw: nat)
    requires
        !is_white_space(c),
    ensures
        input_value(seq![c] + rest, 3, bw) == input_value(seq![c], 3, bw),
        input_value(seq![c], 3, bw) == Ok::<nat, Fault>((c as u32) as nat % pow2(bw)),
{
    let s = seq![c] + rest;
    assert(s[0] == c);
    lemma_trim_keeps_first(s);
    lemma_trim_keeps_first(seq![c]);
}

} // verus!
