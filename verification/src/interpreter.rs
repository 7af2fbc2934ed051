//! The interpreter: directives, source cleaning, decoding of the bit string
//! into instructions, and the link to the machine.

use crate::error::{Fault, ZonaryError};
use crate::preprocessor::{
    binary_digits, is_reserved_char, lemma_binary_digits, parse_spec, PreprocessorDirective,
};
use crate::text::{
    all_bits, bin_value, chars_of, lemma_bin_value_bound, is_bit, is_decimal_digit, is_white_space, is_whitespace,
    slice_chars, string_from_chars,
};
use crate::vm::{
    fresh_state, step_spec, Action, Instruction, VM, DEFAULT_BIT_WIDTH,
};
use std::collections::HashMap;
use vstd::arithmetic::power2::pow2;
use vstd::prelude::*;

verus! {

/// Where a comment that is open `depth` times at position `i` ends: the
/// position after the `>` that closes it, or the end of the text.
pub open spec fn comment_end(s: Seq<char>, i: int, depth: nat) -> int
    decreases s.len() - i,
{
    if i < 0 || i >= s.len() || depth == 0 {
        i
    } else {
        comment_end(
            s,
            i + 1,
            if s[i] == '<' {
                depth + 1
            } else if s[i] == '>' {
                (depth - 1) as nat
            } else {
                depth
            },
        )
    }
}

/// `comment_end` does not go back and stays within the text.
pub proof fn lemma_comment_end(s: Seq<char>, i: int, depth: nat)
    requires
        0 <= i <= s.len(),
    ensures
        i <= comment_end(s, i, depth) <= s.len(),
    decreases s.len() - i,
{
    if i < s.len() && depth != 0 {
        let d = if s[i] == '<' {
            depth + 1
        } else if s[i] == '>' {
            (depth - 1) as nat
        } else {
            depth
        };
        lemma_comment_end(s, i + 1, d);
    }
}

/// The source from position `i` on with comments, blanks and characters
/// other than the digits removed, and the custom characters `zero` and `one`
/// turned into `0` and `1`.
pub open spec fn clean_from(s: Seq<char>, i: int, zero: char, one: char) -> Seq<char>
    decreases s.len() - i,
{
    if i < 0 || i >= s.len() {
        seq![]
    } else if s[i] == '<' {
        let k = comment_end(s, i + 1, 1);
        proof {
            lemma_comment_end(s, i + 1, 1);
        }
        clean_from(s, k, zero, one)
    } else if is_white_space(s[i]) {
        clean_from(s, i + 1, zero, one)
    } else if s[i] == zero {
        seq!['0'] + clean_from(s, i + 1, zero, one)
    } else if s[i] == one {
        seq!['1'] + clean_from(s, i + 1, zero, one)
    } else if is_bit(s[i]) {
        seq![s[i]] + clean_from(s, i + 1, zero, one)
    } else {
        clean_from(s, i + 1, zero, one)
    }
}

/// The cleaned source.
pub open spec fn clean_spec(s: Seq<char>, zero: char, one: char) -> Seq<char> {
    clean_from(s, 0, zero, one)
}

/// The cleaned source holds bits only.
pub proof fn lemma_clean_bits(s: Seq<char>, i: int, zero: char, one: char)
    ensures
        all_bits(clean_from(s, i, zero, one)),
    decreases s.len() - i,
{
    if 0 <= i < s.len() {
        if s[i] == '<' {
            lemma_comment_end(s, i + 1, 1);
            lemma_clean_bits(s, comment_end(s, i + 1, 1), zero, one);
        } else {
            lemma_clean_bits(s, i + 1, zero, one);
        }
    }
}

/// End of the run of digits and spaces that starts at `j`.
pub open spec fn directive_end(s: Seq<char>, j: int) -> int
    decreases s.len() - j,
{
    if j < 0 || j >= s.len() || !(is_decimal_digit(s[j]) || s[j] == ' ') {
        j
    } else {
        directive_end(s, j + 1)
    }
}

/// `directive_end` does not go back and stays within the text.
pub proof fn lemma_directive_end(s: Seq<char>, j: int)
    requires
        0 <= j <= s.len(),
    ensures
        j <= directive_end(s, j) <= s.len(),
    decreases s.len() - j,
{
    if j < s.len() && (is_decimal_digit(s[j]) || s[j] == ' ') {
        lemma_directive_end(s, j + 1);
    }
}

/// The source from position `i` on without its comments and its valid
/// directives, and those directives in order. A `/` followed by a digit
/// starts a directive that runs over the digits and spaces after it; when it
/// does not parse, the `/` stays in the text.
pub open spec fn extract_from(s: Seq<char>, i: int) -> (Seq<char>, Seq<PreprocessorDirective>)
    decreases s.len() - i,
{
    if i < 0 || i >= s.len() {
        (seq![], seq![])
    } else if s[i] == '/' && i + 1 < s.len() && is_decimal_digit(s[i + 1]) {
        let j = directive_end(s, i + 1);
        proof {
            lemma_directive_end(s, i + 1);
        }
        match parse_spec(s.subrange(i, j)) {
            Ok(d) => {
                let rest = extract_from(s, j);
                (rest.0, seq![d] + rest.1)
            },
            Err(_) => {
                let rest = extract_from(s, i + 1);
                (seq![s[i]] + rest.0, rest.1)
            },
        }
    } else if s[i] == '<' {
        let k = comment_end(s, i + 1, 1);
        proof {
            lemma_comment_end(s, i + 1, 1);
        }
        extract_from(s, k)
    } else {
        let rest = extract_from(s, i + 1);
        (seq![s[i]] + rest.0, rest.1)
    }
}

/// The source without comments and directives, and the directives.
pub open spec fn extract_spec(s: Seq<char>) -> (Seq<char>, Seq<PreprocessorDirective>) {
    extract_from(s, 0)
}

/// The position after the comment that opens at `s[i]`.
fn skip_comment(s: &Vec<char>, i: usize) -> (r: usize)
    requires
        i < s.len(),
    ensures
        r == comment_end(s@, i + 1, 1),
        i < r <= s.len(),
{
    let start = i + 1;
    let mut k = start;
    let mut depth: usize = 1;
    proof {
        lemma_comment_end(s@, start as int, 1);
    }
    while k < s.len() && depth > 0
        invariant
            1 <= start <= k <= s.len(),
            depth <= k - start + 1,
            comment_end(s@, k as int, depth as nat) == comment_end(s@, start as int, 1),
        decreases s.len() - k,
    {
        if s[k] == '<' {
            depth = depth + 1;
        } else if s[k] == '>' {
            depth = depth - 1;
        }
        k = k + 1;
    }
    proof {
        lemma_comment_end(s@, start as int, 1);
    }
    k
}

/// The first position in `k..end` that does not hold a bit, or `end`.
pub open spec fn first_non_bit(s: Seq<char>, k: int, end: int) -> int
    decreases end - k,
{
    if k >= end || !is_bit(s[k]) {
        k
    } else {
        first_non_bit(s, k + 1, end)
    }
}

/// `2x + b` modulo 2^64, from `x` modulo 2^64: the top bit drops out.
pub proof fn lemma_shift_in(x: nat, b: nat)
    requires
        b < 2,
    ensures
        (2 * x + b) % 0x1_0000_0000_0000_0000 == 2 * ((x % 0x1_0000_0000_0000_0000)
            % 0x8000_0000_0000_0000) + b,
{
    let h: int = 0x8000_0000_0000_0000;
    let m: int = 0x1_0000_0000_0000_0000;
    let q = x as int / h;
    let r = x as int % h;
    vstd::arithmetic::div_mod::lemma_fundamental_div_mod(x as int, h);
    assert(x as int == h * q + r);
    assert(0 <= r < h);
    assert(x as int == m * (q / 2) + (h * (q % 2) + r)) by {
        vstd::arithmetic::div_mod::lemma_fundamental_div_mod(q, 2);
        assert(h * q == h * (2 * (q / 2) + q % 2));
        vstd::arithmetic::mul::lemma_mul_is_distributive_add(h, 2 * (q / 2), q % 2);
        vstd::arithmetic::mul::lemma_mul_is_associative(h, 2, q / 2);
    }
    assert(0 <= q % 2 < 2);
    assert(0 <= h * (q % 2) + r < m) by {
        if q % 2 == 0 {
            assert(h * (q % 2) == 0);
        } else {
            assert(h * (q % 2) == h);
        }
    }
    vstd::arithmetic::div_mod::lemma_mod_multiples_vanish(q / 2, h * (q % 2) + r, m);
    vstd::arithmetic::div_mod::lemma_small_mod((h * (q % 2) + r) as nat, m as nat);
    assert((x as int) % m == h * (q % 2) + r);
    vstd::arithmetic::div_mod::lemma_mod_multiples_vanish(q % 2, r, h);
    vstd::arithmetic::div_mod::lemma_small_mod(r as nat, h as nat);
    assert(((x as int) % m) % h == r);
    assert(2 * x + b == m * q + (2 * r + b)) by {
        vstd::arithmetic::mul::lemma_mul_is_associative(2, h, q);
    }
    vstd::arithmetic::div_mod::lemma_mod_multiples_vanish(q, 2 * r + b, m);
    vstd::arithmetic::div_mod::lemma_small_mod((2 * r + b) as nat, m as nat);
}

/// Configuration that the directives set.
pub struct Setup {
    pub bit_width: u8,
    pub char_zero: char,
    pub char_one: char,
}

/// The configuration after one directive, or why the directive is refused.
pub open spec fn directive_effect(c: Setup, d: PreprocessorDirective) -> Result<Setup, Fault> {
    match d {
        PreprocessorDirective::ReplaceChars(zero, one) => Ok(
            Setup { bit_width: c.bit_width, char_zero: zero, char_one: one },
        ),
        PreprocessorDirective::SetBitWidth(width) => if width < 2 {
            Err(Fault::BitWidthTooSmall)
        } else {
            Ok(Setup { bit_width: width, char_zero: c.char_zero, char_one: c.char_one })
        },
        PreprocessorDirective::Reserved => Ok(c),
    }
}

/// The configuration after the directives in order, and the refusal that
/// stopped them, if any.
pub open spec fn apply_directives(c: Setup, ds: Seq<PreprocessorDirective>) -> (Setup, Option<Fault>)
    decreases ds.len(),
{
    if ds.len() == 0 {
        (c, None)
    } else {
        match directive_effect(c, ds[0]) {
            Err(e) => (c, Some(e)),
            Ok(c2) => apply_directives(c2, ds.drop_first()),
        }
    }
}

/// Holds the program that `run` decoded last.
pub struct Interpreter {
    bit_width: u8,
    char_zero: char,
    char_one: char,
    labels: HashMap<u64, usize>,
    instructions: Vec<Instruction>,
    leftover_bits: usize,
}

impl Interpreter {
    /// The configuration currently held.
    pub closed spec fn setup(&self) -> Setup {
        Setup { bit_width: self.bit_width, char_zero: self.char_zero, char_one: self.char_one }
    }

    /// An interpreter with the default configuration and no program.
    pub fn new() -> (r: Self)
        ensures
            r.setup() == (Setup { bit_width: DEFAULT_BIT_WIDTH, char_zero: '0', char_one: '1' }),
            r.program() == Seq::<Instruction>::empty(),
            r.label_table() == Map::<u64, usize>::empty(),
            r.leftover_count() == 0,
            r.wf(),
    {
        Interpreter {
            bit_width: DEFAULT_BIT_WIDTH,
            char_zero: '0',
            char_one: '1',
            labels: HashMap::new(),
            instructions: Vec::new(),
            leftover_bits: 0,
        }
    }

    /// The decoded instructions.
    pub closed spec fn program(&self) -> Seq<Instruction> {
        self.instructions@
    }

    /// The labels: label number to the index of the `JMP` that defines it.
    pub closed spec fn label_table(&self) -> Map<u64, usize> {
        self.labels@
    }

    /// Bits left over after the last whole instruction.
    pub closed spec fn leftover_count(&self) -> nat {
        self.leftover_bits as nat
    }

    /// Takes the directives out of the source, and drops its comments.
    fn extract_directives(&self, source: &Vec<char>) -> (r: (Vec<char>, Vec<PreprocessorDirective>))
        ensures
            (r.0@, r.1@) == extract_spec(source@),
    {
        let mut text: Vec<char> = Vec::new();
        let mut directives: Vec<PreprocessorDirective> = Vec::new();
        let n = source.len();
        let mut i: usize = 0;
        while i < n
            invariant
                n == source.len(),
                i <= n,
                text@ + extract_from(source@, i as int).0 == extract_spec(source@).0,
                directives@ + extract_from(source@, i as int).1 == extract_spec(source@).1,
            decreases n - i,
        {
            let ch = source[i];
            let ghost rest = extract_from(source@, i as int);
            if ch == '/' && i + 1 < n && is_digit(source[i + 1]) {
                let mut j = i + 1;
                proof {
                    lemma_directive_end(source@, i + 1);
                }
                while j < n && (is_digit(source[j]) || source[j] == ' ' || source[j] == '0'
                    || source[j] == '1')
                    invariant
                        n == source.len(),
                        i < j <= n,
                        directive_end(source@, j as int) == directive_end(source@, i + 1),
                    decreases n - j,
                {
                    j = j + 1;
                }
                let piece = string_from_chars(&slice_chars(source, i, j));
                match PreprocessorDirective::parse(piece.as_str()) {
                    Ok(d) => {
                        let ghost before = directives@;
                        directives.push(d);
                        assert(directives@ + extract_from(source@, j as int).1 =~= before + rest.1);
                        i = j;
                        continue ;
                    },
                    Err(_) => {},
                }
                let ghost before = text@;
                text.push(ch);
                assert(text@ + extract_from(source@, i + 1).0 =~= before + rest.0);
                i = i + 1;
                continue ;
            }
            if ch == '<' {
                i = skip_comment(source, i);
                continue ;
            }
            let ghost before = text@;
            text.push(ch);
            assert(text@ + extract_from(source@, i + 1).0 =~= before + rest.0);
            i = i + 1;
        }
        (text, directives)
    }

    /// Applies one directive to the configuration.
    fn execute_directive(&mut self, directive: &PreprocessorDirective) -> (r: Result<(), ZonaryError>)
        ensures
            match directive_effect(old(self).setup(), *directive) {
                Ok(c) => r is Ok && final(self).setup() == c,
                Err(e) => r matches Err(x) && x@ == e && final(self).setup() == old(self).setup(),
            },
            final(self).program() == old(self).program(),
            final(self).label_table() == old(self).label_table(),
            final(self).leftover_count() == old(self).leftover_count(),
    {
        match directive {
            PreprocessorDirective::ReplaceChars(zero, one) => {
                self.char_zero = *zero;
                self.char_one = *one;
                Ok(())
            },
            PreprocessorDirective::SetBitWidth(width) => {
                if *width < 2 {
                    return Err(ZonaryError::BitWidthTooSmall);
                }
                self.bit_width = *width;
                Ok(())
            },
            PreprocessorDirective::Reserved => Ok(()),
        }
    }

    /// Drops comments and blanks, turns the custom characters into `0` and
    /// `1`, and drops every other character.
    fn clean_source(&self, source: &Vec<char>) -> (r: Vec<char>)
        ensures
            r@ == clean_spec(source@, self.char_zero, self.char_one),
    {
        let mut r: Vec<char> = Vec::new();
        let n = source.len();
        let mut i: usize = 0;
        while i < n
            invariant
                n == source.len(),
                i <= n,
                r@ + clean_from(source@, i as int, self.char_zero, self.char_one) == clean_spec(
                    source@,
                    self.char_zero,
                    self.char_one,
                ),
            decreases n - i,
        {
            let ch = source[i];
            let ghost rest = clean_from(source@, i as int, self.char_zero, self.char_one);
            if ch == '<' {
                i = skip_comment(source, i);
                continue ;
            }
            if is_whitespace(ch) {
                i = i + 1;
                continue ;
            }
            let ghost before = r@;
            if ch == self.char_zero {
                r.push('0');
            } else if ch == self.char_one {
                r.push('1');
            } else if ch == '0' || ch == '1' {
                r.push(ch);
            }
            assert(r@ + clean_from(source@, i + 1, self.char_zero, self.char_one) =~= before
                + rest);
            i = i + 1;
        }
        assert(r@ + clean_from(source@, i as int, self.char_zero, self.char_one) =~= r@);
        r
    }

    /// Reads `count` bits at `*pos` as a binary number (modulo 2^64) and
    /// moves `*pos` past them.
    fn read_bits(&self, chars: &Vec<char>, pos: &mut usize, count: usize) -> (r: Result<
        u64,
        ZonaryError,
    >)
        requires
            *old(pos) + count <= usize::MAX,
        ensures
            ({
                let p = *old(pos) as int;
                let end = p + count;
                let k = first_non_bit(chars@, p, end);
                if end > chars@.len() {
                    r matches Err(e) && e@ == Fault::NotEnoughBits(p as usize) && *final(pos) == p
                } else if k < end {
                    r matches Err(e) && e@ == Fault::InvalidBinaryChar(chars@[k], k as usize)
                        && *final(pos) == k
                } else {
                    r == Ok::<u64, ZonaryError>(
                        (bin_value(chars@.subrange(p, end)) % 0x1_0000_0000_0000_0000) as u64,
                    ) && *final(pos) == end
                }
            }),
    {
        if count > chars.len() || *pos > chars.len() - count {
            return Err(ZonaryError::NotEnoughBits(*pos));
        }
        let start = *pos;
        let end = start + count;
        let mut k = start;
        let mut value: u64 = 0;
        while k < end
            invariant
                start == *old(pos),
                end == start + count,
                start <= k <= end <= chars@.len(),
                value == bin_value(chars@.subrange(start as int, k as int)) % 0x1_0000_0000_0000_0000,
                first_non_bit(chars@, start as int, end as int) == first_non_bit(
                    chars@,
                    k as int,
                    end as int,
                ),
            decreases end - k,
        {
            let ch = chars[k];
            let ghost prefix = chars@.subrange(start as int, k as int);
            assert(chars@.subrange(start as int, k + 1).drop_last() =~= prefix);
            if ch == '1' {
                proof {
                    lemma_shift_in(bin_value(prefix), 1);
                }
                value = (value % 0x8000_0000_0000_0000) * 2 + 1;
            } else if ch == '0' {
                proof {
                    lemma_shift_in(bin_value(prefix), 0);
                }
                value = (value % 0x8000_0000_0000_0000) * 2;
            } else {
                assert(!is_bit(chars@[k as int]));
                assert(first_non_bit(chars@, k as int, end as int) == k as int);
                *pos = k;
                return Err(ZonaryError::InvalidBinaryChar(ch, k));
            }
            k = k + 1;
        }
        *pos = k;
        Ok(value)
    }
}

/// `'0'` to `'9'`.
fn is_digit(c: char) -> (r: bool)
    ensures
        r == is_decimal_digit(c),
{
    '0' <= c && c <= '9'
}

/// The field of `n` bits at position `i`, read as a binary number modulo
/// 2^64.
pub open spec fn field(s: Seq<char>, i: int, n: int) -> u64 {
    (bin_value(s.subrange(i, i + n)) % 0x1_0000_0000_0000_0000) as u64
}

/// Number of bits after the opcode `op` of an instruction.
pub open spec fn operand_bits(op: u64, bw: nat) -> nat {
    if op == 3 {
        bw + 2
    } else if op == 5 {
        bw + 3
    } else if op == 6 {
        bw + 2
    } else if op == 7 {
        bw + 1
    } else {
        2 * bw + 1
    }
}

/// The instruction with opcode `op` whose operands start at position `j`.
pub open spec fn decode_instr(s: Seq<char>, j: int, op: u64, bw: nat) -> Instruction {
    let a = field(s, j, bw as int);
    let b = field(s, j + bw, bw as int);
    let m = field(s, j + 2 * bw, 1) as u8;
    if op == 0 {
        Instruction::Assign { reg: a, param: b, mode: m }
    } else if op == 1 {
        Instruction::Add { reg_a: a, param: b, mode: m }
    } else if op == 2 {
        Instruction::Sub { reg_a: a, param: b, mode: m }
    } else if op == 3 {
        Instruction::Jmp {
            param: a,
            def: field(s, j + bw, 1) == 1,
            use_register: field(s, j + bw + 1, 1) == 1,
        }
    } else if op == 4 {
        Instruction::Ifz { reg: a, param: b, mode: m }
    } else if op == 5 {
        Instruction::Out {
            param: a,
            mode1: field(s, j + bw, 2) as u8,
            mode2: field(s, j + bw + 2, 1) as u8,
        }
    } else if op == 6 {
        Instruction::Inp { reg: a, mode: field(s, j + bw, 2) as u8 }
    } else {
        Instruction::Sys { param: a, mode: field(s, j + bw, 1) as u8 }
    }
}

/// A decoded program: the instructions, the label table and the number of
/// bits after the last whole instruction.
pub struct Decoded {
    pub instructions: Seq<Instruction>,
    pub labels: Map<u64, usize>,
    pub leftover: nat,
}

/// Decoding of the bit string from position `i` on, after `acc` was decoded
/// from what comes before. Instructions have a fixed length for a given
/// opcode and bit width; fewer than 3 bits at the end are left over.
pub open spec fn decode_from(s: Seq<char>, bw: nat, i: int, acc: Decoded) -> Result<Decoded, Fault>
    decreases s.len() - i,
{
    if i < 0 || i >= s.len() {
        Ok(acc)
    } else if i + 3 > s.len() {
        Ok(Decoded { leftover: (s.len() - i) as nat, ..acc })
    } else {
        let op = field(s, i, 3);
        let j = i + 3;
        if j + operand_bits(op, bw) > s.len() {
            Err(Fault::IncompleteInstruction { opcode: op as u8, position: j as usize })
        } else {
            let ins = decode_instr(s, j, op, bw);
            match ins {
                Instruction::Jmp { param, def: true, .. } => if acc.labels.contains_key(param) {
                    Err(Fault::LabelAlreadyDefined(param))
                } else {
                    decode_from(
                        s,
                        bw,
                        j + operand_bits(op, bw),
                        Decoded {
                            instructions: acc.instructions.push(ins),
                            labels: acc.labels.insert(param, acc.instructions.len() as usize),
                            leftover: 0,
                        },
                    )
                },
                _ => decode_from(
                    s,
                    bw,
                    j + operand_bits(op, bw),
                    Decoded { instructions: acc.instructions.push(ins), labels: acc.labels, leftover: 0 },
                ),
            }
        }
    }
}

/// Decoding of a whole bit string.
pub open spec fn decode_spec(s: Seq<char>, bw: nat) -> Result<Decoded, Fault> {
    decode_from(
        s,
        bw,
        0,
        Decoded { instructions: seq![], labels: Map::empty(), leftover: 0 },
    )
}

/// The label table names exactly the defining `JMP`s: each label maps to
/// the index of the one `JMP` that defines it.
pub open spec fn labels_match(ins: Seq<Instruction>, labels: Map<u64, usize>) -> bool {
    &&& forall|l: u64|
        #![trigger labels[l]]
        labels.contains_key(l) ==> labels[l] < ins.len() && (ins[labels[l] as int] matches Instruction::Jmp {
            param,
            def: true,
            ..
        } && param == l)
    &&& forall|k: int|
        #![trigger ins[k]]
        0 <= k < ins.len() ==> (ins[k] matches Instruction::Jmp { param, def: true, .. }
            ==> labels.contains_key(param) && labels[param] == k)
}

/// Every `SUB` immediate is below `2^bw`.
pub open spec fn immediates_fit(ins: Seq<Instruction>, bw: nat) -> bool {
    forall|k: int|
        #![trigger ins[k]]
        0 <= k < ins.len() ==> (ins[k] matches Instruction::Sub { param, mode, .. } ==> (mode == 0
            ==> param < pow2(bw)))
}

/// A field of `n` bits is below `2^n`.
pub proof fn lemma_field_bound(s: Seq<char>, i: int, n: int)
    requires
        0 <= i,
        0 <= n,
        i + n <= s.len(),
    ensures
        field(s, i, n) < pow2(n as nat),
{
    lemma_bin_value_bound(s.subrange(i, i + n));
}

/// A stretch of bits has no non-bit.
pub proof fn lemma_first_non_bit_all(s: Seq<char>, k: int, end: int)
    requires
        all_bits(s),
        0 <= k <= end <= s.len(),
    ensures
        first_non_bit(s, k, end) == end,
    decreases end - k,
{
    if k < end {
        assert(is_bit(s[k]));
        lemma_first_non_bit_all(s, k + 1, end);
    }
}

impl Interpreter {
    /// Reads `count` bits that are known to be there.
    fn read_field(&self, bits: &Vec<char>, pos: usize, count: usize) -> (r: u64)
        requires
            all_bits(bits@),
            pos + count <= bits.len(),
        ensures
            r == field(bits@, pos as int, count as int),
    {
        let mut p = pos;
        proof {
            lemma_first_non_bit_all(bits@, pos as int, pos + count);
        }
        match self.read_bits(bits, &mut p, count) {
            Ok(v) => v,
            Err(_) => 0,
        }
    }

    /// The operands of the instruction with opcode `op` that start at `j`,
    /// and the position after them.
    fn decode_operands(&self, bits: &Vec<char>, op: u64, j: usize) -> (r: Result<
        (Instruction, usize),
        ZonaryError,
    >)
        requires
            all_bits(bits@),
            op < 8,
            j <= bits.len(),
        ensures
            ({
                let bw = self.bit_width as nat;
                if j + operand_bits(op, bw) > bits.len() {
                    r matches Err(e) && e@ == Fault::IncompleteInstruction {
                        opcode: op as u8,
                        position: j,
                    }
                } else {
                    r == Ok::<(Instruction, usize), ZonaryError>(
                        (decode_instr(bits@, j as int, op, bw), (j + operand_bits(op, bw)) as usize),
                    )
                }
            }),
    {
        let bw = self.bit_width as usize;
        let n = bits.len();
        let need: usize = if op == 3 {
            bw + 2
        } else if op == 5 {
            bw + 3
        } else if op == 6 {
            bw + 2
        } else if op == 7 {
            bw + 1
        } else {
            2 * bw + 1
        };
        if need > n - j {
            return Err(ZonaryError::IncompleteInstruction { opcode: op as u8, position: j });
        }
        let a = self.read_field(bits, j, bw);
        let ins = if op == 3 {
            let def = self.read_field(bits, j + bw, 1);
            let use_register = self.read_field(bits, j + bw + 1, 1);
            Instruction::Jmp { param: a, def: def == 1, use_register: use_register == 1 }
        } else if op == 5 {
            let mode1 = self.read_field(bits, j + bw, 2);
            let mode2 = self.read_field(bits, j + bw + 2, 1);
            Instruction::Out { param: a, mode1: mode1 as u8, mode2: mode2 as u8 }
        } else if op == 6 {
            let mode = self.read_field(bits, j + bw, 2);
            Instruction::Inp { reg: a, mode: mode as u8 }
        } else if op == 7 {
            let mode = self.read_field(bits, j + bw, 1);
            Instruction::Sys { param: a, mode: mode as u8 }
        } else {
            let param = self.read_field(bits, j + bw, bw);
            let mode = self.read_field(bits, j + 2 * bw, 1) as u8;
            if op == 0 {
                Instruction::Assign { reg: a, param, mode }
            } else if op == 1 {
                Instruction::Add { reg_a: a, param, mode }
            } else if op == 2 {
                Instruction::Sub { reg_a: a, param, mode }
            } else {
                Instruction::Ifz { reg: a, param, mode }
            }
        };
        Ok((ins, j + need))
    }
}

impl Interpreter {
    /// Decodes the cleaned bit string into instructions and the label table;
    /// also returns the number of bits left over at the end.
    fn parse_binary(&self, binary: &Vec<char>) -> (r: Result<
        (Vec<Instruction>, HashMap<u64, usize>, usize),
        ZonaryError,
    >)
        requires
            all_bits(binary@),
        ensures
            match decode_spec(binary@, self.bit_width as nat) {
                Ok(d) => r matches Ok(p) && p.0@ == d.instructions && p.1@ == d.labels && p.2
                    == d.leftover && labels_match(p.0@, p.1@) && immediates_fit(
                    p.0@,
                    self.bit_width as nat,
                ),
                Err(e) => r matches Err(x) && x@ == e,
            },
    {
        broadcast use vstd::std_specs::hash::group_hash_axioms;

        let ghost bw = self.bit_width as nat;
        let mut instructions: Vec<Instruction> = Vec::new();
        let mut labels: HashMap<u64, usize> = HashMap::new();
        let n = binary.len();
        let mut i: usize = 0;
        assert(labels@ =~= Map::<u64, usize>::empty());
        while i < n && n - i >= 3
            invariant
                all_bits(binary@),
                n == binary.len(),
                i <= n,
                bw == self.bit_width as nat,
                decode_from(
                    binary@,
                    bw,
                    i as int,
                    Decoded { instructions: instructions@, labels: labels@, leftover: 0 },
                ) == decode_spec(binary@, bw),
                labels_match(instructions@, labels@),
                immediates_fit(instructions@, bw),
            decreases n - i,
        {
            let op = self.read_field(binary, i, 3);
            proof {
                lemma_field_bound(binary@, i as int, 3);
                vstd::arithmetic::power2::lemma2_to64();
            }
            let (ins, next) = self.decode_operands(binary, op, i + 3)?;
            let ghost old_ins = instructions@;
            let ghost old_labels = labels@;
            match ins {
                Instruction::Jmp { param, def: true, .. } => {
                    if labels.contains_key(&param) {
                        return Err(ZonaryError::LabelAlreadyDefined(param));
                    }
                    labels.insert(param, instructions.len());
                },
                _ => {},
            }
            instructions.push(ins);
            proof {
                if let Instruction::Sub { param, mode, .. } = ins {
                    if mode == 0 {
                        lemma_field_bound(binary@, i + 3 + bw, bw as int);
                    }
                }
                assert forall|k: int| 0 <= k < instructions@.len() implies (
                #[trigger] instructions@[k] matches Instruction::Sub { param, mode, .. } ==> (mode
                    == 0 ==> param < pow2(bw))) by {
                    if k < old_ins.len() {
                        assert(instructions@[k] == old_ins[k]);
                    }
                }
                assert forall|k: int| 0 <= k < instructions@.len() implies (
                #[trigger] instructions@[k] matches Instruction::Jmp { param, def: true, .. }
                    ==> labels@.contains_key(param) && labels@[param] == k) by {
                    if k < old_ins.len() {
                        assert(instructions@[k] == old_ins[k]);
                    }
                }
                assert forall|l: u64| #[trigger]
                    labels@.contains_key(l) implies labels@[l] < instructions@.len() && (
                instructions@[labels@[l] as int] matches Instruction::Jmp {
                    param,
                    def: true,
                    ..
                } && param == l) by {
                    if old_labels.contains_key(l) && labels@[l] == old_labels[l] {
                        assert(instructions@[old_labels[l] as int] == old_ins[old_labels[l] as int]);
                    }
                }
            }
            i = next;
        }
        Ok((instructions, labels, n - i))
    }
}

/// The configuration before any directive.
pub open spec fn default_setup() -> Setup {
    Setup { bit_width: DEFAULT_BIT_WIDTH, char_zero: '0', char_one: '1' }
}

/// What running `source` sets up and decodes: the configuration that the
/// directives leave, and the decoded program or the refusal that stopped it.
pub open spec fn compile(source: Seq<char>) -> (Setup, Result<Decoded, Fault>) {
    let (text, ds) = extract_spec(source);
    let (c, fault) = apply_directives(default_setup(), ds);
    match fault {
        Some(e) => (c, Err(e)),
        None => (c, decode_spec(clean_spec(text, c.char_zero, c.char_one), c.bit_width as nat)),
    }
}

impl Interpreter {
    /// The invariant of a held program: its label table names exactly its
    /// defining `JMP`s, and its `SUB` immediates fit in its bit width.
    pub closed spec fn wf(&self) -> bool {
        &&& labels_match(self.instructions@, self.labels@)
        &&& immediates_fit(self.instructions@, self.bit_width as nat)
    }

    /// Forgets the last program, applies the directives of `source`, cleans
    /// it and decodes it; on success, returns a fresh machine of the
    /// program's bit width to run it on with `step`.
    pub fn run(&mut self, source: &str) -> (r: Result<VM, ZonaryError>)
        ensures
            final(self).wf(),
            labels_match(final(self).program(), final(self).label_table()),
            immediates_fit(final(self).program(), final(self).setup().bit_width as nat),
            final(self).setup() == compile(source@).0,
            match compile(source@).1 {
                Ok(d) => r matches Ok(vm) && vm@ == fresh_state(final(self).setup().bit_width)
                    && vm.wf() && final(self).program() == d.instructions && final(self).label_table()
                    == d.labels && final(self).leftover_count() == d.leftover,
                Err(e) => r matches Err(x) && x@ == e && final(self).program() == Seq::<
                    Instruction,
                >::empty() && final(self).label_table() == Map::<u64, usize>::empty()
                    && final(self).leftover_count() == 0,
            },
    {
        self.bit_width = DEFAULT_BIT_WIDTH;
        self.char_zero = '0';
        self.char_one = '1';
        self.labels = HashMap::new();
        self.instructions = Vec::new();
        self.leftover_bits = 0;
        assert(self.instructions@ =~= Seq::<Instruction>::empty());
        assert(self.labels@ =~= Map::<u64, usize>::empty());

        let chars = chars_of(source);
        let (text, directives) = self.extract_directives(&chars);
        let ghost ds = directives@;
        let mut k: usize = 0;
        assert(ds.skip(0) =~= ds);
        while k < directives.len()
            invariant
                k <= directives.len(),
                ds == directives@,
                (text@, ds) == extract_spec(source@),
                apply_directives(default_setup(), ds) == apply_directives(
                    self.setup(),
                    ds.skip(k as int),
                ),
                self.instructions@ == Seq::<Instruction>::empty(),
                self.labels@ == Map::<u64, usize>::empty(),
                self.leftover_bits == 0,
            decreases directives.len() - k,
        {
            assert(ds.skip(k as int).drop_first() =~= ds.skip(k + 1));
            assert(ds.skip(k as int)[0] == ds[k as int]);
            self.execute_directive(&directives[k])?;
            k = k + 1;
        }
        assert(ds.skip(k as int) =~= Seq::<PreprocessorDirective>::empty());
        let cleaned = self.clean_source(&text);
        proof {
            lemma_clean_bits(text@, 0, self.char_zero, self.char_one);
        }
        let (instructions, labels, leftover) = self.parse_binary(&cleaned)?;
        self.instructions = instructions;
        self.labels = labels;
        self.leftover_bits = leftover;
        Ok(VM::new(self.bit_width))
    }

    /// The bit width of the held program.
    pub fn bit_width(&self) -> (r: u8)
        ensures
            r == self.setup().bit_width,
    {
        self.bit_width
    }

    /// Bits left over after the last whole instruction of the held program.
    pub fn leftover_bits(&self) -> (r: usize)
        ensures
            r == self.leftover_count(),
    {
        self.leftover_bits
    }

    /// The decoded instructions.
    pub fn instructions(&self) -> (r: &[Instruction])
        ensures
            r@ == self.program(),
    {
        self.instructions.as_slice()
    }

    /// The label table: label number to the index of the `JMP` that
    /// defines it.
    pub fn labels(&self) -> (r: &HashMap<u64, usize>)
        ensures
            r@ == self.label_table(),
    {
        &self.labels
    }

    /// Runs one step of the held program on `vm`.
    pub fn step(&self, vm: &mut VM) -> (r: Result<Action, ZonaryError>)
        requires
            self.wf(),
            old(vm).wf(),
            old(vm)@.bit_width == self.setup().bit_width,
        ensures
            final(vm).wf(),
            final(vm)@.bit_width == old(vm)@.bit_width,
            match step_spec(old(vm)@, self.program(), self.label_table()) {
                Ok((s, e)) => r matches Ok(a) && a@ == e && final(vm)@ == s,
                Err(f) => r matches Err(x) && x@ == f && final(vm)@ == old(vm)@,
            },
    {
        let program = self.instructions.as_slice();
        let count = self.instructions.len();
        proof {
            if vm@.pc < self.instructions@.len() {
                assert(self.instructions@[vm@.pc as int] == self.instructions@[vm@.pc as int]);
            }
            assert forall|l: u64| #[trigger] self.labels@.contains_key(l) implies self.labels@[l]
                < usize::MAX by {
                assert(self.labels@[l] < self.instructions@.len());
            }
        }
        vm.execute(program, &self.labels)
    }
}

/// Number of bits that an instruction takes in the code for bit width `bw`:
/// a 3-bit opcode and operands of a fixed length for each opcode.
pub open spec fn instruction_bits(ins: Instruction, bw: nat) -> nat {
    match ins {
        Instruction::Assign { .. } => 2 * bw + 4,
        Instruction::Add { .. } => 2 * bw + 4,
        Instruction::Sub { .. } => 2 * bw + 4,
        Instruction::Jmp { .. } => bw + 5,
        Instruction::Ifz { .. } => 2 * bw + 4,
        Instruction::Out { .. } => bw + 6,
        Instruction::Inp { .. } => bw + 5,
        Instruction::Sys { .. } => bw + 4,
    }
}

/// Number of bits that the instructions take.
pub open spec fn total_bits(ins: Seq<Instruction>, bw: nat) -> nat
    decreases ins.len(),
{
    if ins.len() == 0 {
        0
    } else {
        total_bits(ins.drop_last(), bw) + instruction_bits(ins.last(), bw)
    }
}

/// Decoding from position `i` accounts for every remaining bit.
proof fn lemma_decode_from_length(s: Seq<char>, bw: nat, i: int, acc: Decoded)
    requires
        0 <= i <= s.len(),
        acc.leftover == 0,
    ensures
        decode_from(s, bw, i, acc) matches Ok(d) ==> (s.len() - i) + total_bits(
            acc.instructions,
            bw,
        ) == total_bits(d.instructions, bw) + d.leftover && d.leftover < 3,
    decreases s.len() - i,
{
    if i < s.len() && i + 3 <= s.len() {
        let op = field(s, i, 3);
        lemma_field_bound(s, i, 3);
        vstd::arithmetic::power2::lemma2_to64();
        let j = i + 3;
        if j + operand_bits(op, bw) <= s.len() {
            let ins = decode_instr(s, j, op, bw);
            assert(instruction_bits(ins, bw) == 3 + operand_bits(op, bw));
            let next = j + operand_bits(op, bw);
            let pushed = acc.instructions.push(ins);
            assert(pushed.drop_last() =~= acc.instructions);
            match ins {
                Instruction::Jmp { param, def: true, .. } => {
                    if !acc.labels.contains_key(param) {
                        lemma_decode_from_length(
                            s,
                            bw,
                            next,
                            Decoded {
                                instructions: pushed,
                                labels: acc.labels.insert(param, acc.instructions.len() as usize),
                                leftover: 0,
                            },
                        );
                    }
                },
                _ => {
                    lemma_decode_from_length(
                        s,
                        bw,
                        next,
                        Decoded { instructions: pushed, labels: acc.labels, leftover: 0 },
                    );
                },
            }
        }
    }
}

/// Instructions have a fixed length: a decoded code is exactly its
/// instructions, each of the length that its opcode and the bit width fix,
/// followed by fewer than 3 left-over bits.
pub proof fn law_fixed_length(s: Seq<char>, bw: nat)
    ensures
        decode_spec(s, bw) matches Ok(d) ==> s.len() == total_bits(d.instructions, bw)
            + d.leftover && d.leftover < 3,
{
    lemma_decode_from_length(
        s,
        bw,
        0,
        Decoded { instructions: seq![], labels: Map::empty(), leftover: 0 },
    );
}

/// The directives never leave a bit width below 2.
proof fn lemma_apply_directives_width(c: Setup, ds: Seq<PreprocessorDirective>)
    requires
        c.bit_width >= 2,
    ensures
        apply_directives(c, ds).0.bit_width >= 2,
    decreases ds.len(),
{
    if ds.len() > 0 {
        if let Ok(c2) = directive_effect(c, ds[0]) {
            lemma_apply_directives_width(c2, ds.drop_first());
        }
    }
}

/// Whatever the source, the program's bit width is at least 2.
pub proof fn law_bit_width_at_least_two(source: Seq<char>)
    ensures
        compile(source).0.bit_width >= 2,
{
    let (text, ds) = extract_spec(source);
    lemma_apply_directives_width(default_setup(), ds);
}


/// `s` with `0` written as `zero` and `1` written as `one`.
pub open spec fn respell(s: Seq<char>, zero: char, one: char) -> Seq<char> {
    s.map_values(
        |c: char|
            if c == '0' {
                zero
            } else if c == '1' {
                one
            } else {
                c
            },
    )
}

/// Writing the digits with other characters moves no comment boundary.
proof fn lemma_comment_end_respell(s: Seq<char>, zero: char, one: char, i: int, depth: nat)
    requires
        0 <= i <= s.len(),
        !is_reserved_char(zero),
        !is_reserved_char(one),
    ensures
        comment_end(respell(s, zero, one), i, depth) == comment_end(s, i, depth),
    decreases s.len() - i,
{
    if i < s.len() && depth != 0 {
        let t = respell(s, zero, one);
        assert(t[i] == '<' <==> s[i] == '<');
        assert(t[i] == '>' <==> s[i] == '>');
        let d = if s[i] == '<' {
            depth + 1
        } else if s[i] == '>' {
            (depth - 1) as nat
        } else {
            depth
        };
        lemma_comment_end_respell(s, zero, one, i + 1, d);
    }
}

/// Cleaning from position `i` on sees the same code in both spellings.
proof fn lemma_clean_respell(s: Seq<char>, zero: char, one: char, i: int)
    requires
        0 <= i <= s.len(),
        !is_white_space(zero),
        !is_white_space(one),
        !is_reserved_char(zero),
        !is_reserved_char(one),
        zero != one,
        forall|k: int| 0 <= k < s.len() ==> #[trigger] s[k] != zero && s[k] != one,
    ensures
        clean_from(respell(s, zero, one), i, zero, one) == clean_from(s, i, '0', '1'),
    decreases s.len() - i,
{
    if i < s.len() {
        let t = respell(s, zero, one);
        let c = s[i];
        assert(s[i] != zero && s[i] != one);
        if c == '<' {
            assert(t[i] == '<');
            lemma_comment_end_respell(s, zero, one, i + 1, 1);
            lemma_comment_end(s, i + 1, 1);
            lemma_clean_respell(s, zero, one, comment_end(s, i + 1, 1));
        } else {
            lemma_clean_respell(s, zero, one, i + 1);
        }
    }
}

/// Code spelled with the custom characters of `/00` cleans to the same bits
/// as the code spelled with `0` and `1`, when those characters are no
/// blanks and the text does not use them otherwise.
pub proof fn law_custom_characters(s: Seq<char>, zero: char, one: char)
    requires
        !is_white_space(zero),
        !is_white_space(one),
        !is_reserved_char(zero),
        !is_reserved_char(one),
        zero != one,
        forall|k: int| 0 <= k < s.len() ==> #[trigger] s[k] != zero && s[k] != one,
    ensures
        clean_spec(respell(s, zero, one), zero, one) == clean_spec(s, '0', '1'),
{
    lemma_clean_respell(s, zero, one, 0);
}


/// 1 for `true`, 0 for `false`.
pub open spec fn bool_bit(b: bool) -> nat {
    if b {
        1
    } else {
        0
    }
}

/// The bits of an instruction: its 3-bit opcode, then its fields in order,
/// registers and parameters on `bw` bits, `OUT`'s `mode1` and `INP`'s mode on
/// 2 bits, every other mode and flag on 1 bit, each most significant first.
pub open spec fn encode_instr(ins: Instruction, bw: nat) -> Seq<char> {
    match ins {
        Instruction::Assign { reg, param, mode } => binary_digits(0, 3) + binary_digits(
            reg as nat,
            bw,
        ) + binary_digits(param as nat, bw) + binary_digits(mode as nat, 1),
        Instruction::Add { reg_a, param, mode } => binary_digits(1, 3) + binary_digits(
            reg_a as nat,
            bw,
        ) + binary_digits(param as nat, bw) + binary_digits(mode as nat, 1),
        Instruction::Sub { reg_a, param, mode } => binary_digits(2, 3) + binary_digits(
            reg_a as nat,
            bw,
        ) + binary_digits(param as nat, bw) + binary_digits(mode as nat, 1),
        Instruction::Jmp { param, def, use_register } => binary_digits(3, 3) + binary_digits(
            param as nat,
            bw,
        ) + binary_digits(bool_bit(def), 1) + binary_digits(bool_bit(use_register), 1),
        Instruction::Ifz { reg, param, mode } => binary_digits(4, 3) + binary_digits(
            reg as nat,
            bw,
        ) + binary_digits(param as nat, bw) + binary_digits(mode as nat, 1),
        Instruction::Out { param, mode1, mode2 } => binary_digits(5, 3) + binary_digits(
            param as nat,
            bw,
        ) + binary_digits(mode1 as nat, 2) + binary_digits(mode2 as nat, 1),
        Instruction::Inp { reg, mode } => binary_digits(6, 3) + binary_digits(reg as nat, bw)
            + binary_digits(mode as nat, 2),
        Instruction::Sys { param, mode } => binary_digits(7, 3) + binary_digits(param as nat, bw)
            + binary_digits(mode as nat, 1),
    }
}

/// Every field of the instruction fits in its width.
pub open spec fn fits(ins: Instruction, bw: nat) -> bool {
    match ins {
        Instruction::Assign { reg, param, mode } => reg < pow2(bw) && param < pow2(bw) && mode < 2,
        Instruction::Add { reg_a, param, mode } => reg_a < pow2(bw) && param < pow2(bw) && mode < 2,
        Instruction::Sub { reg_a, param, mode } => reg_a < pow2(bw) && param < pow2(bw) && mode < 2,
        Instruction::Jmp { param, .. } => param < pow2(bw),
        Instruction::Ifz { reg, param, mode } => reg < pow2(bw) && param < pow2(bw) && mode < 2,
        Instruction::Out { param, mode1, mode2 } => param < pow2(bw) && mode1 < 4 && mode2 < 2,
        Instruction::Inp { reg, mode } => reg < pow2(bw) && mode < 4,
        Instruction::Sys { param, mode } => param < pow2(bw) && mode < 2,
    }
}

/// The bits of a program: its instructions one after the other.
pub open spec fn encode(prog: Seq<Instruction>, bw: nat) -> Seq<char>
    decreases prog.len(),
{
    if prog.len() == 0 {
        seq![]
    } else {
        encode(prog.drop_last(), bw) + encode_instr(prog.last(), bw)
    }
}

/// The label that an instruction defines, if any.
pub open spec fn def_label(ins: Instruction) -> Option<u64> {
    match ins {
        Instruction::Jmp { param, def: true, .. } => Some(param),
        _ => None,
    }
}

/// No label is defined twice.
pub open spec fn distinct_labels(prog: Seq<Instruction>) -> bool {
    forall|i: int, j: int|
        0 <= i < j < prog.len() && #[trigger] def_label(prog[i]) is Some ==> def_label(prog[i])
            != #[trigger] def_label(prog[j])
}

/// Each label defined in the program, mapped to the index of its `JMP`.
pub open spec fn label_map(prog: Seq<Instruction>) -> Map<u64, usize>
    decreases prog.len(),
{
    if prog.len() == 0 {
        Map::empty()
    } else {
        match def_label(prog.last()) {
            Some(l) => label_map(prog.drop_last()).insert(l, (prog.len() - 1) as usize),
            None => label_map(prog.drop_last()),
        }
    }
}

/// Every label of `label_map` is defined by some instruction.
proof fn lemma_label_map_keys(prog: Seq<Instruction>, l: u64)
    ensures
        label_map(prog).contains_key(l) ==> exists|j: int|
            0 <= j < prog.len() && #[trigger] def_label(prog[j]) == Some(l),
    decreases prog.len(),
{
    if prog.len() > 0 {
        lemma_label_map_keys(prog.drop_last(), l);
        if label_map(prog).contains_key(l) && def_label(prog.last()) != Some(l) {
            let j = choose|j: int|
                0 <= j < prog.drop_last().len() && #[trigger] def_label(prog.drop_last()[j]) == Some(
                    l,
                );
            assert(prog[j] == prog.drop_last()[j]);
        }
        if def_label(prog.last()) == Some(l) {
            assert(def_label(prog[prog.len() - 1]) == Some(l));
        }
    }
}

/// The code of a program starts with the code of each of its prefixes.
proof fn lemma_encode_prefix(prog: Seq<Instruction>, bw: nat, k: int)
    requires
        0 <= k <= prog.len(),
    ensures
        encode(prog.take(k), bw).len() <= encode(prog, bw).len(),
        encode(prog, bw).subrange(0, encode(prog.take(k), bw).len() as int) == encode(
            prog.take(k),
            bw,
        ),
    decreases prog.len(),
{
    if k == prog.len() {
        assert(prog.take(k) =~= prog);
        assert(encode(prog, bw).subrange(0, encode(prog, bw).len() as int) =~= encode(prog, bw));
    } else {
        assert(prog.drop_last().take(k) =~= prog.take(k));
        lemma_encode_prefix(prog.drop_last(), bw, k);
        let p = encode(prog.drop_last(), bw);
        let q = encode(prog.take(k), bw);
        assert(encode(prog, bw).subrange(0, q.len() as int) =~= p.subrange(0, q.len() as int));
    }
}

/// A field whose bits are the binary digits of `x` reads as `x`.
proof fn lemma_field_of(s: Seq<char>, p: int, w: nat, x: nat)
    requires
        0 <= p,
        p + w <= s.len(),
        s.subrange(p, p + w) == binary_digits(x, w),
        x < pow2(w),
        w <= 64,
    ensures
        field(s, p, w as int) == x,
{
    lemma_binary_digits(x, w);
    vstd::arithmetic::div_mod::lemma_small_mod(x, pow2(w));
    vstd::arithmetic::power2::lemma2_to64();
    if w < 64 {
        vstd::arithmetic::power2::lemma_pow2_strictly_increases(w, 64);
    }
    vstd::arithmetic::div_mod::lemma_small_mod(x, pow2(64));
}

/// The four parts of `a + b + c + d` found at position `i` of `s`.
proof fn lemma_parts4(s: Seq<char>, i: int, a: Seq<char>, b: Seq<char>, c: Seq<char>, d: Seq<char>)
    requires
        0 <= i,
        i + (a + b + c + d).len() <= s.len(),
        s.subrange(i, i + (a + b + c + d).len()) == a + b + c + d,
    ensures
        s.subrange(i, i + a.len()) == a,
        s.subrange(i + a.len(), i + a.len() + b.len()) == b,
        s.subrange(i + a.len() + b.len(), i + a.len() + b.len() + c.len()) == c,
        s.subrange(i + a.len() + b.len() + c.len(), i + a.len() + b.len() + c.len() + d.len())
            == d,
{
    let t = a + b + c + d;
    let n = t.len() as int;
    assert(s.subrange(i, i + a.len()) =~= t.subrange(0, a.len() as int));
    assert(t.subrange(0, a.len() as int) =~= a);
    let o1 = a.len() as int;
    assert(s.subrange(i + o1, i + o1 + b.len()) =~= t.subrange(o1, o1 + b.len()));
    assert(t.subrange(o1, o1 + b.len()) =~= b);
    let o2 = o1 + b.len();
    assert(s.subrange(i + o2, i + o2 + c.len()) =~= t.subrange(o2, o2 + c.len()));
    assert(t.subrange(o2, o2 + c.len()) =~= c);
    let o3 = o2 + c.len();
    assert(s.subrange(i + o3, i + o3 + d.len()) =~= t.subrange(o3, o3 + d.len()));
    assert(t.subrange(o3, o3 + d.len()) =~= d);
}

/// The three parts of `a + b + c` found at position `i` of `s`.
proof fn lemma_parts3(s: Seq<char>, i: int, a: Seq<char>, b: Seq<char>, c: Seq<char>)
    requires
        0 <= i,
        i + (a + b + c).len() <= s.len(),
        s.subrange(i, i + (a + b + c).len()) == a + b + c,
    ensures
        s.subrange(i, i + a.len()) == a,
        s.subrange(i + a.len(), i + a.len() + b.len()) == b,
        s.subrange(i + a.len() + b.len(), i + a.len() + b.len() + c.len()) == c,
{
    let t = a + b + c;
    assert(s.subrange(i, i + a.len()) =~= t.subrange(0, a.len() as int));
    assert(t.subrange(0, a.len() as int) =~= a);
    let o1 = a.len() as int;
    assert(s.subrange(i + o1, i + o1 + b.len()) =~= t.subrange(o1, o1 + b.len()));
    assert(t.subrange(o1, o1 + b.len()) =~= b);
    let o2 = o1 + b.len();
    assert(s.subrange(i + o2, i + o2 + c.len()) =~= t.subrange(o2, o2 + c.len()));
    assert(t.subrange(o2, o2 + c.len()) =~= c);
}

/// Small facts on powers of two used by the decoder lemmas.
proof fn lemma_small_pows()
    ensures
        pow2(1) == 2,
        pow2(2) == 4,
        pow2(3) == 8,
{
    vstd::arithmetic::power2::lemma2_to64();
}

/// Decoding at position `i`, where the code of `ins` stands, reads `ins`.
proof fn lemma_decode_one(s: Seq<char>, bw: nat, i: int, ins: Instruction)
    requires
        bw <= 64,
        fits(ins, bw),
        0 <= i,
        i + encode_instr(ins, bw).len() <= s.len(),
        s.subrange(i, i + encode_instr(ins, bw).len()) == encode_instr(ins, bw),
    ensures
        encode_instr(ins, bw).len() >= 4,
        i + 3 <= s.len(),
        field(s, i, 3) < 8,
        3 + operand_bits(field(s, i, 3), bw) == encode_instr(ins, bw).len(),
        decode_instr(s, i + 3, field(s, i, 3), bw) == ins,
{
    lemma_small_pows();
    let j = i + 3;
    match ins {
        Instruction::Assign { reg, param, mode } => {
            lemma_binary_digits(0, 3);
            lemma_binary_digits(reg as nat, bw);
            lemma_binary_digits(param as nat, bw);
            lemma_binary_digits(mode as nat, 1);
            lemma_parts4(
                s,
                i,
                binary_digits(0, 3),
                binary_digits(reg as nat, bw),
                binary_digits(param as nat, bw),
                binary_digits(mode as nat, 1),
            );
            lemma_field_of(s, i, 3, 0);
            lemma_field_of(s, j, bw, reg as nat);
            lemma_field_of(s, j + bw, bw, param as nat);
            lemma_field_of(s, j + 2 * bw, 1, mode as nat);
        },
        Instruction::Add { reg_a, param, mode } => {
            lemma_binary_digits(1, 3);
            lemma_binary_digits(reg_a as nat, bw);
            lemma_binary_digits(param as nat, bw);
            lemma_binary_digits(mode as nat, 1);
            lemma_parts4(
                s,
                i,
                binary_digits(1, 3),
                binary_digits(reg_a as nat, bw),
                binary_digits(param as nat, bw),
                binary_digits(mode as nat, 1),
            );
            lemma_field_of(s, i, 3, 1);
            lemma_field_of(s, j, bw, reg_a as nat);
            lemma_field_of(s, j + bw, bw, param as nat);
            lemma_field_of(s, j + 2 * bw, 1, mode as nat);
        },
        Instruction::Sub { reg_a, param, mode } => {
            lemma_binary_digits(2, 3);
            lemma_binary_digits(reg_a as nat, bw);
            lemma_binary_digits(param as nat, bw);
            lemma_binary_digits(mode as nat, 1);
            lemma_parts4(
                s,
                i,
                binary_digits(2, 3),
                binary_digits(reg_a as nat, bw),
                binary_digits(param as nat, bw),
                binary_digits(mode as nat, 1),
            );
            lemma_field_of(s, i, 3, 2);
            lemma_field_of(s, j, bw, reg_a as nat);
            lemma_field_of(s, j + bw, bw, param as nat);
            lemma_field_of(s, j + 2 * bw, 1, mode as nat);
        },
        Instruction::Jmp { param, def, use_register } => {
            lemma_binary_digits(3, 3);
            lemma_binary_digits(param as nat, bw);
            lemma_binary_digits(bool_bit(def), 1);
            lemma_binary_digits(bool_bit(use_register), 1);
            lemma_parts4(
                s,
                i,
                binary_digits(3, 3),
                binary_digits(param as nat, bw),
                binary_digits(bool_bit(def), 1),
                binary_digits(bool_bit(use_register), 1),
            );
            lemma_field_of(s, i, 3, 3);
            lemma_field_of(s, j, bw, param as nat);
            lemma_field_of(s, j + bw, 1, bool_bit(def));
            lemma_field_of(s, j + bw + 1, 1, bool_bit(use_register));
        },
        Instruction::Ifz { reg, param, mode } => {
            lemma_binary_digits(4, 3);
            lemma_binary_digits(reg as nat, bw);
            lemma_binary_digits(param as nat, bw);
            lemma_binary_digits(mode as nat, 1);
            lemma_parts4(
                s,
                i,
                binary_digits(4, 3),
                binary_digits(reg as nat, bw),
                binary_digits(param as nat, bw),
                binary_digits(mode as nat, 1),
            );
            lemma_field_of(s, i, 3, 4);
            lemma_field_of(s, j, bw, reg as nat);
            lemma_field_of(s, j + bw, bw, param as nat);
            lemma_field_of(s, j + 2 * bw, 1, mode as nat);
        },
        Instruction::Out { param, mode1, mode2 } => {
            lemma_binary_digits(5, 3);
            lemma_binary_digits(param as nat, bw);
            lemma_binary_digits(mode1 as nat, 2);
            lemma_binary_digits(mode2 as nat, 1);
            lemma_parts4(
                s,
                i,
                binary_digits(5, 3),
                binary_digits(param as nat, bw),
                binary_digits(mode1 as nat, 2),
                binary_digits(mode2 as nat, 1),
            );
            lemma_field_of(s, i, 3, 5);
            lemma_field_of(s, j, bw, param as nat);
            lemma_field_of(s, j + bw, 2, mode1 as nat);
            lemma_field_of(s, j + bw + 2, 1, mode2 as nat);
        },
        Instruction::Inp { reg, mode } => {
            lemma_binary_digits(6, 3);
            lemma_binary_digits(reg as nat, bw);
            lemma_binary_digits(mode as nat, 2);
            lemma_parts3(
                s,
                i,
                binary_digits(6, 3),
                binary_digits(reg as nat, bw),
                binary_digits(mode as nat, 2),
            );
            lemma_field_of(s, i, 3, 6);
            lemma_field_of(s, j, bw, reg as nat);
            lemma_field_of(s, j + bw, 2, mode as nat);
        },
        Instruction::Sys { param, mode } => {
            lemma_binary_digits(7, 3);
            lemma_binary_digits(param as nat, bw);
            lemma_binary_digits(mode as nat, 1);
            lemma_parts3(
                s,
                i,
                binary_digits(7, 3),
                binary_digits(param as nat, bw),
                binary_digits(mode as nat, 1),
            );
            lemma_field_of(s, i, 3, 7);
            lemma_field_of(s, j, bw, param as nat);
            lemma_field_of(s, j + bw, 1, mode as nat);
        },
    }
}

/// The fixed conditions under which decoding undoes encoding.
pub open spec fn encodable(prog: Seq<Instruction>, bw: nat) -> bool {
    &&& bw <= 64
    &&& forall|k: int| 0 <= k < prog.len() ==> fits(#[trigger] prog[k], bw)
    &&& distinct_labels(prog)
}

/// Decoding the code of a program from the code of its first `k`
/// instructions on gives the whole program.
proof fn lemma_decode_encoded(prog: Seq<Instruction>, bw: nat, k: int)
    requires
        encodable(prog, bw),
        0 <= k <= prog.len(),
    ensures
        decode_from(
            encode(prog, bw),
            bw,
            encode(prog.take(k), bw).len() as int,
            Decoded { instructions: prog.take(k), labels: label_map(prog.take(k)), leftover: 0 },
        ) == Ok::<Decoded, Fault>(
            Decoded { instructions: prog, labels: label_map(prog), leftover: 0 },
        ),
    decreases prog.len() - k,
{
    let s = encode(prog, bw);
    lemma_encode_prefix(prog, bw, k);
    if k == prog.len() {
        assert(prog.take(k) =~= prog);
    } else {
        let i = encode(prog.take(k), bw).len() as int;
        let ins = prog[k];
        let e = encode_instr(ins, bw);
        assert(prog.take(k + 1).drop_last() =~= prog.take(k));
        assert(prog.take(k + 1).last() == ins);
        assert(encode(prog.take(k + 1), bw) == encode(prog.take(k), bw) + e);
        lemma_encode_prefix(prog, bw, k + 1);
        let big = encode(prog.take(k + 1), bw);
        assert(s.subrange(i, i + e.len()) =~= big.subrange(i, i + e.len()));
        assert(big.subrange(i, i + e.len()) =~= e);
        assert(fits(prog[k], bw));
        lemma_decode_one(s, bw, i, ins);
        let acc = Decoded { instructions: prog.take(k), labels: label_map(prog.take(k)), leftover: 0 };
        let next = Decoded {
            instructions: prog.take(k + 1),
            labels: label_map(prog.take(k + 1)),
            leftover: 0,
        };
        assert(acc.instructions.push(ins) =~= prog.take(k + 1));
        if let Some(l) = def_label(ins) {
            lemma_label_map_keys(prog.take(k), l);
            if label_map(prog.take(k)).contains_key(l) {
                let j = choose|j: int|
                    0 <= j < prog.take(k).len() && #[trigger] def_label(prog.take(k)[j]) == Some(l);
                assert(prog.take(k)[j] == prog[j]);
                assert(def_label(prog[j]) is Some);
                assert(def_label(prog[j]) != def_label(prog[k]));
            }
        }
        lemma_decode_encoded(prog, bw, k + 1);
    }
}

/// Decoding undoes encoding: the code of a program whose fields fit their
/// widths (bit width at most 64) and whose labels are defined once decodes to
/// that program, with each defined label mapped to its `JMP`, and no bits
/// left over.
pub proof fn law_decode_encode(prog: Seq<Instruction>, bw: nat)
    requires
        encodable(prog, bw),
    ensures
        decode_spec(encode(prog, bw), bw) == Ok::<Decoded, Fault>(
            Decoded { instructions: prog, labels: label_map(prog), leftover: 0 },
        ),
{
    lemma_decode_encoded(prog, bw, 0);
    assert(prog.take(0) =~= Seq::<Instruction>::empty());
    assert(label_map(prog.take(0)) == Map::<u64, usize>::empty());
}


/// Each directive touches its own part of the configuration: `/00` sets the
/// custom characters and keeps the bit width, `/01` with a width of at least
/// two sets the width and keeps the custom characters, and a reserved
/// directive changes nothing.
pub proof fn law_directives_independent(c: Setup, d: PreprocessorDirective)
    ensures
        match d {
            PreprocessorDirective::ReplaceChars(z, o) => directive_effect(c, d) matches Ok(c2)
                && c2.bit_width == c.bit_width && c2.char_zero == z && c2.char_one == o,
            PreprocessorDirective::SetBitWidth(w) => w >= 2 ==> (directive_effect(c, d) matches Ok(
                c2,
            ) && c2.bit_width == w && c2.char_zero == c.char_zero && c2.char_one
                == c.char_one),
            PreprocessorDirective::Reserved => directive_effect(c, d) == Ok::<Setup, Fault>(c),
        },
{
}

/// A `/01` directive with a valid width and a `/00` directive give the same
/// configuration in either order: that width and those characters.
pub proof fn law_width_and_chars_commute(c: Setup, w: u8, z: char, o: char)
    requires
        w >= 2,
    ensures
        apply_directives(
            c,
            seq![PreprocessorDirective::SetBitWidth(w), PreprocessorDirective::ReplaceChars(z, o)],
        ) == apply_directives(
            c,
            seq![PreprocessorDirective::ReplaceChars(z, o), PreprocessorDirective::SetBitWidth(w)],
        ),
        apply_directives(
            c,
            seq![PreprocessorDirective::SetBitWidth(w), PreprocessorDirective::ReplaceChars(z, o)],
        ) == (Setup { bit_width: w, char_zero: z, char_one: o }, None::<Fault>),
{
    let d1 = PreprocessorDirective::SetBitWidth(w);
    let d2 = PreprocessorDirective::ReplaceChars(z, o);
    let s12 = seq![d1, d2];
    let s21 = seq![d2, d1];
    assert(s12.drop_first() =~= seq![d2]);
    assert(s21.drop_first() =~= seq![d1]);
    assert(seq![d1].drop_first() =~= Seq::<PreprocessorDirective>::empty());
    assert(seq![d2].drop_first() =~= Seq::<PreprocessorDirective>::empty());
    let cw = Setup { bit_width: w, char_zero: c.char_zero, char_one: c.char_one };
    let cz = Setup { bit_width: c.bit_width, char_zero: z, char_one: o };
    let cf = Setup { bit_width: w, char_zero: z, char_one: o };
    assert(apply_directives(cf, Seq::<PreprocessorDirective>::empty()) == (cf, None::<Fault>));
    assert(apply_directives(cw, seq![d2]) == (cf, None::<Fault>));
    assert(apply_directives(cz, seq![d1]) == (cf, None::<Fault>));
    assert(apply_directives(c, s12) == (cf, None::<Fault>));
    assert(apply_directives(c, s21) == (cf, None::<Fault>));
}


/// How many `<` of `c` are still open at its end: each `<` opens one level
/// and each `>` closes one.
pub open spec fn nesting(c: Seq<char>) -> int
    decreases c.len(),
{
    if c.len() == 0 {
        0
    } else {
        nesting(c.drop_last()) + if c.last() == '<' {
            1
        } else if c.last() == '>' {
            -1
        } else {
            0
        }
    }
}

/// `c` closes every `<` that it opens, and never closes one more than it
/// opened so far: the text of a comment, nested comments included.
pub open spec fn balanced(c: Seq<char>) -> bool {
    &&& nesting(c) == 0
    &&& forall|k: int| 0 <= k <= c.len() ==> nesting(#[trigger] c.take(k)) >= 0
}

/// The comment `<c>`.
pub open spec fn comment(c: Seq<char>) -> Seq<char> {
    seq!['<'] + c + seq!['>']
}

/// Looking for the end of a comment from `x.len() + j` in `x + b` is looking
/// for it from `j` in `b`.
proof fn lemma_comment_end_shift(x: Seq<char>, b: Seq<char>, j: int, d: nat)
    requires
        0 <= j,
    ensures
        comment_end(x + b, x.len() + j, d) == x.len() + comment_end(b, j, d),
    decreases b.len() - j,
{
    if j < b.len() && d != 0 {
        assert((x + b)[x.len() + j] == b[j]);
        let d2 = if b[j] == '<' {
            d + 1
        } else if b[j] == '>' {
            (d - 1) as nat
        } else {
            d
        };
        lemma_comment_end_shift(x, b, j + 1, d2);
    }
}

/// A balanced comment `<c>` at `x.len()` in `x + <c> + y` is passed over
/// whole: at depth `d + 1 + nesting` of what was read of `c`, the search goes
/// on after `>` at depth `d`.
proof fn lemma_comment_passes(x: Seq<char>, c: Seq<char>, y: Seq<char>, k: int, d: nat)
    requires
        balanced(c),
        0 <= k <= c.len(),
    ensures
        comment_end(x + comment(c) + y, x.len() + 1 + k, (d + 1 + nesting(c.take(k))) as nat)
            == comment_end(x + comment(c) + y, (x.len() + c.len() + 2) as int, d),
    decreases c.len() - k,
{
    let s = x + comment(c) + y;
    let n = nesting(c.take(k));
    assert(n >= 0);
    if k == c.len() {
        assert(c.take(k) =~= c);
        assert(s[x.len() + 1 + k] == '>');
    } else {
        assert(s[x.len() + 1 + k] == c[k]);
        assert(c.take(k + 1).drop_last() =~= c.take(k));
        assert(c.take(k + 1).last() == c[k]);
        assert(nesting(c.take(k + 1)) >= 0);
        lemma_comment_passes(x, c, y, k + 1, d);
    }
}


/// The run of a directive from `x.len() + j` in `x + b` is the run from `j`
/// in `b`.
proof fn lemma_directive_end_shift(x: Seq<char>, b: Seq<char>, j: int)
    requires
        0 <= j,
    ensures
        directive_end(x + b, x.len() + j) == x.len() + directive_end(b, j),
    decreases b.len() - j,
{
    if j < b.len() {
        assert((x + b)[x.len() + j] == b[j]);
        lemma_directive_end_shift(x, b, j + 1);
    }
}

/// Extracting from `x.len() + j` in `x + b` is extracting from `j` in `b`.
proof fn lemma_extract_shift(x: Seq<char>, b: Seq<char>, j: int)
    requires
        0 <= j,
    ensures
        extract_from(x + b, x.len() + j) == extract_from(b, j),
    decreases b.len() - j,
{
    let s = x + b;
    let i = x.len() + j;
    if j < b.len() {
        assert(s[i] == b[j]);
        if j + 1 < b.len() {
            assert(s[i + 1] == b[j + 1]);
        }
        if b[j] == '/' && j + 1 < b.len() && is_decimal_digit(b[j + 1]) {
            lemma_directive_end_shift(x, b, j + 1);
            lemma_directive_end(b, j + 1);
            let k = directive_end(b, j + 1);
            assert(s.subrange(i, x.len() + k) =~= b.subrange(j, k));
            lemma_extract_shift(x, b, k);
            lemma_extract_shift(x, b, j + 1);
        } else if b[j] == '<' {
            lemma_comment_end_shift(x, b, j + 1, 1);
            lemma_comment_end(b, j + 1, 1);
            lemma_extract_shift(x, b, comment_end(b, j + 1, 1));
        } else {
            lemma_extract_shift(x, b, j + 1);
        }
    }
}

/// Cleaning from `x.len() + j` in `x + b` is cleaning from `j` in `b`.
proof fn lemma_clean_shift(x: Seq<char>, b: Seq<char>, j: int, zero: char, one: char)
    requires
        0 <= j,
    ensures
        clean_from(x + b, x.len() + j, zero, one) == clean_from(b, j, zero, one),
    decreases b.len() - j,
{
    if j < b.len() {
        assert((x + b)[x.len() + j] == b[j]);
        if b[j] == '<' {
            lemma_comment_end_shift(x, b, j + 1, 1);
            lemma_comment_end(b, j + 1, 1);
            lemma_clean_shift(x, b, comment_end(b, j + 1, 1), zero, one);
        } else {
            lemma_clean_shift(x, b, j + 1, zero, one);
        }
    }
}


/// `a` is empty or ends with a character that neither continues a directive
/// nor closes a comment, such as a line break.
pub open spec fn ends_clear(a: Seq<char>) -> bool {
    a.len() == 0 || !(is_decimal_digit(a.last()) || a.last() == ' ' || a.last() == '/' || a.last()
        == '>')
}

/// A balanced comment put in after `a` moves the end of a comment that is
/// still open there by its own length, and no other.
proof fn lemma_comment_end_insert(a: Seq<char>, c: Seq<char>, b: Seq<char>, i: int, d: nat)
    requires
        ends_clear(a),
        balanced(c),
        0 <= i <= a.len(),
        d >= 1,
    ensures
        ({
            let e = comment_end(a + b, i, d);
            comment_end(a + comment(c) + b, i, d) == if e < a.len() {
                e
            } else {
                e + c.len() + 2
            }
        }),
    decreases a.len() - i,
{
    let s1 = a + comment(c) + b;
    let s2 = a + b;
    if i == a.len() {
        assert(s1[i] == '<');
        assert(c.take(0) =~= Seq::<char>::empty());
        assert(comment_end(s1, i, d) == comment_end(s1, i + 1, d + 1));
        lemma_comment_passes(a, c, b, 0, d);
        assert(nesting(c.take(0)) == 0);
        assert(comment_end(s1, i + 1, d + 1) == comment_end(s1, (a.len() + c.len() + 2) as int, d));
        lemma_comment_end_shift(a + comment(c), b, 0, d);
        assert((a + comment(c)).len() == a.len() + c.len() + 2);
        assert(a + comment(c) + b == s1);
        lemma_comment_end_shift(a, b, 0, d);
        lemma_comment_end(b, 0, d);
        assert(comment_end(s2, i, d) == a.len() + comment_end(b, 0, d));
        assert(comment_end(s1, i, d) == a.len() + c.len() + 2 + comment_end(b, 0, d));
    } else {
        assert(s1[i] == a[i]);
        assert(s2[i] == a[i]);
        let d2 = if a[i] == '<' {
            d + 1
        } else if a[i] == '>' {
            (d - 1) as nat
        } else {
            d
        };
        assert(comment_end(s1, i, d) == comment_end(s1, i + 1, d2));
        assert(comment_end(s2, i, d) == comment_end(s2, i + 1, d2));
        if d2 == 0 {
            assert(i + 1 < a.len());
            assert(comment_end(s1, i + 1, d2) == i + 1);
            assert(comment_end(s2, i + 1, d2) == i + 1);
        } else {
            lemma_comment_end_insert(a, c, b, i + 1, d2);
        }
    }
}


/// A directive that starts inside `a` ends inside `a`, whatever follows.
proof fn lemma_directive_end_within(a: Seq<char>, y: Seq<char>, j: int)
    requires
        ends_clear(a),
        0 <= j < a.len(),
    ensures
        directive_end(a + y, j) == directive_end(a, j),
        directive_end(a, j) < a.len(),
    decreases a.len() - j,
{
    assert((a + y)[j] == a[j]);
    if is_decimal_digit(a[j]) || a[j] == ' ' {
        assert(j + 1 < a.len());
        lemma_directive_end_within(a, y, j + 1);
    }
}

/// A balanced comment put in after `a` changes nothing that is extracted
/// from a position in `a` on.
proof fn lemma_extract_insert(a: Seq<char>, c: Seq<char>, b: Seq<char>, i: int)
    requires
        ends_clear(a),
        balanced(c),
        0 <= i <= a.len(),
    ensures
        extract_from(a + comment(c) + b, i) == extract_from(a + b, i),
    decreases a.len() - i,
{
    let m = comment(c);
    let s1 = a + m + b;
    let s2 = a + b;
    if i == a.len() {
        assert(s1[i] == '<');
        lemma_comment_end_insert(a, c, b, i + 0, 1);
        assert(c.take(0) =~= Seq::<char>::empty());
        lemma_comment_passes(a, c, b, 0, 0);
        assert(nesting(c.take(0)) == 0);
        assert(comment_end(s1, (a.len() + c.len() + 2) as int, 0) == a.len() + c.len() + 2);
        assert((a + m).len() == a.len() + c.len() + 2);
        lemma_extract_shift(a + m, b, 0);
        lemma_extract_shift(a, b, 0);
    } else {
        assert(s1[i] == a[i]);
        assert(s2[i] == a[i]);
        if a[i] == '/' && i + 1 < s2.len() && is_decimal_digit(s2[i + 1]) {
            assert(i + 1 < a.len());
            assert(s1[i + 1] == a[i + 1]);
            lemma_directive_end_within(a, m + b, i + 1);
            lemma_directive_end_within(a, b, i + 1);
            assert(a + (m + b) == s1);
            let j = directive_end(a, i + 1);
            lemma_directive_end(a, i + 1);
            assert(s1.subrange(i, j) =~= s2.subrange(i, j));
            lemma_extract_insert(a, c, b, j);
            lemma_extract_insert(a, c, b, i + 1);
        } else if a[i] == '<' {
            lemma_comment_end_insert(a, c, b, i + 1, 1);
            lemma_comment_end(s2, i + 1, 1);
            let k = comment_end(s2, i + 1, 1);
            if k < a.len() {
                lemma_extract_insert(a, c, b, k);
            } else {
                lemma_extract_shift(a + m, b, k - a.len());
                lemma_extract_shift(a, b, k - a.len());
            }
        } else {
            if i + 1 < a.len() {
                assert(s1[i + 1] == s2[i + 1]);
            }
            lemma_extract_insert(a, c, b, i + 1);
        }
    }
}


/// A balanced comment put in after `a` changes nothing that is cleaned from
/// a position in `a` on.
proof fn lemma_clean_insert(a: Seq<char>, c: Seq<char>, b: Seq<char>, i: int, zero: char, one: char)
    requires
        ends_clear(a),
        balanced(c),
        0 <= i <= a.len(),
    ensures
        clean_from(a + comment(c) + b, i, zero, one) == clean_from(a + b, i, zero, one),
    decreases a.len() - i,
{
    let m = comment(c);
    let s1 = a + m + b;
    let s2 = a + b;
    if i == a.len() {
        assert(s1[i] == '<');
        lemma_comment_end_insert(a, c, b, i + 0, 1);
        assert(c.take(0) =~= Seq::<char>::empty());
        lemma_comment_passes(a, c, b, 0, 0);
        assert(nesting(c.take(0)) == 0);
        assert(comment_end(s1, (a.len() + c.len() + 2) as int, 0) == a.len() + c.len() + 2);
        assert((a + m).len() == a.len() + c.len() + 2);
        lemma_clean_shift(a + m, b, 0, zero, one);
        lemma_clean_shift(a, b, 0, zero, one);
    } else {
        assert(s1[i] == a[i]);
        assert(s2[i] == a[i]);
        if a[i] == '<' {
            lemma_comment_end_insert(a, c, b, i + 1, 1);
            lemma_comment_end(s2, i + 1, 1);
            let k = comment_end(s2, i + 1, 1);
            if k < a.len() {
                lemma_clean_insert(a, c, b, k, zero, one);
            } else {
                lemma_clean_shift(a + m, b, k - a.len(), zero, one);
                lemma_clean_shift(a, b, k - a.len(), zero, one);
            }
        } else {
            lemma_clean_insert(a, c, b, i + 1, zero, one);
        }
    }
}

/// A comment has no effect: a balanced comment `<c>` put in at the start of
/// the source or after a line break (after any text that ends neither a
/// directive's digits nor a comment) changes neither the text and the
/// directives that are extracted, nor the cleaned bits, nor what compiling
/// the source sets up and decodes.
pub proof fn law_comment_ignored(a: Seq<char>, c: Seq<char>, b: Seq<char>, zero: char, one: char)
    requires
        ends_clear(a),
        balanced(c),
    ensures
        extract_spec(a + comment(c) + b) == extract_spec(a + b),
        clean_spec(a + comment(c) + b, zero, one) == clean_spec(a + b, zero, one),
        compile(a + comment(c) + b) == compile(a + b),
{
    lemma_extract_insert(a, c, b, 0);
    lemma_clean_insert(a, c, b, 0, zero, one);
}

/// A comment whose text holds no `<` and no `>` is balanced, whatever else
/// it holds, directives included.
pub proof fn law_flat_comment_balanced(c: Seq<char>)
    requires
        forall|k: int| 0 <= k < c.len() ==> c[k] != '<' && c[k] != '>',
    ensures
        balanced(c),
{
    assert forall|k: int| 0 <= k <= c.len() implies nesting(#[trigger] c.take(k)) == 0 by {
        lemma_flat_nesting(c, k);
    }
    assert(c.take(c.len() as int) =~= c);
}

/// Prefixes of a text without `<` and `>` open nothing.
proof fn lemma_flat_nesting(c: Seq<char>, k: int)
    requires
        forall|k: int| 0 <= k < c.len() ==> c[k] != '<' && c[k] != '>',
        0 <= k <= c.len(),
    ensures
        nesting(c.take(k)) == 0,
    decreases k,
{
    if k > 0 {
        assert(c.take(k).drop_last() =~= c.take(k - 1));
        lemma_flat_nesting(c, k - 1);
    }
}

} // verus!
