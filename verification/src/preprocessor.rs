//! Preprocessor directives: `/00` (custom characters for 0 and 1), `/01`
//! (bit width), `/10` and `/11` (reserved).

use crate::error::{lift, Fault, ZonaryError};
use crate::text::{
    all_bits, all_bits_exec, bin_value, is_bit, chars_of, has_utf8_len, is_white_space, is_whitespace,
    lemma_bin_value_bound, lemma_utf8_len_bits, slice_chars, string_from_chars, utf8_len,
};
use vstd::arithmetic::power2::pow2;
use vstd::prelude::*;

verus! {

/// A preprocessor directive.
#[derive(Debug, Clone, Copy, PartialEq, Eq, Structural)]
pub enum PreprocessorDirective {
    /// `/00`: characters that stand for 0 and for 1.
    ReplaceChars(char, char),
    /// `/01`: the bit width of the program.
    SetBitWidth(u8),
    /// `/10` and `/11`: reserved, no effect.
    Reserved,
}

/// End of the run of non-blank characters that starts at `j`.
pub open spec fn run_end(s: Seq<char>, j: int) -> int
    decreases s.len() - j,
{
    if j < 0 || j >= s.len() || is_white_space(s[j]) {
        j
    } else {
        run_end(s, j + 1)
    }
}

/// `run_end` stays inside the text and stops at a blank or at the end.
pub proof fn lemma_run_end(s: Seq<char>, j: int)
    requires
        0 <= j <= s.len(),
    ensures
        j <= run_end(s, j) <= s.len(),
        run_end(s, j) == s.len() || is_white_space(s[run_end(s, j)]),
        forall|k: int| j <= k < run_end(s, j) ==> !is_white_space(#[trigger] s[k]),
    decreases s.len() - j,
{
    if j < s.len() && !is_white_space(s[j]) {
        lemma_run_end(s, j + 1);
    }
}

/// The blank-separated words of `s` from position `i` on.
pub open spec fn words_from(s: Seq<char>, i: int) -> Seq<Seq<char>>
    decreases s.len() - i,
{
    if i < 0 || i >= s.len() {
        seq![]
    } else if is_white_space(s[i]) {
        words_from(s, i + 1)
    } else {
        let j = run_end(s, i + 1);
        proof {
            lemma_run_end(s, i + 1);
        }
        seq![s.subrange(i, j)] + words_from(s, j)
    }
}

/// The blank-separated words of `s` (what `str::split_whitespace` yields).
pub open spec fn words(s: Seq<char>) -> Seq<Seq<char>> {
    words_from(s, 0)
}

/// The three-character word `a b c`.
pub open spec fn word3(a: char, b: char, c: char) -> Seq<char> {
    seq![a, b, c]
}

/// An 8-bit binary parameter: exactly 8 bytes, all bits.
pub open spec fn binary_u8_spec(t: Seq<char>) -> Result<u8, Fault> {
    if utf8_len(t) != 8 {
        Err(Fault::ParameterLength)
    } else if !all_bits(t) {
        Err(Fault::ParameterNotBinary)
    } else {
        Ok(bin_value(t) as u8)
    }
}

/// A character given by an 8-bit binary code in 32..=126.
pub open spec fn ascii_char_spec(t: Seq<char>) -> Result<char, Fault> {
    match binary_u8_spec(t) {
        Err(e) => Err(e),
        Ok(bits) => if bits < 32 || bits > 126 {
            Err(Fault::AsciiOutOfRange)
        } else {
            Ok(bits as char)
        },
    }
}

/// Characters that `/00` may not use.
pub open spec fn is_reserved_char(c: char) -> bool {
    c == '<' || c == '>' || c == '/' || c == '0' || c == '1'
}

/// The directive that the text `s` states, or why it states none.
pub open spec fn parse_spec(s: Seq<char>) -> Result<PreprocessorDirective, Fault> {
    let w = words(s);
    if w.len() == 0 {
        Err(Fault::EmptyDirective)
    } else if w[0] == word3('/', '0', '0') {
        if w.len() != 3 {
            Err(Fault::ReplaceCharsArity)
        } else {
            match ascii_char_spec(w[1]) {
                Err(e) => Err(e),
                Ok(zero) => match ascii_char_spec(w[2]) {
                    Err(e) => Err(e),
                    Ok(one) => if zero == one {
                        Err(Fault::IdenticalCustomChars)
                    } else if is_reserved_char(zero) || is_reserved_char(one) {
                        Err(Fault::ReservedCustomChar)
                    } else {
                        Ok(PreprocessorDirective::ReplaceChars(zero, one))
                    },
                },
            }
        }
    } else if w[0] == word3('/', '0', '1') {
        if w.len() != 2 {
            Err(Fault::BitWidthArity)
        } else {
            match binary_u8_spec(w[1]) {
                Err(e) => Err(e),
                Ok(width) => if width < 2 {
                    Err(Fault::BitWidthTooSmall)
                } else {
                    Ok(PreprocessorDirective::SetBitWidth(width))
                },
            }
        }
    } else if w[0] == word3('/', '1', '0') || w[0] == word3('/', '1', '1') {
        Ok(PreprocessorDirective::Reserved)
    } else {
        Err(Fault::UnknownDirective(w[0]))
    }
}

/// The views of a sequence of character vectors.
pub open spec fn views(v: Seq<Vec<char>>) -> Seq<Seq<char>> {
    v.map_values(|x: Vec<char>| x@)
}

/// The blank-separated words of `s`.
fn split_words(s: &Vec<char>) -> (r: Vec<Vec<char>>)
    ensures
        views(r@) == words(s@),
{
    let mut r: Vec<Vec<char>> = Vec::new();
    let mut i: usize = 0;
    while i < s.len()
        invariant
            i <= s.len(),
            views(r@) + words_from(s@, i as int) == words(s@),
        decreases s.len() - i,
    {
        if is_whitespace(s[i]) {
            i = i + 1;
        } else {
            let mut j = i + 1;
            proof {
                lemma_run_end(s@, i + 1);
            }
            while j < s.len() && !is_whitespace(s[j])
                invariant
                    i < j <= s.len(),
                    run_end(s@, j as int) == run_end(s@, i + 1),
                decreases s.len() - j,
            {
                j = j + 1;
            }
            let word = slice_chars(s, i, j);
            let ghost before = views(r@);
            r.push(word);
            assert(views(r@) =~= before.push(word@));
            assert(words_from(s@, i as int) == seq![s@.subrange(i as int, j as int)]
                + words_from(s@, j as int));
            assert(views(r@) + words_from(s@, j as int) =~= before + words_from(s@, i as int));
            i = j;
        }
    }
    assert(words_from(s@, i as int) =~= Seq::<Seq<char>>::empty());
    assert(views(r@) + Seq::<Seq<char>>::empty() =~= views(r@));
    r
}

/// Whether `t` is the three-character word `a b c`.
fn is_word3(t: &Vec<char>, a: char, b: char, c: char) -> (r: bool)
    ensures
        r == (t@ == word3(a, b, c)),
{
    if t.len() == 3 && t[0] == a && t[1] == b && t[2] == c {
        assert(t@ =~= word3(a, b, c));
        true
    } else {
        false
    }
}

impl PreprocessorDirective {
    /// Parses a directive: its first word names it, the next words are its
    /// 8-bit binary parameters.
    pub fn parse(s: &str) -> (r: Result<Self, ZonaryError>)
        ensures
            lift(r) == parse_spec(s@),
    {
        let chars = chars_of(s);
        let parts = split_words(&chars);
        assert(parts@.len() == views(parts@).len());
        if parts.len() == 0 {
            return Err(ZonaryError::EmptyDirective);
        }
        assert(views(parts@)[0] == parts@[0]@);
        let name = &parts[0];
        if is_word3(name, '/', '0', '0') {
            if parts.len() != 3 {
                return Err(ZonaryError::ReplaceCharsArity);
            }
            assert(views(parts@)[1] == parts@[1]@);
            assert(views(parts@)[2] == parts@[2]@);
            let zero = Self::parse_ascii_char(&parts[1])?;
            let one = Self::parse_ascii_char(&parts[2])?;
            if zero == one {
                return Err(ZonaryError::IdenticalCustomChars);
            }
            if is_reserved(zero) || is_reserved(one) {
                return Err(ZonaryError::ReservedCustomChar);
            }
            Ok(PreprocessorDirective::ReplaceChars(zero, one))
        } else if is_word3(name, '/', '0', '1') {
            if parts.len() != 2 {
                return Err(ZonaryError::BitWidthArity);
            }
            assert(views(parts@)[1] == parts@[1]@);
            let width = Self::parse_binary_u8(&parts[1])?;
            if width < 2 {
                return Err(ZonaryError::BitWidthTooSmall);
            }
            Ok(PreprocessorDirective::SetBitWidth(width))
        } else if is_word3(name, '/', '1', '0') || is_word3(name, '/', '1', '1') {
            Ok(PreprocessorDirective::Reserved)
        } else {
            Err(ZonaryError::UnknownDirective(string_from_chars(name)))
        }
    }

    /// A character given by an 8-bit binary code in 32..=126.
    fn parse_ascii_char(t: &Vec<char>) -> (r: Result<char, ZonaryError>)
        ensures
            lift(r) == ascii_char_spec(t@),
    {
        let bits = Self::parse_binary_u8(t)?;
        if bits < 32 || bits > 126 {
            return Err(ZonaryError::AsciiOutOfRange);
        }
        Ok(bits as char)
    }

    /// An 8-bit binary parameter.
    fn parse_binary_u8(t: &Vec<char>) -> (r: Result<u8, ZonaryError>)
        ensures
            lift(r) == binary_u8_spec(t@),
    {
        if !has_utf8_len(t, 8) {
            return Err(ZonaryError::ParameterLength);
        }
        if !all_bits_exec(t) {
            return Err(ZonaryError::ParameterNotBinary);
        }
        proof {
            lemma_utf8_len_bits(t@);
        }
        let mut v: u32 = 0;
        let mut k: usize = 0;
        while k < t.len()
            invariant
                k <= t.len() == 8,
                v == bin_value(t@.take(k as int)),
            decreases t.len() - k,
        {
            proof {
                lemma_bin_value_bound(t@.take(k as int));
                vstd::arithmetic::power2::lemma2_to64();
                vstd::arithmetic::power2::lemma_pow2_strictly_increases(k as nat, 8);
                assert(t@.take(k + 1).drop_last() =~= t@.take(k as int));
            }
            if t[k] == '1' {
                v = 2 * v + 1;
            } else {
                v = 2 * v;
            }
            k = k + 1;
        }
        proof {
            assert(t@.take(8) =~= t@);
            lemma_bin_value_bound(t@);
            vstd::arithmetic::power2::lemma2_to64();
        }
        Ok(v as u8)
    }
}

/// Whether `/00` may not use `c`.
fn is_reserved(c: char) -> (r: bool)
    ensures
        r == is_reserved_char(c),
{
    c == '<' || c == '>' || c == '/' || c == '0' || c == '1'
}

/// The `k` low bits of `n` in binary, most significant first.
pub open spec fn binary_digits(n: nat, k: nat) -> Seq<char>
    decreases k,
{
    if k == 0 {
        seq![]
    } else {
        binary_digits(n / 2, (k - 1) as nat).push(
            if n % 2 == 1 {
                '1'
            } else {
                '0'
            },
        )
    }
}

/// The text of a directive: its name, then its parameters as 8-bit binary
/// numbers (a character by the low 8 bits of its code).
pub open spec fn render_spec(d: PreprocessorDirective) -> Seq<char> {
    match d {
        PreprocessorDirective::ReplaceChars(zero, one) => seq!['/', '0', '0', ' '] + binary_digits(
            ((zero as u32) % 256) as nat,
            8,
        ) + seq![' '] + binary_digits(((one as u32) % 256) as nat, 8),
        PreprocessorDirective::SetBitWidth(width) => seq!['/', '0', '1', ' '] + binary_digits(
            width as nat,
            8,
        ),
        PreprocessorDirective::Reserved => seq!['/', '1', '0'],
    }
}

/// A directive that `parse` can produce: printable custom characters that
/// differ and are not reserved, or a bit width of at least 2.
pub open spec fn well_formed_directive(d: PreprocessorDirective) -> bool {
    match d {
        PreprocessorDirective::ReplaceChars(zero, one) => 32 <= (zero as u32) <= 126 && 32 <= (
        one as u32) <= 126 && zero != one && !is_reserved_char(zero) && !is_reserved_char(one),
        PreprocessorDirective::SetBitWidth(width) => width >= 2,
        PreprocessorDirective::Reserved => true,
    }
}

/// Appends the `k` low bits of `n` in binary.
fn push_binary(n: u32, k: usize, out: &mut Vec<char>)
    ensures
        final(out)@ == old(out)@ + binary_digits(n as nat, k as nat),
    decreases k,
{
    if k > 0 {
        push_binary(n / 2, k - 1, out);
        out.push(
            if n % 2 == 1 {
                '1'
            } else {
                '0'
            },
        );
        assert(out@ =~= old(out)@ + binary_digits(n as nat, k as nat));
    }
}

impl PreprocessorDirective {
    /// The text of the directive, as `Display` writes it.
    pub fn to_string(&self) -> (r: String)
        ensures
            r@ == render_spec(*self),
    {
        let mut out: Vec<char> = Vec::new();
        match self {
            PreprocessorDirective::ReplaceChars(zero, one) => {
                out.push('/');
                out.push('0');
                out.push('0');
                out.push(' ');
                push_binary((*zero as u32) % 256, 8, &mut out);
                out.push(' ');
                push_binary((*one as u32) % 256, 8, &mut out);
                assert(out@ =~= render_spec(*self));
            },
            PreprocessorDirective::SetBitWidth(width) => {
                out.push('/');
                out.push('0');
                out.push('1');
                out.push(' ');
                push_binary(*width as u32, 8, &mut out);
                assert(out@ =~= render_spec(*self));
            },
            PreprocessorDirective::Reserved => {
                out.push('/');
                out.push('1');
                out.push('0');
                assert(out@ =~= render_spec(*self));
            },
        }
        string_from_chars(&out)
    }
}

/// `binary_digits` is `k` bits that read back as `n` modulo `2^k`.
pub proof fn lemma_binary_digits(n: nat, k: nat)
    ensures
        binary_digits(n, k).len() == k,
        all_bits(binary_digits(n, k)),
        bin_value(binary_digits(n, k)) == n % pow2(k),
    decreases k,
{
    vstd::arithmetic::power2::lemma_pow2_pos(k);
    if k == 0 {
        vstd::arithmetic::power2::lemma2_to64();
    } else {
        let d = binary_digits(n / 2, (k - 1) as nat);
        lemma_binary_digits(n / 2, (k - 1) as nat);
        let e = binary_digits(n, k);
        assert(e.drop_last() =~= d);
        assert forall|i: int| 0 <= i < e.len() implies is_bit(#[trigger] e[i]) by {
            if i < d.len() {
                assert(e[i] == d[i]);
            }
        }
        vstd::arithmetic::power2::lemma_pow2_unfold(k);
        vstd::arithmetic::power2::lemma_pow2_pos((k - 1) as nat);
        vstd::arithmetic::div_mod::lemma_mod_breakdown(n as int, 2, pow2((k - 1) as nat) as int);
    }
}

/// `run_end` stops at the first blank.
proof fn lemma_run_end_exact(s: Seq<char>, i: int, j: int)
    requires
        0 <= i <= j <= s.len(),
        forall|k: int| i <= k < j ==> !is_white_space(#[trigger] s[k]),
        j == s.len() || is_white_space(s[j]),
    ensures
        run_end(s, i) == j,
    decreases j - i,
{
    if i < j {
        lemma_run_end_exact(s, i + 1, j);
    }
}

/// A word that starts at `i` and ends at `j`.
proof fn lemma_words_from_word(s: Seq<char>, i: int, j: int)
    requires
        0 <= i < j <= s.len(),
        forall|k: int| i <= k < j ==> !is_white_space(#[trigger] s[k]),
        j == s.len() || is_white_space(s[j]),
    ensures
        words_from(s, i) == seq![s.subrange(i, j)] + words_from(s, j),
{
    lemma_run_end_exact(s, i + 1, j);
}

/// The words of `a b`, for two blank-free non-empty texts.
proof fn lemma_words_two(a: Seq<char>, b: Seq<char>)
    requires
        a.len() > 0,
        b.len() > 0,
        forall|k: int| 0 <= k < a.len() ==> !is_white_space(#[trigger] a[k]),
        forall|k: int| 0 <= k < b.len() ==> !is_white_space(#[trigger] b[k]),
    ensures
        words(a + seq![' '] + b) == seq![a, b],
{
    let s = a + seq![' '] + b;
    let n = a.len() as int;
    assert forall|k: int| 0 <= k < n implies !is_white_space(#[trigger] s[k]) by {
        assert(s[k] == a[k]);
    }
    assert forall|k: int| n + 1 <= k < s.len() implies !is_white_space(#[trigger] s[k]) by {
        assert(s[k] == b[k - n - 1]);
    }
    assert(s[n] == ' ');
    lemma_words_from_word(s, 0, n);
    lemma_words_from_word(s, n + 1, s.len() as int);
    assert(words_from(s, n) == words_from(s, n + 1));
    assert(words_from(s, s.len() as int) =~= Seq::<Seq<char>>::empty());
    assert(s.subrange(0, n) =~= a);
    assert(s.subrange(n + 1, s.len() as int) =~= b);
    assert(words(s) =~= seq![a, b]);
}

/// The words of `a b c`, for three blank-free non-empty texts.
proof fn lemma_words_three(a: Seq<char>, b: Seq<char>, c: Seq<char>)
    requires
        a.len() > 0,
        b.len() > 0,
        c.len() > 0,
        forall|k: int| 0 <= k < a.len() ==> !is_white_space(#[trigger] a[k]),
        forall|k: int| 0 <= k < b.len() ==> !is_white_space(#[trigger] b[k]),
        forall|k: int| 0 <= k < c.len() ==> !is_white_space(#[trigger] c[k]),
    ensures
        words(a + seq![' '] + b + seq![' '] + c) == seq![a, b, c],
{
    let s = a + seq![' '] + b + seq![' '] + c;
    let n = a.len() as int;
    let m = n + 1 + b.len();
    assert forall|k: int| 0 <= k < n implies !is_white_space(#[trigger] s[k]) by {
        assert(s[k] == a[k]);
    }
    assert forall|k: int| n + 1 <= k < m implies !is_white_space(#[trigger] s[k]) by {
        assert(s[k] == b[k - n - 1]);
    }
    assert forall|k: int| m + 1 <= k < s.len() implies !is_white_space(#[trigger] s[k]) by {
        assert(s[k] == c[k - m - 1]);
    }
    assert(s[n] == ' ');
    assert(s[m] == ' ');
    lemma_words_from_word(s, 0, n);
    lemma_words_from_word(s, n + 1, m);
    lemma_words_from_word(s, m + 1, s.len() as int);
    assert(words_from(s, n) == words_from(s, n + 1));
    assert(words_from(s, m) == words_from(s, m + 1));
    assert(words_from(s, s.len() as int) =~= Seq::<Seq<char>>::empty());
    assert(s.subrange(0, n) =~= a);
    assert(s.subrange(n + 1, m) =~= b);
    assert(s.subrange(m + 1, s.len() as int) =~= c);
    assert(words(s) =~= seq![a, b, c]);
}

/// An 8-bit binary parameter reads back as its value.
proof fn lemma_binary_param(n: nat)
    requires
        n < 256,
    ensures
        binary_u8_spec(binary_digits(n, 8)) == Ok::<u8, Fault>(n as u8),
        forall|k: int| 0 <= k < 8 ==> !is_white_space(#[trigger] binary_digits(n, 8)[k]),
{
    let d = binary_digits(n, 8);
    lemma_binary_digits(n, 8);
    lemma_utf8_len_bits(d);
    vstd::arithmetic::power2::lemma2_to64();
    vstd::arithmetic::div_mod::lemma_small_mod(n, 256);
    assert forall|k: int| 0 <= k < 8 implies !is_white_space(#[trigger] d[k]) by {
        assert(is_bit(d[k]));
    }
}

/// The text of a well-formed directive parses back to the same directive.
pub proof fn law_render_parse_roundtrip(d: PreprocessorDirective)
    requires
        well_formed_directive(d),
    ensures
        parse_spec(render_spec(d)) == Ok::<PreprocessorDirective, Fault>(d),
{
    match d {
        PreprocessorDirective::ReplaceChars(zero, one) => {
            let z = ((zero as u32) % 256) as nat;
            let o = ((one as u32) % 256) as nat;
            lemma_binary_param(z);
            lemma_binary_param(o);
            let a = seq!['/', '0', '0'];
            assert(seq!['/', '0', '0', ' '] =~= a + seq![' ']);
            lemma_words_three(a, binary_digits(z, 8), binary_digits(o, 8));
            assert(render_spec(d) =~= a + seq![' '] + binary_digits(z, 8) + seq![' ']
                + binary_digits(o, 8));
            assert(words(render_spec(d))[0] == word3('/', '0', '0'));
            assert(ascii_char_spec(binary_digits(z, 8)) == Ok::<char, Fault>(zero));
            assert(ascii_char_spec(binary_digits(o, 8)) == Ok::<char, Fault>(one));
        },
        PreprocessorDirective::SetBitWidth(width) => {
            lemma_binary_param(width as nat);
            let a = seq!['/', '0', '1'];
            lemma_words_two(a, binary_digits(width as nat, 8));
            assert(render_spec(d) =~= a + seq![' '] + binary_digits(width as nat, 8));
            assert(words(render_spec(d))[0] == word3('/', '0', '1'));
            assert(words(render_spec(d))[0] != word3('/', '0', '0'));
        },
        PreprocessorDirective::Reserved => {
            let s = seq!['/', '1', '0'];
            assert forall|k: int| 0 <= k < 3 implies !is_white_space(#[trigger] s[k]) by {}
            lemma_words_from_word(s, 0, 3);
            assert(words_from(s, 3) =~= Seq::<Seq<char>>::empty());
            assert(s.subrange(0, 3) =~= s);
            assert(words(s) =~= seq![s]);
            assert(s != word3('/', '0', '0'));
            assert(s != word3('/', '0', '1'));
            assert(s == word3('/', '1', '0'));
        },
    }
}

/// Every directive that parses is well formed.
pub proof fn law_parsed_directive_well_formed(s: Seq<char>)
    ensures
        parse_spec(s) matches Ok(d) ==> well_formed_directive(d),
{
}

} // verus!
