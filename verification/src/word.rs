//! Register values: unsigned integers of any size, held as base-2^32 digits.
//! The arithmetic on them is done by `num_bigint::BigUint`.

use num_bigint::{BigUint, ToBigUint};
use num_traits::Zero;
use vstd::arithmetic::power2::pow2;
use vstd::prelude::*;

verus! {

/// Value of little-endian base-2^32 digits.
pub open spec fn digits_value(d: Seq<u32>) -> nat
    decreases d.len(),
{
    if d.len() == 0 {
        0
    } else {
        d[0] as nat + 0x1_0000_0000 * digits_value(d.drop_first())
    }
}

/// Bitwise AND of two natural numbers.
pub open spec fn nat_and(a: nat, b: nat) -> nat
    decreases a,
{
    if a == 0 || b == 0 {
        0
    } else {
        2 * nat_and(a / 2, b / 2) + (if a % 2 == 1 && b % 2 == 1 {
            1nat
        } else {
            0nat
        })
    }
}

/// ASCII digit for a value below 36: `0`-`9`, then lower-case `a`-`z`.
pub open spec fn digit_char(d: nat) -> char {
    if d < 10 {
        (48 + d) as char
    } else {
        (87 + d) as char
    }
}

/// The digits of `n` in base `radix`, most significant first, with no
/// leading zero (`"0"` for zero).
pub open spec fn radix_string(n: nat, radix: nat) -> Seq<char>
    decreases n,
    when 2 <= radix
{
    if n < radix {
        seq![digit_char(n)]
    } else {
        proof {
            vstd::arithmetic::div_mod::lemma_div_decreases(n as int, radix as int);
        }
        radix_string(n / radix, radix).push(digit_char(n % radix))
    }
}

/// Value of an ASCII letter or digit as a digit (`a`/`A` is 10), 255 for
/// any other character.
pub open spec fn char_digit(c: char) -> nat {
    if '0' <= c <= '9' {
        (c as nat - 48) as nat
    } else if 'a' <= c <= 'z' {
        (c as nat - 87) as nat
    } else if 'A' <= c <= 'Z' {
        (c as nat - 55) as nat
    } else {
        255
    }
}

/// Digits of `s` in base `radix`, `_` being skipped; `None` when some other
/// character is not a digit below `radix`.
pub open spec fn digits_fold(s: Seq<char>, radix: nat) -> Option<nat>
    decreases s.len(),
{
    if s.len() == 0 {
        Some(0)
    } else {
        match digits_fold(s.drop_last(), radix) {
            None => None,
            Some(v) => if s.last() == '_' {
                Some(v)
            } else if char_digit(s.last()) < radix {
                Some(v * radix + char_digit(s.last()))
            } else {
                None
            },
        }
    }
}

/// `s` without one leading `+`, unless a second `+` follows it.
pub open spec fn strip_plus(s: Seq<char>) -> Seq<char> {
    if s.len() >= 1 && s[0] == '+' && !(s.len() >= 2 && s[1] == '+') {
        s.drop_first()
    } else {
        s
    }
}

/// The number that `BigUint::parse_bytes` reads from `s` in base `radix`.
pub open spec fn radix_parse(s: Seq<char>, radix: nat) -> Option<nat> {
    let t = strip_plus(s);
    if t.len() == 0 || t[0] == '_' {
        None
    } else {
        digits_fold(t, radix)
    }
}

/// An unsigned integer of any size.
pub struct Word {
    digits: Vec<u32>,
}

impl View for Word {
    type V = nat;

    closed spec fn view(&self) -> nat {
        digits_value(self.digits@)
    }
}

impl Word {
    /// Zero.
    pub fn zero() -> (r: Word)
        ensures
            r@ == 0,
    {
        Word { digits: Vec::new() }
    }

    /// One.
    pub fn one() -> (r: Word)
        ensures
            r@ == 1,
    {
        let mut digits: Vec<u32> = Vec::new();
        digits.push(1);
        assert(digits@.drop_first() =~= Seq::<u32>::empty());
        assert(digits_value(digits@.drop_first()) == 0);
        assert(digits_value(digits@) == 1);
        Word { digits }
    }

    /// A copy of the word.
    pub fn duplicate(&self) -> (r: Word)
        ensures
            r@ == self@,
    {
        let digits = self.digits.clone();
        assert(digits@ =~= self.digits@);
        Word { digits }
    }
}

/// `BigUint`'s `+`: the value of the result is the sum of the two values.
#[verifier::external_body]
pub(crate) fn big_add(a: &Word, b: &Word) -> (r: Word)
    ensures
        r@ == a@ + b@,
{
    Word { digits: (BigUint::new(a.digits.clone()) + BigUint::new(b.digits.clone())).to_u32_digits() }
}

/// `BigUint`'s `-`, which panics when `b` is larger than `a`: the value of the
/// result is the difference.
#[verifier::external_body]
pub(crate) fn big_sub(a: &Word, b: &Word) -> (r: Word)
    requires
        b@ <= a@,
    ensures
        r@ == a@ - b@,
{
    Word { digits: (BigUint::new(a.digits.clone()) - BigUint::new(b.digits.clone())).to_u32_digits() }
}

/// `BigUint`'s `<<`: the value is multiplied by `2^bits`.
#[verifier::external_body]
pub(crate) fn big_shl(a: &Word, bits: usize) -> (r: Word)
    ensures
        r@ == a@ * pow2(bits as nat),
{
    Word { digits: (BigUint::new(a.digits.clone()) << bits).to_u32_digits() }
}

/// `BigUint`'s `&`: the bitwise AND of the two values.
#[verifier::external_body]
pub(crate) fn big_and(a: &Word, b: &Word) -> (r: Word)
    ensures
        r@ == nat_and(a@, b@),
{
    Word { digits: (BigUint::new(a.digits.clone()) & BigUint::new(b.digits.clone())).to_u32_digits() }
}

/// `BigUint`'s `<`: compares the two values.
#[verifier::external_body]
pub(crate) fn big_lt(a: &Word, b: &Word) -> (r: bool)
    ensures
        r == (a@ < b@),
{
    BigUint::new(a.digits.clone()) < BigUint::new(b.digits.clone())
}

/// `Zero::is_zero` of `BigUint`: whether the value is zero.
#[verifier::external_body]
pub(crate) fn big_is_zero(a: &Word) -> (r: bool)
    ensures
        r == (a@ == 0),
{
    BigUint::new(a.digits.clone()).is_zero()
}

/// The first element of `BigUint::to_u64_digits`, 0 when there is none: the
/// value modulo 2^64.
#[verifier::external_body]
pub(crate) fn big_low_u64(a: &Word) -> (r: u64)
    ensures
        r == a@ % pow2(64),
{
    BigUint::new(a.digits.clone()).to_u64_digits().first().copied().unwrap_or(0)
}

/// `ToBigUint::to_biguint` of a `u64`: a word of the same value.
#[verifier::external_body]
pub(crate) fn big_from_u64(v: u64) -> (r: Word)
    ensures
        r@ == v,
{
    Word { digits: v.to_biguint().unwrap_or(BigUint::zero()).to_u32_digits() }
}

/// `BigUint::to_str_radix`: the digits of the value in base `radix`, lower
/// case, with no leading zero (`"0"` for zero).
#[verifier::external_body]
pub(crate) fn big_to_radix(a: &Word, radix: u32) -> (r: Vec<char>)
    requires
        2 <= radix <= 36,
    ensures
        r@ == radix_string(a@, radix as nat),
{
    BigUint::new(a.digits.clone()).to_str_radix(radix).chars().collect()
}

/// `BigUint::parse_bytes` on the UTF-8 bytes of `s`: an optional leading `+`,
/// then digits below `radix` in either case, with `_` allowed after the first
/// digit.
#[verifier::external_body]
pub(crate) fn big_parse_radix(s: &Vec<char>, radix: u32) -> (r: Option<Word>)
    requires
        2 <= radix <= 36,
    ensures
        match r {
            Some(w) => radix_parse(s@, radix as nat) == Some(w@),
            None => radix_parse(s@, radix as nat) is None,
        },
{
    let text: String = s.iter().collect();
    match BigUint::parse_bytes(text.as_bytes(), radix) {
        Some(b) => Some(Word { digits: b.to_u32_digits() }),
        None => None,
    }
}

/// ANDing with `2^k - 1` keeps the value modulo `2^k`.
pub proof fn lemma_and_low_mask(a: nat, k: nat)
    ensures
        nat_and(a, (pow2(k) - 1) as nat) == a % pow2(k),
    decreases k,
{
    vstd::arithmetic::power2::lemma_pow2_pos(k);
    if k == 0 {
        assert(pow2(0) == 1) by {
            vstd::arithmetic::power2::lemma2_to64();
        }
        assert(a % 1 == 0);
    } else {
        let m = pow2((k - 1) as nat);
        vstd::arithmetic::power2::lemma_pow2_unfold(k);
        vstd::arithmetic::power2::lemma_pow2_pos((k - 1) as nat);
        assert(pow2(k) == 2 * m);
        let b = (pow2(k) - 1) as nat;
        assert(b / 2 == m - 1);
        assert(b % 2 == 1);
        if a == 0 {
            assert(0nat % pow2(k) == 0);
        } else {
            lemma_and_low_mask(a / 2, (k - 1) as nat);
            vstd::arithmetic::div_mod::lemma_mod_breakdown(a as int, 2, m as int);
        }
    }
}

/// The digit character of `d` reads back as `d`.
pub proof fn lemma_digit_char(d: nat)
    requires
        d < 36,
    ensures
        char_digit(digit_char(d)) == d,
        digit_char(d) != '_',
        digit_char(d) != '+',
        digit_char(d) != '0' <==> d != 0,
        ('0' <= digit_char(d) <= '9') || ('a' <= digit_char(d) <= 'z'),
{
}

/// The digits of `n` read back as `n`.
pub proof fn lemma_radix_roundtrip(n: nat, radix: nat)
    requires
        2 <= radix <= 36,
    ensures
        digits_fold(radix_string(n, radix), radix) == Some(n),
        radix_string(n, radix).len() >= 1,
    decreases n,
{
    let s = radix_string(n, radix);
    if n < radix {
        lemma_digit_char(n);
        assert(s.drop_last() =~= Seq::<char>::empty());
        assert(digits_fold(s.drop_last(), radix) == Some(0nat));
        assert(0 * radix == 0);
    } else {
        vstd::arithmetic::div_mod::lemma_div_decreases(n as int, radix as int);
        lemma_radix_roundtrip(n / radix, radix);
        vstd::arithmetic::div_mod::lemma_fundamental_div_mod(n as int, radix as int);
        vstd::arithmetic::mul::lemma_mul_is_commutative(radix as int, (n / radix) as int);
        lemma_digit_char(n % radix);
        assert(s.drop_last() =~= radix_string(n / radix, radix));
        assert(s.last() == digit_char(n % radix));
        assert((n / radix) * radix + n % radix == n);
    }
}

/// The first digit of `n` is `0` only for zero, and no digit is `_` or `+`.
pub proof fn lemma_radix_first(n: nat, radix: nat)
    requires
        2 <= radix <= 36,
    ensures
        radix_string(n, radix).len() >= 1,
        radix_string(n, radix)[0] == '0' <==> n == 0,
        forall|i: int|
            0 <= i < radix_string(n, radix).len() ==> #[trigger] radix_string(n, radix)[i] != '_'
                && radix_string(n, radix)[i] != '+' && char_digit(radix_string(n, radix)[i])
                < radix && (('0' <= radix_string(n, radix)[i] <= '9') || ('a' <= radix_string(
                n,
                radix,
            )[i] <= 'z')),
    decreases n,
{
    let s = radix_string(n, radix);
    if n < radix {
        lemma_digit_char(n);
    } else {
        vstd::arithmetic::div_mod::lemma_div_decreases(n as int, radix as int);
        lemma_radix_first(n / radix, radix);
        lemma_digit_char(n % radix);
        let p = radix_string(n / radix, radix);
        assert(s == p.push(digit_char(n % radix)));
        assert(s[0] == p[0]);
        assert(n / radix != 0) by {
            vstd::arithmetic::div_mod::lemma_fundamental_div_mod(n as int, radix as int);
        }
        assert forall|i: int| 0 <= i < s.len() implies #[trigger] s[i] != '_' && s[i] != '+'
            && char_digit(s[i]) < radix && (('0' <= s[i] <= '9') || ('a' <= s[i] <= 'z')) by {
            if i < p.len() {
                assert(s[i] == p[i]);
            }
        }
    }
}

/// Fewer than `2^k` (`k >= 1`) has at most `k` binary digits.
pub proof fn lemma_binary_len(n: nat, k: nat)
    requires
        k >= 1,
        n < pow2(k),
    ensures
        radix_string(n, 2).len() <= k,
    decreases n,
{
    if n >= 2 {
        vstd::arithmetic::power2::lemma_pow2_unfold(k);
        if k == 1 {
            assert(pow2(1) == 2) by {
                vstd::arithmetic::power2::lemma2_to64();
            }
        }
        lemma_binary_len(n / 2, (k - 1) as nat);
    }
}

/// Fewer than `2^(4k)` (`k >= 1`) has at most `k` hexadecimal digits.
pub proof fn lemma_hex_len(n: nat, k: nat)
    requires
        k >= 1,
        n < pow2(4 * k),
    ensures
        radix_string(n, 16).len() <= k,
    decreases n,
{
    if n >= 16 {
        vstd::arithmetic::power2::lemma_pow2_adds(4, 4 * (k - 1) as nat);
        assert(pow2(4) == 16) by {
            vstd::arithmetic::power2::lemma2_to64();
        }
        if k == 1 {
            assert(n < 16);
        }
        assert(n / 16 < pow2(4 * (k - 1) as nat)) by {
            vstd::arithmetic::div_mod::lemma_div_is_ordered(n as int, (16 * pow2(4 * (k - 1) as nat) - 1) as int, 16);
            vstd::arithmetic::div_mod::lemma_div_multiples_vanish_fancy(pow2(4 * (k - 1) as nat) as int - 1, 15, 16);
        }
        lemma_hex_len(n / 16, (k - 1) as nat);
    }
}

} // verus!
