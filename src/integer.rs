//! Arbitrary-precision signed integers, held as a sign and base 2^32 digits.
//!
//! The arithmetic itself is done by `num_bigint`; this module converts to and
//! from its representation and states what each operation returns.

use vstd::prelude::*;
use num_bigint::{BigInt, Sign};
use vstd::arithmetic::power2::pow2;

verus! {

/// The numeric value of little-endian base 2^32 digits.
pub open spec fn digits_value(d: Seq<u32>) -> nat
    decreases d.len(),
{
    if d.len() == 0 {
        0
    } else {
        d[0] as nat + 4294967296 * digits_value(d.skip(1))
    }
}

/// An integer of any size: a sign and the magnitude's digits, least
/// significant first, with no zero digit on top and zero never negative.
#[derive(Clone, Debug, PartialEq, Eq, Hash)]
pub struct Integer {
    negative: bool,
    digits: Vec<u32>,
}

impl Integer {
    /// The canonical form: no zero digit on top, and zero is not negative.
    pub closed spec fn wf(&self) -> bool {
        &&& self.digits@.len() > 0 ==> self.digits@.last() != 0
        &&& self.digits@.len() == 0 ==> !self.negative
    }

    /// The mathematical integer this value stands for.
    pub closed spec fn value(&self) -> int {
        if self.negative {
            -digits_value(self.digits@)
        } else {
            digits_value(self.digits@) as int
        }
    }
}

/// The absolute value of `v`.
pub open spec fn magnitude(v: int) -> int {
    if v < 0 {
        -v
    } else {
        v
    }
}

/// Rust's `/` on integers: the quotient rounded toward zero.
pub open spec fn trunc_div(a: int, b: int) -> int {
    let q = magnitude(a) / magnitude(b);
    if (a < 0) == (b < 0) {
        q
    } else {
        -q
    }
}

/// Rust's `%` on integers: what is left after `trunc_div`, signed as `a`.
pub open spec fn trunc_rem(a: int, b: int) -> int {
    a - b * trunc_div(a, b)
}

/// The binary digits of `n`, most significant first; zero is one digit.
pub open spec fn binary_of(n: nat) -> Seq<int>
    decreases n,
{
    if n < 2 {
        seq![n as int]
    } else {
        binary_of(n / 2).push((n % 2) as int)
    }
}

/// The decimal digit character for `d < 10`.
pub open spec fn digit_char(d: nat) -> char {
    (d + 48) as char
}

/// The decimal digits of `n`, most significant first.
pub open spec fn decimal_of(n: nat) -> Seq<char>
    decreases n,
{
    if n < 10 {
        seq![digit_char(n)]
    } else {
        decimal_of(n / 10).push(digit_char(n % 10))
    }
}

/// The decimal text of `v`: a minus sign before negative values.
pub open spec fn int_text(v: int) -> Seq<char> {
    if v < 0 {
        seq!['-'] + decimal_of((-v) as nat)
    } else {
        decimal_of(v as nat)
    }
}

pub open spec fn is_digit(c: char) -> bool {
    '0' <= c && c <= '9'
}

/// One or more decimal digits, nothing else.
pub open spec fn all_digits(s: Seq<char>) -> bool {
    s.len() > 0 && forall|i: int| 0 <= i < s.len() ==> is_digit(#[trigger] s[i])
}

/// The number that a run of decimal digits spells.
pub open spec fn digits_number(s: Seq<char>) -> nat
    decreases s.len(),
{
    if s.len() == 0 {
        0
    } else {
        10 * digits_number(s.drop_last()) + ((s.last() as nat) - 48) as nat
    }
}

/// Decimal integer text: an optional minus sign and one or more digits.
pub open spec fn is_int_text(s: Seq<char>) -> bool {
    all_digits(s) || (s.len() > 0 && s[0] == '-' && all_digits(s.skip(1)))
}

/// The integer that `is_int_text` text spells.
pub open spec fn int_text_value(s: Seq<char>) -> int {
    if s.len() > 0 && s[0] == '-' {
        -digits_number(s.skip(1))
    } else {
        digits_number(s) as int
    }
}

proof fn lemma_digits_value_zero(d: Seq<u32>)
    requires
        forall|i: int| 0 <= i < d.len() ==> d[i] == 0,
    ensures
        digits_value(d) == 0,
    decreases d.len(),
{
    if d.len() > 0 {
        lemma_digits_value_zero(d.skip(1));
    }
}

proof fn lemma_digits_value_nonzero(d: Seq<u32>, i: int)
    requires
        0 <= i < d.len(),
        d[i] != 0,
    ensures
        digits_value(d) > 0,
    decreases d.len(),
{
    if i > 0 {
        lemma_digits_value_nonzero(d.skip(1), i - 1);
    }
}

proof fn lemma_low_digit(d: Seq<u32>, v: int)
    requires
        v == digits_value(d) || v == -digits_value(d),
        0 <= v <= 4294967295,
    ensures
        d.len() == 0 ==> v == 0,
        d.len() > 0 ==> v == d[0] as int,
{
    if d.len() > 0 {
        assert(digits_value(d) == d[0] as nat + 4294967296 * digits_value(d.skip(1)));
        if v == -digits_value(d) {
            assert(digits_value(d) == 0);
        }
        assert(digits_value(d.skip(1)) == 0);
    }
}

impl Integer {
    /// The integer `n`.
    pub fn from_u64(n: u64) -> (r: Integer)
        ensures
            r.value() == n as int,
            r.wf(),
    {
        let lo = (n % 4294967296) as u32;
        let hi = (n / 4294967296) as u32;
        let mut digits: Vec<u32> = Vec::new();
        if n != 0 {
            digits.push(lo);
            if hi != 0 {
                digits.push(hi);
            }
        }
        proof {
            reveal_with_fuel(digits_value, 3);
            assert(digits@.len() >= 1 ==> digits@.skip(1).len() == digits@.len() - 1);
            if digits@.len() == 2 {
                assert(digits@.skip(1).skip(1).len() == 0);
            }
        }
        Integer { negative: false, digits }
    }

    /// The integer `n`.
    pub fn from_i64(n: i64) -> (r: Integer)
        ensures
            r.value() == n as int,
            r.wf(),
    {
        let m: u64 = if n < 0 {
            (-(n as i128)) as u64
        } else {
            n as u64
        };
        let mag = Integer::from_u64(m);
        if n < 0 {
            mag.neg()
        } else {
            mag
        }
    }

    /// Zero.
    pub fn zero() -> (r: Integer)
        ensures
            r.value() == 0,
            r.wf(),
    {
        Integer::from_u64(0)
    }

    /// The same integer, as a separate value.
    pub fn copy(&self) -> (r: Integer)
        ensures
            r.value() == self.value(),
            r.wf() == self.wf(),
    {
        let digits = self.digits.clone();
        assert(digits@ =~= self.digits@);
        Integer { negative: self.negative, digits }
    }

    /// Whether the integer is zero.
    pub fn is_zero(&self) -> (r: bool)
        ensures
            r == (self.value() == 0),
    {
        let mut i: usize = 0;
        while i < self.digits.len()
            invariant
                i <= self.digits@.len(),
                forall|k: int| 0 <= k < i ==> self.digits@[k] == 0,
            decreases self.digits@.len() - i,
        {
            if self.digits[i] != 0 {
                proof {
                    lemma_digits_value_nonzero(self.digits@, i as int);
                }
                return false;
            }
            i += 1;
        }
        proof {
            lemma_digits_value_zero(self.digits@);
        }
        true
    }

    /// Whether the integer is below zero.
    pub fn is_negative(&self) -> (r: bool)
        ensures
            r == (self.value() < 0),
    {
        self.negative && !self.is_zero()
    }

    /// The integer with its sign turned over.
    pub fn neg(&self) -> (r: Integer)
        ensures
            r.value() == -self.value(),
            self.wf() ==> r.wf(),
    {
        let c = self.copy();
        let negative = if c.digits.len() == 0 {
            false
        } else {
            !c.negative
        };
        Integer { negative, digits: c.digits }
    }

    /// The integer as a `u32`, for values that fit.
    pub fn to_u32(&self) -> (r: u32)
        requires
            0 <= self.value() <= 4294967295,
        ensures
            r as int == self.value(),
    {
        proof {
            lemma_low_digit(self.digits@, self.value());
        }
        if self.digits.len() == 0 {
            0
        } else {
            self.digits[0]
        }
    }

    /// The absolute value.
    pub fn abs(&self) -> (r: Integer)
        ensures
            r.value() == magnitude(self.value()),
            self.wf() ==> r.wf(),
    {
        let c = self.copy();
        Integer { negative: false, digits: c.digits }
    }
}

/// Relies on `num_bigint`'s `BigInt` addition.
#[verifier::external_body]
pub(crate) fn int_add(a: &Integer, b: &Integer) -> (r: Integer)
    ensures
        r.value() == a.value() + b.value(),
        r.wf(),
{
    let x = BigInt::from_slice(if a.negative { Sign::Minus } else { Sign::Plus }, &a.digits);
    let y = BigInt::from_slice(if b.negative { Sign::Minus } else { Sign::Plus }, &b.digits);
    let (sign, digits) = (x + y).to_u32_digits();
    Integer { negative: sign == Sign::Minus, digits }
}

/// Relies on `num_bigint`'s `BigInt` subtraction.
#[verifier::external_body]
pub(crate) fn int_sub(a: &Integer, b: &Integer) -> (r: Integer)
    ensures
        r.value() == a.value() - b.value(),
        r.wf(),
{
    let x = BigInt::from_slice(if a.negative { Sign::Minus } else { Sign::Plus }, &a.digits);
    let y = BigInt::from_slice(if b.negative { Sign::Minus } else { Sign::Plus }, &b.digits);
    let (sign, digits) = (x - y).to_u32_digits();
    Integer { negative: sign == Sign::Minus, digits }
}

/// Relies on `num_bigint`'s `BigInt` multiplication.
#[verifier::external_body]
pub(crate) fn int_mul(a: &Integer, b: &Integer) -> (r: Integer)
    ensures
        r.value() == a.value() * b.value(),
        r.wf(),
{
    let x = BigInt::from_slice(if a.negative { Sign::Minus } else { Sign::Plus }, &a.digits);
    let y = BigInt::from_slice(if b.negative { Sign::Minus } else { Sign::Plus }, &b.digits);
    let (sign, digits) = (x * y).to_u32_digits();
    Integer { negative: sign == Sign::Minus, digits }
}

/// Relies on `num_bigint`'s `BigInt` division: the quotient rounds toward zero.
#[verifier::external_body]
pub(crate) fn int_div(a: &Integer, b: &Integer) -> (r: Integer)
    requires
        b.value() != 0,
    ensures
        r.value() == trunc_div(a.value(), b.value()),
        r.wf(),
{
    let x = BigInt::from_slice(if a.negative { Sign::Minus } else { Sign::Plus }, &a.digits);
    let y = BigInt::from_slice(if b.negative { Sign::Minus } else { Sign::Plus }, &b.digits);
    let (sign, digits) = (x / y).to_u32_digits();
    Integer { negative: sign == Sign::Minus, digits }
}

/// Relies on `num_bigint`'s `BigInt` remainder: signed as the dividend.
#[verifier::external_body]
pub(crate) fn int_rem(a: &Integer, b: &Integer) -> (r: Integer)
    requires
        b.value() != 0,
    ensures
        r.value() == trunc_rem(a.value(), b.value()),
        r.wf(),
{
    let x = BigInt::from_slice(if a.negative { Sign::Minus } else { Sign::Plus }, &a.digits);
    let y = BigInt::from_slice(if b.negative { Sign::Minus } else { Sign::Plus }, &b.digits);
    let (sign, digits) = (x % y).to_u32_digits();
    Integer { negative: sign == Sign::Minus, digits }
}

/// Relies on `num_bigint`'s `Ord` for `BigInt`: -1, 0 or 1 as `a` is below,
/// equal to or above `b`.
#[verifier::external_body]
pub(crate) fn int_cmp(a: &Integer, b: &Integer) -> (r: i8)
    ensures
        r == -1 <==> a.value() < b.value(),
        r == 0 <==> a.value() == b.value(),
        r == 1 <==> a.value() > b.value(),
{
    let x = BigInt::from_slice(if a.negative { Sign::Minus } else { Sign::Plus }, &a.digits);
    let y = BigInt::from_slice(if b.negative { Sign::Minus } else { Sign::Plus }, &b.digits);
    x.cmp(&y) as i8
}

/// Relies on `num_bigint`'s `BigInt::pow`: two to the power `e`.
#[verifier::external_body]
pub(crate) fn int_pow2(e: u32) -> (r: Integer)
    ensures
        r.value() == pow2(e as nat),
        r.wf(),
{
    let (sign, digits) = BigInt::from(2u32).pow(e).to_u32_digits();
    Integer { negative: sign == Sign::Minus, digits }
}

/// Relies on `num_bigint`'s `BigInt::to_radix_be` in base 2: the binary digits
/// of the magnitude, most significant first.
#[verifier::external_body]
pub(crate) fn int_binary(a: &Integer) -> (r: Vec<u8>)
    ensures
        r@.len() == binary_of(magnitude(a.value()) as nat).len(),
        forall|i: int| 0 <= i < r@.len() ==> r@[i] as int == #[trigger] binary_of(magnitude(a.value()) as nat)[i],
{
    let x = BigInt::from_slice(if a.negative { Sign::Minus } else { Sign::Plus }, &a.digits);
    x.to_radix_be(2).1
}

/// Relies on `num_bigint`'s `Display` for `BigInt`: decimal digits, with a
/// minus sign before negative values.
#[verifier::external_body]
pub(crate) fn int_to_text(a: &Integer) -> (r: String)
    ensures
        r@ == int_text(a.value()),
{
    let x = BigInt::from_slice(if a.negative { Sign::Minus } else { Sign::Plus }, &a.digits);
    x.to_string()
}

/// Relies on `num_bigint`'s `FromStr` for `BigInt`, which reads decimal
/// text with an optional minus sign; here the text is `cs[start..end]`.
#[verifier::external_body]
pub(crate) fn int_from_chars(cs: &Vec<char>, start: usize, end: usize) -> (r: Option<Integer>)
    requires
        start <= end <= cs@.len(),
        is_int_text(cs@.subrange(start as int, end as int)),
    ensures
        r is Some,
        r->0.value() == int_text_value(cs@.subrange(start as int, end as int)),
        r->0.wf(),
{
    let text: String = cs[start..end].iter().collect();
    let (sign, digits) = text.parse::<BigInt>().ok()?.to_u32_digits();
    Some(Integer { negative: sign == Sign::Minus, digits })
}

} // verus!
