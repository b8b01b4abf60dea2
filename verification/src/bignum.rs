//! Unbounded natural numbers, as the `num` crate computes them.

use num::BigUint;
use num::Integer;
use num::ToPrimitive;
use vstd::prelude::*;
use vstd::arithmetic::div_mod::*;
use vstd::arithmetic::power2::*;
use crate::digits;

verus! {

/// `num::BigUint`, an opaque value whose number is [`number`].
#[verifier::external_type_specification]
#[verifier::external_body]
pub struct ExBigUint(BigUint);

/// The natural number that a `BigUint` holds.
pub uninterp spec fn number(n: BigUint) -> nat;

/// The number whose binary digits are set where both arguments have them set.
pub open spec fn bit_and(a: nat, b: nat) -> nat
    decreases a,
{
    if a == 0 {
        0
    } else {
        let bit: nat = if a % 2 == 1 && b % 2 == 1 {
            1
        } else {
            0
        };
        bit + 2 * bit_and(a / 2, b / 2)
    }
}

/// ASCII digits `0` and `1`, at least one of them.
pub open spec fn is_binary_text(text: Seq<u8>) -> bool {
    &&& text.len() > 0
    &&& forall|i: int| 0 <= i < text.len() ==> (#[trigger] text[i] == 48 || text[i] == 49)
}

/// The digits that binary text, most significant digit first, spells: least significant first.
pub open spec fn binary_text_digits(text: Seq<u8>) -> Seq<u8> {
    Seq::new(text.len(), |i: int| (text[text.len() - 1 - i] - 48) as u8)
}

/// Binary text, most significant digit first, of digits given least significant first.
pub open spec fn binary_text(digits: Seq<u8>) -> Seq<u8> {
    Seq::new(digits.len(), |i: int| (digits[digits.len() - 1 - i] + 48) as u8)
}

/// `BigUint::from` of a `usize`: the same number.
#[verifier::external_body]
pub(crate) fn big_from(n: usize) -> (r: BigUint)
    ensures
        number(r) == n,
{
    BigUint::from(n)
}

/// `BigUint::clone`: the same number.
#[verifier::external_body]
pub(crate) fn big_clone(a: &BigUint) -> (r: BigUint)
    ensures
        number(r) == number(*a),
{
    a.clone()
}

/// `BigUint`'s `+`: the sum.
#[verifier::external_body]
pub(crate) fn big_sum(a: BigUint, b: BigUint) -> (r: BigUint)
    ensures
        number(r) == number(a) + number(b),
{
    a + b
}

/// `BigUint`'s `*`: the product.
#[verifier::external_body]
pub(crate) fn big_product(a: BigUint, b: BigUint) -> (r: BigUint)
    ensures
        number(r) == number(a) * number(b),
{
    a * b
}

/// `BigUint`'s `-`: the difference. It panics where that is negative.
#[verifier::external_body]
pub(crate) fn big_difference(a: BigUint, b: BigUint) -> (r: BigUint)
    requires
        number(b) <= number(a),
    ensures
        number(r) == number(a) - number(b),
{
    a - b
}

/// `BigUint`'s `<<`: the product with a power of two. The bound keeps the result far from what a
/// `Vec` can hold.
#[verifier::external_body]
pub(crate) fn big_shift_left(a: BigUint, count: usize) -> (r: BigUint)
    requires
        count <= 0xffff,
    ensures
        number(r) == number(a) * pow2(count as nat),
{
    a << count
}

/// `BigUint`'s `>>`: the quotient by a power of two.
#[verifier::external_body]
pub(crate) fn big_shift_right(a: BigUint, count: usize) -> (r: BigUint)
    ensures
        number(r) == number(a) / pow2(count as nat),
{
    a >> count
}

/// `BigUint`'s `&`: the common binary digits.
#[verifier::external_body]
pub(crate) fn big_and(a: BigUint, b: BigUint) -> (r: BigUint)
    ensures
        number(r) == bit_and(number(a), number(b)),
{
    a & b
}

/// `BigUint`'s `>`.
#[verifier::external_body]
pub(crate) fn big_greater(a: &BigUint, b: &BigUint) -> (r: bool)
    ensures
        r == (number(*a) > number(*b)),
{
    a > b
}

/// `BigUint`'s `==`.
#[verifier::external_body]
pub(crate) fn big_equal(a: &BigUint, b: &BigUint) -> (r: bool)
    ensures
        r == (number(*a) == number(*b)),
{
    a == b
}

/// `Integer::div_rem` of `BigUint`: quotient and remainder. It panics on a zero divisor.
#[verifier::external_body]
pub(crate) fn big_div_rem(a: &BigUint, b: &BigUint) -> (r: (BigUint, BigUint))
    requires
        number(*b) > 0,
    ensures
        number(r.0) == number(*a) / number(*b),
        number(r.1) == number(*a) % number(*b),
{
    a.div_rem(b)
}

/// `ToPrimitive::to_u8` of `BigUint`: the number where a `u8` can hold it, and `None` elsewhere.
#[verifier::external_body]
pub(crate) fn big_to_u8(a: &BigUint) -> (r: Option<u8>)
    ensures
        r is Some <==> number(*a) < 256,
        r is Some ==> r->0 == number(*a),
{
    a.to_u8()
}

/// `BigUint::to_bytes_le`: the bytes, least significant first. Zero has one byte; a positive
/// number has no zero byte on top.
#[verifier::external_body]
pub(crate) fn big_to_bytes_le(a: &BigUint) -> (r: Vec<u8>)
    ensures
        number(*a) == 0 ==> r@ == seq![0u8],
        number(*a) > 0 ==> r@ == digits::le_digits(number(*a), 256),
{
    a.to_bytes_le()
}

/// `BigUint::to_str_radix` with radix 2: the binary digits in ASCII, most significant first. Zero
/// has one digit; a positive number has no zero in front.
#[verifier::external_body]
pub(crate) fn big_to_binary(a: &BigUint) -> (r: Vec<u8>)
    ensures
        number(*a) == 0 ==> r@ == seq![48u8],
        number(*a) > 0 ==> r@ == binary_text(digits::le_digits(number(*a), 2)),
{
    a.to_str_radix(2).into_bytes()
}

/// `BigUint::parse_bytes` with radix 2, on text of plain binary digits: the number that they
/// spell.
#[verifier::external_body]
pub(crate) fn big_parse_binary(text: &Vec<u8>) -> (r: Option<BigUint>)
    requires
        is_binary_text(text@),
    ensures
        r is Some,
        number(r->0) == digits::le_value(binary_text_digits(text@), 2),
{
    BigUint::parse_bytes(text, 2)
}

/// With a mask of low ones, `&` is the remainder by a power of two.
pub proof fn lemma_and_low_ones(a: nat, k: nat)
    ensures
        bit_and(a, (pow2(k) - 1) as nat) == a % pow2(k),
    decreases k,
{
    lemma_pow2_pos(k);
    if k == 0 {
        lemma2_to64();
        lemma_and_zero(a);
    } else {
        lemma_pow2_unfold(k);
        let p = pow2((k - 1) as nat);
        let m = (pow2(k) - 1) as nat;
        assert(m == 2 * (p - 1) + 1);
        if a == 0 {
        } else {
            lemma_and_low_ones(a / 2, (k - 1) as nat);
            lemma_pow2_pos((k - 1) as nat);
            assert(m / 2 == p - 1 && m % 2 == 1);
            lemma_mod_breakdown(a as int, 2, p as int);
            lemma_mod_bound(a as int / 2, p as int);
        }
    }
}

/// With zero, `&` is zero.
pub proof fn lemma_and_zero(a: nat)
    ensures
        bit_and(a, 0) == 0,
    decreases a,
{
    if a > 0 {
        lemma_and_zero(a / 2);
    }
}

/// With a mask that is shifted up, `&` is that of the digits above, shifted up.
pub proof fn lemma_and_shifted(a: nat, mask: nat, k: nat)
    ensures
        bit_and(a, mask * pow2(k)) == bit_and(a / pow2(k), mask) * pow2(k),
    decreases k,
{
    lemma_pow2_pos(k);
    if k == 0 {
        lemma2_to64();
        lemma_div_basics(a as int);
        assert(mask * 1 == mask);
    } else {
        let p = pow2((k - 1) as nat);
        lemma_pow2_unfold(k);
        lemma_pow2_pos((k - 1) as nat);
        assert(pow2(k) == 2 * p);
        if a == 0 {
            lemma_div_of0(pow2(k) as int);
            assert(0 * pow2(k) == 0);
        } else {
            lemma_and_shifted(a / 2, mask, (k - 1) as nat);
            let m = mask * pow2(k);
            assert(m == 2 * (mask * p)) by (nonlinear_arith)
                requires
                    m == mask * (2 * p),
            ;
            assert(m / 2 == mask * p && m % 2 == 0);
            lemma_div_denominator(a as int, 2, p as int);
            assert((a / 2) / p == a / pow2(k));
            let c = bit_and(a / pow2(k), mask);
            assert(c * (2 * p) == 2 * (c * p)) by (nonlinear_arith);
            assert(bit_and(a, m) == 2 * bit_and(a / 2, m / 2));
        }
    }
}

} // verus!
