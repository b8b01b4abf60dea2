//! Positional numerals: the value of a digit sequence and the digits of a value.

use vstd::prelude::*;
use vstd::arithmetic::power::*;
use vstd::arithmetic::div_mod::*;
use vstd::arithmetic::mul::*;

verus! {

/// The number that `digits` denotes in `base`, least significant digit first.
pub open spec fn le_value(digits: Seq<u8>, base: nat) -> nat
    decreases digits.len(),
{
    if digits.len() == 0 {
        0
    } else {
        digits[0] as nat + base * le_value(digits.drop_first(), base)
    }
}

/// The digits of `n` in `base`, least significant first and without a zero on top. Zero has no
/// digits.
pub open spec fn le_digits(n: nat, base: nat) -> Seq<u8>
    decreases n,
{
    if n == 0 || base < 2 {
        Seq::empty()
    } else {
        proof {
            lemma_div_decreases(n as int, base as int);
        }
        seq![(n % base) as u8] + le_digits(n / base, base)
    }
}

/// Every digit is a digit of `base`.
pub open spec fn digits_below(digits: Seq<u8>, base: nat) -> bool {
    forall|i: int| 0 <= i < digits.len() ==> (#[trigger] digits[i]) < base
}

/// The digits of a number are digits of the base, denote the number, and do not end in zero.
pub proof fn lemma_digits_denote(n: nat, base: nat)
    requires
        2 <= base <= 256,
    ensures
        digits_below(le_digits(n, base), base),
        le_value(le_digits(n, base), base) == n,
        n > 0 ==> le_digits(n, base).len() > 0 && le_digits(n, base).last() != 0,
    decreases n,
{
    if n > 0 {
        lemma_div_decreases(n as int, base as int);
        lemma_fundamental_div_mod(n as int, base as int);
        lemma_mod_bound(n as int, base as int);
        lemma_digits_denote(n / base, base);
        let d = le_digits(n, base);
        let rest = le_digits(n / base, base);
        assert(d.drop_first() =~= rest);
        if n / base == 0 {
            assert(base * (n / base) == 0) by {
                lemma_mul_basics(base as int);
            }
            assert(d.last() == d[0]);
        } else {
            assert(d.last() == rest.last());
        }
    }
}

/// A numeral without a zero on top is the one that its value has.
pub proof fn lemma_digits_of_value(digits: Seq<u8>, base: nat)
    requires
        2 <= base <= 256,
        digits_below(digits, base),
        digits.len() > 0 ==> digits.last() != 0,
    ensures
        le_digits(le_value(digits, base), base) == digits,
    decreases digits.len(),
{
    if digits.len() > 0 {
        let rest = digits.drop_first();
        let v = le_value(rest, base);
        assert(digits_below(rest, base)) by {
            assert forall|i: int| 0 <= i < rest.len() implies (#[trigger] rest[i]) < base by {
                assert(rest[i] == digits[i + 1]);
            }
        }
        lemma_digits_of_value(rest, base);
        assert(digits[0] < base);
        let n = le_value(digits, base);
        assert(n == digits[0] + base * v);
        lemma_fundamental_div_mod_converse(n as int, base as int, v as int, digits[0] as int);
        if rest.len() == 0 {
            assert(v == 0);
            assert(digits.last() == digits[0]);
        } else {
            assert(rest.last() == digits.last());
            if v == 0 {
                assert(le_digits(v, base).len() == 0);
            }
            lemma_mul_strictly_positive(base as int, v as int);
        }
        assert(n > 0);
        assert(le_digits(n, base) =~= digits);
    } else {
        assert(le_digits(0, base) =~= digits);
    }
}

/// A numeral of `k` digits denotes a number below the `k`-th power of the base.
pub proof fn lemma_value_bound(digits: Seq<u8>, base: nat)
    requires
        2 <= base,
        digits_below(digits, base),
    ensures
        le_value(digits, base) < pow(base as int, digits.len()),
    decreases digits.len(),
{
    if digits.len() == 0 {
        lemma_pow0(base as int);
    } else {
        let rest = digits.drop_first();
        assert forall|i: int| 0 <= i < rest.len() implies (#[trigger] rest[i]) < base by {
            assert(rest[i] == digits[i + 1]);
        }
        lemma_value_bound(rest, base);
        let v = le_value(rest, base) as int;
        let p = pow(base as int, rest.len());
        assert(pow(base as int, digits.len()) == base * p) by {
            reveal(pow);
        }
        assert(digits[0] < base);
        assert(base * (v + 1) <= base * p) by (nonlinear_arith)
            requires
                v + 1 <= p,
                base >= 0,
        ;
        assert(base * (v + 1) == base * v + base) by (nonlinear_arith);
    }
}

/// A digit on top weighs the power of the base that its position has.
pub proof fn lemma_value_push(digits: Seq<u8>, top: u8, base: nat)
    ensures
        le_value(digits.push(top), base) == le_value(digits, base) + top * pow(
            base as int,
            digits.len(),
        ),
    decreases digits.len(),
{
    let d = digits.push(top);
    if digits.len() == 0 {
        lemma_pow0(base as int);
        assert(d.drop_first() =~= Seq::empty());
        assert(le_value(d.drop_first(), base) == 0);
        assert(base * 0 == 0);
    } else {
        let rest = digits.drop_first();
        assert(d.drop_first() =~= rest.push(top));
        lemma_value_push(rest, top, base);
        let p = pow(base as int, rest.len());
        assert(pow(base as int, digits.len()) == base * p) by {
            reveal(pow);
        }
        let v = le_value(rest, base) as int;
        assert(base * (v + top * p) == base * v + top * (base * p)) by (nonlinear_arith);
    }
}

/// Numerals of one length that denote one number are equal.
pub proof fn lemma_value_injective(a: Seq<u8>, b: Seq<u8>, base: nat)
    requires
        2 <= base <= 256,
        a.len() == b.len(),
        digits_below(a, base),
        digits_below(b, base),
        le_value(a, base) == le_value(b, base),
    ensures
        a == b,
    decreases a.len(),
{
    if a.len() > 0 {
        let ra = a.drop_first();
        let rb = b.drop_first();
        assert forall|i: int| 0 <= i < ra.len() implies (#[trigger] ra[i]) < base by {
            assert(ra[i] == a[i + 1]);
        }
        assert forall|i: int| 0 <= i < rb.len() implies (#[trigger] rb[i]) < base by {
            assert(rb[i] == b[i + 1]);
        }
        let n = le_value(a, base) as int;
        assert(a[0] < base && b[0] < base);
        lemma_mul_is_commutative(base as int, le_value(ra, base) as int);
        lemma_mul_is_commutative(base as int, le_value(rb, base) as int);
        lemma_fundamental_div_mod_converse(
            n,
            base as int,
            le_value(ra, base) as int,
            a[0] as int,
        );
        lemma_fundamental_div_mod_converse(
            n,
            base as int,
            le_value(rb, base) as int,
            b[0] as int,
        );
        lemma_value_injective(ra, rb, base);
        assert forall|i: int| 0 <= i < a.len() implies a[i] == b[i] by {
            if i > 0 {
                assert(a[i] == ra[i - 1] && b[i] == rb[i - 1]);
            }
        }
    }
    assert(a =~= b);
}

/// How many digits a number has: at most `k` exactly if it is below the `k`-th power of the base.
pub proof fn lemma_digit_count(n: nat, base: nat, k: nat)
    requires
        2 <= base <= 256,
    ensures
        le_digits(n, base).len() <= k <==> n < pow(base as int, k),
    decreases k,
{
    if n == 0 {
        lemma_pow_positive(base as int, k);
    } else if k == 0 {
        lemma_pow0(base as int);
    } else {
        lemma_div_decreases(n as int, base as int);
        lemma_digit_count(n / base, base, (k - 1) as nat);
        let p = pow(base as int, (k - 1) as nat);
        assert(pow(base as int, k) == base * p) by {
            reveal(pow);
        }
        lemma_fundamental_div_mod(n as int, base as int);
        lemma_mod_bound(n as int, base as int);
        let q = (n / base) as int;
        assert(q < p <==> base * q + n % base < base * p) by (nonlinear_arith)
            requires
                0 <= n % base < base,
        ;
    }
}

/// Another digit at a position changes the value by the power of the base that the position has.
pub proof fn lemma_value_update(digits: Seq<u8>, at: int, digit: u8, base: nat)
    requires
        0 <= at < digits.len(),
    ensures
        le_value(digits.update(at, digit), base) == le_value(digits, base) + (digit - digits[at])
            * pow(base as int, at as nat),
    decreases digits.len(),
{
    let changed = digits.update(at, digit);
    let rest = digits.drop_first();
    let difference = digit - digits[at];
    if at == 0 {
        lemma_pow0(base as int);
        assert(changed.drop_first() =~= rest);
        assert(difference * 1 == difference);
    } else {
        assert(changed.drop_first() =~= rest.update(at - 1, digit));
        lemma_value_update(rest, at - 1, digit, base);
        let p = pow(base as int, (at - 1) as nat);
        assert(pow(base as int, at as nat) == base * p) by {
            reveal(pow);
        }
        let v = le_value(rest, base) as int;
        assert(base * (v + difference * p) == base * v + difference * (base * p))
            by (nonlinear_arith);
    }
}

/// A digit of a numeral, read off its value.
pub proof fn lemma_value_digit(digits: Seq<u8>, at: int, base: nat)
    requires
        2 <= base,
        digits_below(digits, base),
        0 <= at < digits.len(),
    ensures
        (le_value(digits, base) as int / pow(base as int, at as nat)) % (base as int)
            == digits[at],
    decreases digits.len(),
{
    let rest = digits.drop_first();
    let n = le_value(digits, base) as int;
    let v = le_value(rest, base) as int;
    assert(digits[0] < base);
    lemma_mul_is_commutative(base as int, v);
    lemma_fundamental_div_mod_converse(n, base as int, v, digits[0] as int);
    if at == 0 {
        lemma_pow0(base as int);
        lemma_div_basics(n);
    } else {
        assert forall|i: int| 0 <= i < rest.len() implies (#[trigger] rest[i]) < base by {
            assert(rest[i] == digits[i + 1]);
        }
        lemma_value_digit(rest, at - 1, base);
        let p = pow(base as int, (at - 1) as nat);
        assert(pow(base as int, at as nat) == base * p) by {
            reveal(pow);
        }
        lemma_pow_positive(base as int, (at - 1) as nat);
        lemma_div_denominator(n, base as int, p);
    }
}

} // verus!
