//! Arithmetic modulo the order of the scalar field, stated over the natural
//! numbers that scalars and group elements stand for.

use vstd::arithmetic::div_mod::lemma_add_mod_noop;
use vstd::arithmetic::div_mod::lemma_mod_bound;
use vstd::arithmetic::div_mod::lemma_mod_twice;
use vstd::arithmetic::div_mod::lemma_mul_mod_noop;
use vstd::arithmetic::div_mod::lemma_small_mod;
use vstd::prelude::*;

verus! {

/// The integer that a byte string denotes in little-endian order.
pub open spec fn le_value(bytes: Seq<u8>) -> nat
    decreases bytes.len(),
{
    if bytes.len() == 0 {
        0
    } else {
        (bytes[0] as nat) + 256 * le_value(bytes.drop_first())
    }
}

/// Whether `y` is the inverse of `a` modulo `n`.
pub open spec fn is_inverse(a: nat, y: nat, n: nat) -> bool {
    y < n && (y * a) % n == 1
}

/// The inverse of `a` modulo `n`, where it has one.
pub open spec fn mod_inverse(a: nat, n: nat) -> nat {
    choose|y: nat| is_inverse(a, y, n)
}

/// `x` raised to the power `k`.
pub open spec fn power(x: nat, k: nat) -> nat
    decreases k,
{
    if k == 0 {
        1
    } else {
        x * power(x, (k - 1) as nat)
    }
}

/// The value at `x` of the polynomial with the given coefficients, constant
/// term first.
pub open spec fn poly_eval(coefficients: Seq<nat>, x: nat) -> nat
    decreases coefficients.len(),
{
    if coefficients.len() == 0 {
        0
    } else {
        coefficients[0] + x * poly_eval(coefficients.drop_first(), x)
    }
}

/// The sum of the coefficients, each times the power of `x` at its place.
pub open spec fn power_sum(coefficients: Seq<nat>, x: nat) -> nat
    decreases coefficients.len(),
{
    if coefficients.len() == 0 {
        0
    } else {
        power_sum(coefficients.drop_last(), x) + coefficients.last() * power(
            x,
            (coefficients.len() - 1) as nat,
        )
    }
}

/// The number of times that `x` occurs among `xs`.
pub open spec fn occurrences(xs: Seq<nat>, x: nat) -> nat
    decreases xs.len(),
{
    if xs.len() == 0 {
        0
    } else if xs.last() == x {
        occurrences(xs.drop_last(), x) + 1
    } else {
        occurrences(xs.drop_last(), x)
    }
}

/// The numerator of the Lagrange coefficient of `x` over the points `xs`:
/// the product of the points other than `x`.
pub open spec fn lagrange_numerator(xs: Seq<nat>, x: nat) -> nat
    decreases xs.len(),
{
    if xs.len() == 0 {
        1
    } else if xs.last() == x {
        lagrange_numerator(xs.drop_last(), x)
    } else {
        lagrange_numerator(xs.drop_last(), x) * xs.last()
    }
}

/// The denominator of the Lagrange coefficient of `x` over the points `xs`
/// modulo `n`: the product of the differences between the points other than
/// `x` and `x`.
pub open spec fn lagrange_denominator(xs: Seq<nat>, x: nat, n: nat) -> nat
    decreases xs.len(),
{
    if xs.len() == 0 {
        1
    } else if xs.last() == x {
        lagrange_denominator(xs.drop_last(), x, n)
    } else {
        lagrange_denominator(xs.drop_last(), x, n) * ((xs.last() + n - x) as nat)
    }
}

/// The Lagrange coefficient at zero of the point `x` among the points `xs`,
/// modulo `n`: numerator over denominator.
pub open spec fn lagrange_coefficient(xs: Seq<nat>, x: nat, n: nat) -> nat {
    ((lagrange_numerator(xs, x) % n) * mod_inverse(lagrange_denominator(xs, x, n) % n, n)) % n
}

/// A number has at most one inverse below the modulus.
pub proof fn lemma_inverse_unique(a: nat, y1: nat, y2: nat, n: nat)
    requires
        is_inverse(a, y1, n),
        is_inverse(a, y2, n),
    ensures
        y1 == y2,
{
    // y1 = y1 * (a * y2) = (y1 * a) * y2 = y2, all modulo n
    assert(a * y2 == y2 * a) by (nonlinear_arith);
    assert(y1 * (a * y2) == (y1 * a) * y2) by (nonlinear_arith);
    lemma_mul_mod(y1, a * y2, n);
    lemma_mul_mod(y1 * a, y2, n);
    lemma_small_mod(y1, n);
    lemma_small_mod(y2, n);
    assert(y1 * 1 == y1);
    assert(1 * y2 == y2);
}

/// Whoever has an inverse of `a` has `mod_inverse(a, n)`.
pub proof fn lemma_inverse_is_mod_inverse(a: nat, y: nat, n: nat)
    requires
        is_inverse(a, y, n),
    ensures
        mod_inverse(a, n) == y,
{
    lemma_inverse_unique(a, mod_inverse(a, n), y, n);
}

/// Reducing the factors before a product does not change the product
/// modulo `n`.
pub proof fn lemma_mul_mod(a: nat, b: nat, n: nat)
    requires
        n > 0,
    ensures
        ((a % n) * (b % n)) % n == (a * b) % n,
        ((a % n) * b) % n == (a * b) % n,
        (a * (b % n)) % n == (a * b) % n,
{
    lemma_mul_mod_noop(a as int, b as int, n as int);
    vstd::arithmetic::div_mod::lemma_mul_mod_noop_left(a as int, b as int, n as int);
    vstd::arithmetic::div_mod::lemma_mul_mod_noop_right(a as int, b as int, n as int);
}

/// Reducing the terms before a sum does not change the sum modulo `n`.
pub proof fn lemma_add_mod(a: nat, b: nat, n: nat)
    requires
        n > 0,
    ensures
        ((a % n) + (b % n)) % n == (a + b) % n,
        ((a % n) + b) % n == (a + b) % n,
        (a + (b % n)) % n == (a + b) % n,
{
    lemma_add_mod_noop(a as int, b as int, n as int);
    vstd::arithmetic::div_mod::lemma_add_mod_noop_right(a as int, b as int, n as int);
    vstd::arithmetic::div_mod::lemma_add_mod_noop_right(b as int, a as int, n as int);
    lemma_mod_twice(a as int, n as int);
    lemma_mod_bound(a as int, n as int);
}

/// The power sum of a polynomial can be unfolded at its constant term.
pub proof fn lemma_power_sum_unfold(coefficients: Seq<nat>, x: nat)
    requires
        coefficients.len() > 0,
    ensures
        power_sum(coefficients, x) == coefficients[0] + x * power_sum(
            coefficients.drop_first(),
            x,
        ),
    decreases coefficients.len(),
{
    let len = coefficients.len();
    if len == 1 {
        assert(coefficients.drop_last() =~= Seq::<nat>::empty());
        assert(coefficients.drop_first() =~= Seq::<nat>::empty());
        assert(power(x, 0) == 1);
        assert(coefficients.last() * 1 == coefficients[0]);
        assert(x * 0 == 0);
    } else {
        let front = coefficients.drop_last();
        let tail = coefficients.drop_first();
        lemma_power_sum_unfold(front, x);
        assert(tail.drop_last() =~= front.drop_first());
        assert(tail.last() == coefficients.last());
        assert(front[0] == coefficients[0]);
        let last = coefficients.last();
        let inner = power_sum(front.drop_first(), x);
        let p = power(x, (len - 2) as nat);
        assert(power(x, (len - 1) as nat) == x * p);
        assert(x * (inner + last * p) == x * inner + last * (x * p)) by (nonlinear_arith);
    }
}

/// Evaluating a polynomial by Horner's rule gives the sum of its
/// coefficients times the powers of the argument.
pub proof fn lemma_poly_eval_is_power_sum(coefficients: Seq<nat>, x: nat)
    ensures
        poly_eval(coefficients, x) == power_sum(coefficients, x),
    decreases coefficients.len(),
{
    if coefficients.len() > 0 {
        lemma_poly_eval_is_power_sum(coefficients.drop_first(), x);
        lemma_power_sum_unfold(coefficients, x);
    }
}

} // verus!
