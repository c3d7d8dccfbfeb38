//! Lagrange interpolation at zero over a prime field: the coefficients
//! weigh the values of a polynomial so that its constant term comes out.

use vstd::arithmetic::div_mod::lemma_small_mod;
use vstd::prelude::*;

use crate::algebra::is_inverse;
use crate::algebra::lagrange_coefficient;
use crate::algebra::lagrange_denominator;
use crate::algebra::lagrange_numerator;
use crate::algebra::lemma_add_mod;
use crate::algebra::lemma_inverse_is_mod_inverse;
use crate::algebra::lemma_mul_mod;
use crate::algebra::lemma_poly_eval_is_power_sum;
use crate::algebra::poly_eval;
use crate::algebra::power;
use crate::algebra::power_sum;

verus! {

/// Whether `a` has an inverse modulo `n`.
pub open spec fn has_inverse(a: nat, n: nat) -> bool {
    exists|y: nat| is_inverse(a, y, n)
}

/// Whether the integers modulo `n` are a field: `n` is above one and every
/// integer between zero and `n` has an inverse. This is so exactly for the
/// primes.
pub open spec fn is_field_order(n: nat) -> bool {
    n > 1 && forall|a: nat| 0 < a < n ==> #[trigger] has_inverse(a, n)
}

/// Whether the points are below `n` and no two of them are the same.
pub open spec fn distinct_below(xs: Seq<nat>, n: nat) -> bool {
    &&& forall|i: int| 0 <= i < xs.len() ==> #[trigger] xs[i] < n
    &&& forall|i: int, j: int| 0 <= i < j < xs.len() ==> xs[i] != xs[j]
}

/// Products of congruent factors are congruent.
pub proof fn lemma_mul_congruent(a: nat, a2: nat, b: nat, b2: nat, n: nat)
    requires
        n > 0,
        a % n == a2 % n,
        b % n == b2 % n,
    ensures
        (a * b) % n == (a2 * b2) % n,
{
    lemma_mul_mod(a, b, n);
    lemma_mul_mod(a2, b2, n);
}

/// Sums of congruent terms are congruent.
pub proof fn lemma_add_congruent(a: nat, a2: nat, b: nat, b2: nat, n: nat)
    requires
        n > 0,
        a % n == a2 % n,
        b % n == b2 % n,
    ensures
        (a + b) % n == (a2 + b2) % n,
{
    lemma_add_mod(a, b, n);
    lemma_add_mod(a2, b2, n);
}

/// In a field, a product is zero only where a factor is.
pub proof fn lemma_no_zero_divisors(a: nat, b: nat, n: nat)
    requires
        is_field_order(n),
        (a * b) % n == 0,
    ensures
        a % n == 0 || b % n == 0,
{
    if a % n != 0 {
        let r = a % n;
        assert(has_inverse(r, n));
        let y = choose|y: nat| is_inverse(r, y, n);
        // b = (y * a) * b = y * (a * b) = 0, all modulo n
        lemma_small_mod(1, n);
        lemma_small_mod(0, n);
        vstd::arithmetic::div_mod::lemma_mod_twice(a as int, n as int);
        lemma_mul_congruent(y * r, 1, b, b, n);
        assert(1 * b == b);
        lemma_mul_congruent(y, y, r, a, n);
        lemma_mul_congruent(y * r, y * a, b, b, n);
        assert((y * a) * b == y * (a * b)) by (nonlinear_arith);
        lemma_mul_congruent(y, y, a * b, 0, n);
        assert(y * 0 == 0);
    }
}

/// The inverse of a product is the product of the inverses.
pub proof fn lemma_inverse_of_product(a: nat, ya: nat, b: nat, yb: nat, n: nat)
    requires
        is_inverse(a, ya, n),
        is_inverse(b, yb, n),
    ensures
        is_inverse((a * b) % n, (ya * yb) % n, n),
{
    let p = (a * b) % n;
    let y = (ya * yb) % n;
    vstd::arithmetic::div_mod::lemma_mod_bound((ya * yb) as int, n as int);
    vstd::arithmetic::div_mod::lemma_mod_twice((ya * yb) as int, n as int);
    vstd::arithmetic::div_mod::lemma_mod_twice((a * b) as int, n as int);
    lemma_small_mod(1, n);
    lemma_mul_congruent(y, ya * yb, p, a * b, n);
    assert((ya * yb) * (a * b) == (ya * a) * (yb * b)) by (nonlinear_arith);
    lemma_mul_congruent(ya * a, 1, yb * b, 1, n);
    assert(1 * 1 == 1) by (nonlinear_arith);
}

/// The difference between two distinct points below `n` is not zero
/// modulo `n`.
pub proof fn lemma_difference_nonzero(a: nat, x: nat, n: nat)
    requires
        a < n,
        x < n,
        a != x,
    ensures
        ((a + n - x) as nat) % n != 0,
{
    if a > x {
        assert(((a + n - x) as nat) == (a - x) as nat + n);
        lemma_add_mod((a - x) as nat, n, n);
        vstd::arithmetic::div_mod::lemma_mod_self_0(n as int);
        lemma_small_mod((a - x) as nat, n);
    } else {
        lemma_small_mod((a + n - x) as nat, n);
    }
}

/// The denominator of a Lagrange coefficient over points below `n` is not
/// zero in the field.
pub proof fn lemma_denominator_nonzero(xs: Seq<nat>, x: nat, n: nat)
    requires
        is_field_order(n),
        x < n,
        forall|i: int| 0 <= i < xs.len() ==> #[trigger] xs[i] < n,
    ensures
        lagrange_denominator(xs, x, n) % n != 0,
    decreases xs.len(),
{
    if xs.len() == 0 {
        lemma_small_mod(1, n);
    } else {
        let front = xs.drop_last();
        assert forall|i: int| 0 <= i < front.len() implies #[trigger] front[i] < n by {
            assert(front[i] == xs[i]);
        }
        lemma_denominator_nonzero(front, x, n);
        if xs.last() != x {
            let d = (xs.last() + n - x) as nat;
            assert(xs[xs.len() - 1] < n);
            lemma_difference_nonzero(xs.last(), x, n);
            if (lagrange_denominator(front, x, n) * d) % n == 0 {
                lemma_no_zero_divisors(lagrange_denominator(front, x, n), d, n);
            }
        }
    }
}

/// A further point `a` multiplies the Lagrange coefficient of `x` by `a`
/// over the difference between `a` and `x`.
pub proof fn lemma_coefficient_extend(xs: Seq<nat>, x: nat, n: nat)
    requires
        is_field_order(n),
        xs.len() > 0,
        x < n,
        forall|i: int| 0 <= i < xs.len() ==> #[trigger] xs[i] < n,
        xs.last() != x,
    ensures
        (((xs.last() + n - x) as nat) * lagrange_coefficient(xs, x, n)) % n == (xs.last()
            * lagrange_coefficient(xs.drop_last(), x, n)) % n,
{
    let a = xs.last();
    let front = xs.drop_last();
    let d = (a + n - x) as nat;
    let num1 = lagrange_numerator(front, x);
    let den1 = lagrange_denominator(front, x, n);
    let num = lagrange_numerator(xs, x);
    let den = lagrange_denominator(xs, x, n);
    assert(num == num1 * a);
    assert(den == den1 * d);
    assert forall|i: int| 0 <= i < front.len() implies #[trigger] front[i] < n by {
        assert(front[i] == xs[i]);
    }
    assert(xs[xs.len() - 1] < n);
    lemma_denominator_nonzero(front, x, n);
    lemma_difference_nonzero(a, x, n);
    let dp = den1 % n;
    let dd = d % n;
    vstd::arithmetic::div_mod::lemma_mod_bound(den1 as int, n as int);
    vstd::arithmetic::div_mod::lemma_mod_bound(d as int, n as int);
    assert(has_inverse(dp, n));
    assert(has_inverse(dd, n));
    let yp = choose|y: nat| is_inverse(dp, y, n);
    let yd = choose|y: nat| is_inverse(dd, y, n);
    lemma_inverse_is_mod_inverse(dp, yp, n);
    lemma_inverse_of_product(dp, yp, dd, yd, n);
    lemma_mul_mod(den1, d, n);
    let y = (yp * yd) % n;
    lemma_inverse_is_mod_inverse(den % n, y, n);
    let full = lagrange_coefficient(xs, x, n);
    let part = lagrange_coefficient(front, x, n);
    assert(full == ((num % n) * y) % n);
    assert(part == ((num1 % n) * yp) % n);
    vstd::arithmetic::div_mod::lemma_mod_twice(num as int, n as int);
    vstd::arithmetic::div_mod::lemma_mod_twice(num1 as int, n as int);
    vstd::arithmetic::div_mod::lemma_mod_twice((yp * yd) as int, n as int);
    vstd::arithmetic::div_mod::lemma_mod_twice(((num % n) * y) as int, n as int);
    vstd::arithmetic::div_mod::lemma_mod_twice(((num1 % n) * yp) as int, n as int);
    vstd::arithmetic::div_mod::lemma_mod_twice(d as int, n as int);
    lemma_small_mod(1, n);
    // full is congruent to num * (yp * yd)
    lemma_mul_congruent(num % n, num, y, yp * yd, n);
    assert(full % n == (num * (yp * yd)) % n);
    lemma_mul_congruent(d, d, full, num * (yp * yd), n);
    assert(d * (num1 * a * (yp * yd)) == (yd * d) * (a * (num1 * yp))) by (nonlinear_arith);
    // yd * d is congruent to one
    lemma_mul_congruent(yd, yd, d, dd, n);
    lemma_mul_congruent(yd * d, 1, a * (num1 * yp), a * (num1 * yp), n);
    assert(1 * (a * (num1 * yp)) == a * (num1 * yp));
    // part is congruent to num1 * yp
    lemma_mul_congruent(num1 % n, num1, yp, yp, n);
    assert(part % n == (num1 * yp) % n);
    lemma_mul_congruent(a, a, part, num1 * yp, n);
}

/// The sum over the first `count` points of the `k`-th power of the point
/// times its Lagrange coefficient among all the points.
pub open spec fn moment(xs: Seq<nat>, k: nat, count: nat, n: nat) -> nat
    decreases count,
{
    if count == 0 {
        0
    } else {
        moment(xs, k, (count - 1) as nat, n) + power(xs[count - 1], k) * lagrange_coefficient(
            xs,
            xs[count - 1],
            n,
        )
    }
}

/// As `moment`, with every term multiplied by the difference between `a`
/// and its point.
pub open spec fn shifted_moment(xs: Seq<nat>, a: nat, k: nat, count: nat, n: nat) -> nat
    decreases count,
{
    if count == 0 {
        0
    } else {
        shifted_moment(xs, a, k, (count - 1) as nat, n) + (((a + n - xs[count - 1]) as nat)
            * power(xs[count - 1], k)) * lagrange_coefficient(xs, xs[count - 1], n)
    }
}

/// `a + n` times a moment is the shifted moment plus the next moment.
pub proof fn lemma_moment_shift(xs: Seq<nat>, a: nat, k: nat, count: nat, n: nat)
    requires
        count <= xs.len(),
        forall|i: int| 0 <= i < xs.len() ==> #[trigger] xs[i] < n,
    ensures
        (a + n) * moment(xs, k, count, n) == shifted_moment(xs, a, k, count, n) + moment(
            xs,
            k + 1,
            count,
            n,
        ),
    decreases count,
{
    if count == 0 {
        assert((a + n) * 0 == 0);
    } else {
        lemma_moment_shift(xs, a, k, (count - 1) as nat, n);
        let x = xs[count - 1];
        let p = power(x, k);
        let l = lagrange_coefficient(xs, x, n);
        let m0 = moment(xs, k, (count - 1) as nat, n);
        assert(power(x, k + 1) == x * p);
        assert(x < n);
        let d = (a + n - x) as nat;
        assert(d + x == a + n);
        assert((d + x) * (m0 + p * l) == (d + x) * m0 + (d * p) * l + (x * p) * l)
            by (nonlinear_arith);
    }
}

/// The shifted moment over all points but the last, which is `a`, is `a`
/// times the moment of those points among themselves.
pub proof fn lemma_shifted_moment(xs: Seq<nat>, k: nat, count: nat, n: nat)
    requires
        is_field_order(n),
        xs.len() > 0,
        count < xs.len(),
        distinct_below(xs, n),
    ensures
        shifted_moment(xs, xs.last(), k, count, n) % n == (xs.last() * moment(
            xs.drop_last(),
            k,
            count,
            n,
        )) % n,
    decreases count,
{
    let a = xs.last();
    let front = xs.drop_last();
    if count == 0 {
        assert(a * 0 == 0);
    } else {
        lemma_shifted_moment(xs, k, (count - 1) as nat, n);
        let x = xs[count - 1];
        assert(front[count - 1] == x);
        let p = power(x, k);
        let d = (a + n - x) as nat;
        let full = lagrange_coefficient(xs, x, n);
        let part = lagrange_coefficient(front, x, n);
        lemma_coefficient_extend(xs, x, n);
        assert((d * p) * full == p * (d * full)) by (nonlinear_arith);
        lemma_mul_congruent(p, p, d * full, a * part, n);
        assert(p * (a * part) == a * (p * part)) by (nonlinear_arith);
        let s0 = shifted_moment(xs, a, k, (count - 1) as nat, n);
        let m0 = moment(front, k, (count - 1) as nat, n);
        lemma_add_congruent(s0, a * m0, (d * p) * full, a * (p * part), n);
        assert(a * (m0 + p * part) == a * m0 + a * (p * part)) by (nonlinear_arith);
    }
}

/// The recurrence of the moments: with `a` the last point, `a` times a
/// moment is `a` times the moment of the other points among themselves,
/// plus the next moment.
pub proof fn lemma_moment_recurrence(xs: Seq<nat>, k: nat, n: nat)
    requires
        is_field_order(n),
        xs.len() > 0,
        distinct_below(xs, n),
    ensures
        (xs.last() * moment(xs, k, xs.len(), n)) % n == (xs.last() * moment(
            xs.drop_last(),
            k,
            (xs.len() - 1) as nat,
            n,
        ) + moment(xs, k + 1, xs.len(), n)) % n,
{
    let a = xs.last();
    let m = xs.len();
    let front = xs.drop_last();
    lemma_moment_shift(xs, a, k, m, n);
    lemma_shifted_moment(xs, k, (m - 1) as nat, n);
    // the term of the last point vanishes in the shifted moment
    let p = power(a, k);
    let l = lagrange_coefficient(xs, a, n);
    let s0 = shifted_moment(xs, a, k, (m - 1) as nat, n);
    assert(shifted_moment(xs, a, k, m, n) == s0 + (((a + n - a) as nat) * p) * l);
    assert((n * p) * l == n * (p * l)) by (nonlinear_arith);
    vstd::arithmetic::div_mod::lemma_mod_multiples_basic((p * l) as int, n as int);
    assert((n * (p * l)) % n == 0) by {
        assert(n * (p * l) == (p * l) * n) by (nonlinear_arith);
    }
    lemma_small_mod(0, n);
    lemma_add_congruent(s0, a * moment(front, k, (m - 1) as nat, n), n * (p * l), 0, n);
    let mk = moment(xs, k, m, n);
    let mk1 = moment(xs, k + 1, m, n);
    // (a + n) * mk is congruent to a * mk
    assert((a + n) * mk == a * mk + mk * n) by (nonlinear_arith);
    vstd::arithmetic::div_mod::lemma_mod_multiples_basic(mk as int, n as int);
    lemma_add_congruent(a * mk, a * mk, mk * n, 0, n);
    lemma_add_congruent(
        shifted_moment(xs, a, k, m, n),
        a * moment(front, k, (m - 1) as nat, n),
        mk1,
        mk1,
        n,
    );
}

/// The points with the last two exchanged.
pub open spec fn swap_last_two(xs: Seq<nat>) -> Seq<nat>
    recommends
        xs.len() >= 2,
{
    xs.drop_last().drop_last().push(xs.last()).push(xs[xs.len() - 2])
}

/// What a further point does to the numerator and the denominator of a
/// Lagrange coefficient.
proof fn lemma_products_push(base: Seq<nat>, v: nat, x: nat, n: nat)
    ensures
        lagrange_numerator(base.push(v), x) == (if v == x {
            lagrange_numerator(base, x)
        } else {
            lagrange_numerator(base, x) * v
        }),
        lagrange_denominator(base.push(v), x, n) == (if v == x {
            lagrange_denominator(base, x, n)
        } else {
            lagrange_denominator(base, x, n) * ((v + n - x) as nat)
        }),
{
    assert(base.push(v).drop_last() =~= base);
    assert(base.push(v).last() == v);
}

/// The Lagrange coefficients do not depend on the order of the last two
/// points.
pub proof fn lemma_coefficient_swap(xs: Seq<nat>, x: nat, n: nat)
    requires
        xs.len() >= 2,
    ensures
        lagrange_coefficient(swap_last_two(xs), x, n) == lagrange_coefficient(xs, x, n),
{
    let sw = swap_last_two(xs);
    let base = xs.drop_last().drop_last();
    let p = xs[xs.len() - 2];
    let q = xs.last();
    assert(xs =~= base.push(p).push(q));
    assert(sw =~= base.push(q).push(p));
    lemma_products_push(base, p, x, n);
    lemma_products_push(base.push(p), q, x, n);
    lemma_products_push(base, q, x, n);
    lemma_products_push(base.push(q), p, x, n);
    let nb = lagrange_numerator(base, x);
    let db = lagrange_denominator(base, x, n);
    assert(nb * p * q == nb * q * p) by (nonlinear_arith);
    assert(db * ((p + n - x) as nat) * ((q + n - x) as nat) == db * ((q + n - x) as nat) * ((p
        + n - x) as nat)) by (nonlinear_arith);
    assert(lagrange_numerator(sw, x) == lagrange_numerator(xs, x));
    assert(lagrange_denominator(sw, x, n) == lagrange_denominator(xs, x, n));
}

/// A moment over the first points does not depend on the order of the last
/// two points.
proof fn lemma_moment_swap_prefix(xs: Seq<nat>, k: nat, count: nat, n: nat)
    requires
        xs.len() >= 2,
        count <= xs.len() - 2,
    ensures
        moment(swap_last_two(xs), k, count, n) == moment(xs, k, count, n),
    decreases count,
{
    if count > 0 {
        lemma_moment_swap_prefix(xs, k, (count - 1) as nat, n);
        assert(swap_last_two(xs)[count - 1] == xs[count - 1]);
        lemma_coefficient_swap(xs, xs[count - 1], n);
    }
}

/// A moment over all the points does not depend on the order of the last
/// two points.
pub proof fn lemma_moment_swap(xs: Seq<nat>, k: nat, n: nat)
    requires
        xs.len() >= 2,
    ensures
        moment(swap_last_two(xs), k, xs.len(), n) == moment(xs, k, xs.len(), n),
{
    let sw = swap_last_two(xs);
    let m = xs.len();
    lemma_moment_swap_prefix(xs, k, (m - 2) as nat, n);
    lemma_coefficient_swap(xs, xs[m - 1], n);
    lemma_coefficient_swap(xs, xs[m - 2], n);
    assert(sw[m - 1] == xs[m - 2]);
    assert(sw[m - 2] == xs[m - 1]);
    assert(moment(sw, k, m, n) == moment(sw, k, (m - 1) as nat, n) + power(sw[m - 1], k)
        * lagrange_coefficient(sw, sw[m - 1], n));
    assert(moment(sw, k, (m - 1) as nat, n) == moment(sw, k, (m - 2) as nat, n) + power(
        sw[m - 2],
        k,
    ) * lagrange_coefficient(sw, sw[m - 2], n));
    assert(moment(xs, k, m, n) == moment(xs, k, (m - 1) as nat, n) + power(xs[m - 1], k)
        * lagrange_coefficient(xs, xs[m - 1], n));
    assert(moment(xs, k, (m - 1) as nat, n) == moment(xs, k, (m - 2) as nat, n) + power(
        xs[m - 2],
        k,
    ) * lagrange_coefficient(xs, xs[m - 2], n));
}

/// A common term can be cancelled from a congruence.
pub proof fn lemma_cancel_add(u: nat, v: nat, w: nat, n: nat)
    requires
        n > 0,
        (u + w) % n == (v + w) % n,
    ensures
        u % n == v % n,
{
    vstd::arithmetic::div_mod::lemma_mod_equivalence((u + w) as int, (v + w) as int, n as int);
    vstd::arithmetic::div_mod::lemma_mod_equivalence(u as int, v as int, n as int);
}

/// The moments of the Lagrange coefficients: the coefficients add up to
/// one, and weighted by a power of their points, below the number of points,
/// they add up to zero.
pub proof fn lemma_moments(xs: Seq<nat>, k: nat, n: nat)
    requires
        is_field_order(n),
        distinct_below(xs, n),
        k < xs.len(),
    ensures
        moment(xs, k, xs.len(), n) % n == (if k == 0 {
            1nat
        } else {
            0nat
        }),
    decreases xs.len(), k,
{
    let m = xs.len();
    lemma_small_mod(1, n);
    lemma_small_mod(0, n);
    if m == 1 {
        let x = xs[0];
        assert(xs =~= Seq::<nat>::empty().push(x));
        lemma_products_push(Seq::<nat>::empty(), x, x, n);
        assert(lagrange_numerator(xs, x) == 1);
        assert(lagrange_denominator(xs, x, n) == 1);
        assert(is_inverse(1, 1, n)) by {
            assert(1 * 1 == 1) by (nonlinear_arith);
        }
        lemma_inverse_is_mod_inverse(1, 1, n);
        assert(lagrange_coefficient(xs, x, n) == 1) by {
            assert(1 * 1 == 1) by (nonlinear_arith);
        }
        assert(moment(xs, 0, 0, n) == 0);
        assert(power(x, 0) == 1);
        assert(moment(xs, 0, 1, n) == 0 + power(x, 0) * lagrange_coefficient(xs, x, n));
    } else {
        let a = xs.last();
        let front = xs.drop_last();
        assert(distinct_below(front, n)) by {
            assert forall|i: int| 0 <= i < front.len() implies #[trigger] front[i] < n by {
                assert(front[i] == xs[i]);
            }
            assert forall|i: int, j: int| 0 <= i < j < front.len() implies front[i]
                != front[j] by {
                assert(front[i] == xs[i] && front[j] == xs[j]);
            }
        }
        if k == 0 {
            let sw = swap_last_two(xs);
            let c = xs[m - 2];
            assert(sw.last() == c);
            let front2 = sw.drop_last();
            assert(front2 =~= xs.drop_last().drop_last().push(a));
            assert(distinct_below(sw, n)) by {
                assert forall|i: int| 0 <= i < sw.len() implies #[trigger] sw[i] < n by {
                    if i < m - 2 {
                        assert(sw[i] == xs[i]);
                    } else if i == m - 2 {
                        assert(sw[i] == xs[m - 1]);
                    } else {
                        assert(sw[i] == xs[m - 2]);
                    }
                }
                assert forall|i: int, j: int| 0 <= i < j < sw.len() implies sw[i] != sw[j] by {
                    let si = if i < m - 2 {
                        i
                    } else if i == m - 2 {
                        m - 1
                    } else {
                        m - 2
                    };
                    let sj = if j < m - 2 {
                        j
                    } else if j == m - 2 {
                        m - 1
                    } else {
                        m - 2
                    };
                    assert(sw[i] == xs[si] && sw[j] == xs[sj]);
                    if si < sj {
                        assert(xs[si] != xs[sj]);
                    } else {
                        assert(xs[sj] != xs[si]);
                    }
                }
            }
            assert(distinct_below(front2, n)) by {
                assert forall|i: int| 0 <= i < front2.len() implies #[trigger] front2[i] < n by {
                    assert(front2[i] == sw[i]);
                }
                assert forall|i: int, j: int| 0 <= i < j < front2.len() implies front2[i]
                    != front2[j] by {
                    assert(front2[i] == sw[i] && front2[j] == sw[j]);
                }
            }
            lemma_moments(front, 0, n);
            lemma_moments(front2, 0, n);
            lemma_moment_recurrence(xs, 0, n);
            lemma_moment_recurrence(sw, 0, n);
            lemma_moment_swap(xs, 0, n);
            lemma_moment_swap(xs, 1, n);
            let m0 = moment(xs, 0, m, n);
            let m1 = moment(xs, 1, m, n);
            let f1 = moment(front, 0, (m - 1) as nat, n);
            let f2 = moment(front2, 0, (m - 1) as nat, n);
            // a * m0 = a + m1 and c * m0 = c + m1, modulo n
            lemma_mul_congruent(a, a, f1, 1, n);
            lemma_mul_congruent(c, c, f2, 1, n);
            assert(a * 1 == a && c * 1 == c);
            lemma_add_congruent(a * f1, a, m1, m1, n);
            lemma_add_congruent(c * f2, c, m1, m1, n);
            assert((a * m0) % n == (a + m1) % n);
            assert((c * m0) % n == (c + m1) % n);
            // so a * m0 + c = c * m0 + a
            lemma_add_congruent(a * m0, a + m1, c, c, n);
            lemma_add_congruent(c * m0, c + m1, a, a, n);
            assert(a + m1 + c == c + m1 + a);
            assert((a * m0 + c) % n == (c * m0 + a) % n);
            // with d the difference of a and c: d * m0 = d
            let d = (a + n - c) as nat;
            assert(xs[m - 1] < n && xs[m - 2] < n);
            assert(xs[m - 2] != xs[m - 1]);
            lemma_difference_nonzero(a, c, n);
            assert(d * m0 + (c * m0 + c) == a * m0 + c + m0 * n) by (nonlinear_arith)
                requires
                    d + c == a + n,
            ;
            vstd::arithmetic::div_mod::lemma_mod_multiples_basic(m0 as int, n as int);
            lemma_add_congruent(a * m0 + c, c * m0 + a, m0 * n, 0, n);
            assert((d * m0 + (c * m0 + c)) % n == (c * m0 + a) % n);
            assert(d + (c * m0 + c) == c * m0 + a + n);
            vstd::arithmetic::div_mod::lemma_mod_self_0(n as int);
            lemma_add_congruent(c * m0 + a, c * m0 + a, n, 0, n);
            assert((d + (c * m0 + c)) % n == (c * m0 + a) % n);
            lemma_cancel_add(d * m0, d, c * m0 + c, n);
            // cancel d
            let dd = d % n;
            vstd::arithmetic::div_mod::lemma_mod_bound(d as int, n as int);
            assert(has_inverse(dd, n));
            let yd = choose|y: nat| is_inverse(dd, y, n);
            vstd::arithmetic::div_mod::lemma_mod_twice(d as int, n as int);
            lemma_mul_congruent(yd, yd, d, dd, n);
            lemma_mul_congruent(yd, yd, d * m0, d, n);
            assert(yd * (d * m0) == (yd * d) * m0) by (nonlinear_arith);
            lemma_mul_congruent(yd * d, 1, m0, m0, n);
            assert(1 * m0 == m0);
        } else {
            let j = (k - 1) as nat;
            lemma_moments(xs, j, n);
            lemma_moments(front, j, n);
            lemma_moment_recurrence(xs, j, n);
            let mj = moment(xs, j, m, n);
            let mk = moment(xs, k, m, n);
            let fj = moment(front, j, (m - 1) as nat, n);
            let unit: nat = if j == 0 {
                1
            } else {
                0
            };
            lemma_small_mod(unit, n);
            lemma_mul_congruent(a, a, mj, unit, n);
            lemma_mul_congruent(a, a, fj, unit, n);
            lemma_add_congruent(a * fj, a * unit, mk, mk, n);
            // a * unit = a * unit + mk, so mk vanishes
            assert((a * unit + 0) % n == (a * unit + mk) % n);
            assert((0 + a * unit) % n == (mk + a * unit) % n);
            lemma_cancel_add(0, mk, a * unit, n);
        }
    }
}

/// The sum over the first `count` points of the value at the point times
/// the Lagrange coefficient of the point among all the points.
pub open spec fn interpolation_sum(ids: Seq<nat>, values: Seq<nat>, count: nat, n: nat) -> nat
    decreases count,
{
    if count == 0 {
        0
    } else {
        interpolation_sum(ids, values, (count - 1) as nat, n) + lagrange_coefficient(
            ids,
            ids[count - 1],
            n,
        ) * values[count - 1]
    }
}

/// The sum of the coefficients of a polynomial, each times the moment of
/// its power.
pub open spec fn moment_combination(xs: Seq<nat>, cs: Seq<nat>, count: nat, n: nat) -> nat
    decreases cs.len(),
{
    if cs.len() == 0 {
        0
    } else {
        moment_combination(xs, cs.drop_last(), count, n) + cs.last() * moment(
            xs,
            (cs.len() - 1) as nat,
            count,
            n,
        )
    }
}

proof fn lemma_combination_empty(xs: Seq<nat>, cs: Seq<nat>, n: nat)
    ensures
        moment_combination(xs, cs, 0, n) == 0,
    decreases cs.len(),
{
    if cs.len() > 0 {
        lemma_combination_empty(xs, cs.drop_last(), n);
        assert(cs.last() * 0 == 0);
    }
}

proof fn lemma_combination_step(xs: Seq<nat>, cs: Seq<nat>, count: nat, n: nat)
    requires
        0 < count <= xs.len(),
    ensures
        moment_combination(xs, cs, count, n) == moment_combination(
            xs,
            cs,
            (count - 1) as nat,
            n,
        ) + power_sum(cs, xs[count - 1]) * lagrange_coefficient(xs, xs[count - 1], n),
    decreases cs.len(),
{
    let x = xs[count - 1];
    let l = lagrange_coefficient(xs, x, n);
    if cs.len() == 0 {
        assert(0 * l == 0);
    } else {
        let front = cs.drop_last();
        lemma_combination_step(xs, front, count, n);
        let c = cs.last();
        let k = (cs.len() - 1) as nat;
        let before = moment(xs, k, (count - 1) as nat, n);
        let p = power(x, k);
        let s = power_sum(front, x);
        assert(c * (before + p * l) + s * l == c * before + (s + c * p) * l) by (nonlinear_arith);
    }
}

/// Interpolating the values of a polynomial is combining the moments by
/// its coefficients.
proof fn lemma_interpolation_is_combination(
    xs: Seq<nat>,
    values: Seq<nat>,
    cs: Seq<nat>,
    count: nat,
    n: nat,
)
    requires
        n > 0,
        count <= xs.len(),
        forall|i: int| 0 <= i < count ==> (#[trigger] values[i]) % n == power_sum(cs, xs[i]) % n,
    ensures
        interpolation_sum(xs, values, count, n) % n == moment_combination(xs, cs, count, n) % n,
    decreases count,
{
    if count == 0 {
        lemma_combination_empty(xs, cs, n);
    } else {
        lemma_interpolation_is_combination(xs, values, cs, (count - 1) as nat, n);
        lemma_combination_step(xs, cs, count, n);
        let x = xs[count - 1];
        let l = lagrange_coefficient(xs, x, n);
        let v = values[count - 1];
        let s = power_sum(cs, x);
        lemma_mul_congruent(l, l, v, s, n);
        assert(l * s == s * l) by (nonlinear_arith);
        lemma_add_congruent(
            interpolation_sum(xs, values, (count - 1) as nat, n),
            moment_combination(xs, cs, (count - 1) as nat, n),
            l * v,
            s * l,
            n,
        );
    }
}

/// Combined by the coefficients of a polynomial with no more coefficients
/// than there are points, the moments give the constant term.
proof fn lemma_combination_value(xs: Seq<nat>, cs: Seq<nat>, n: nat)
    requires
        is_field_order(n),
        distinct_below(xs, n),
        0 < cs.len() <= xs.len(),
    ensures
        moment_combination(xs, cs, xs.len(), n) % n == cs[0] % n,
    decreases cs.len(),
{
    let m = xs.len();
    let k = (cs.len() - 1) as nat;
    let c = cs.last();
    lemma_moments(xs, k, n);
    lemma_small_mod(0, n);
    lemma_small_mod(1, n);
    if cs.len() == 1 {
        assert(cs.drop_last() =~= Seq::<nat>::empty());
        assert(moment_combination(xs, cs.drop_last(), m, n) == 0);
        lemma_mul_congruent(c, c, moment(xs, 0, m, n), 1, n);
        assert(c * 1 == c);
    } else {
        lemma_combination_value(xs, cs.drop_last(), n);
        assert(cs.drop_last()[0] == cs[0]);
        lemma_mul_congruent(c, c, moment(xs, k, m, n), 0, n);
        assert(c * 0 == 0);
        lemma_add_congruent(
            moment_combination(xs, cs.drop_last(), m, n),
            cs[0],
            c * moment(xs, k, m, n),
            0,
            n,
        );
    }
}

/// The values of a polynomial at the points, reduced modulo `n`.
pub open spec fn values_at(polynomial: Seq<nat>, ids: Seq<nat>, n: nat) -> Seq<nat> {
    Seq::new(ids.len(), |i: int| poly_eval(polynomial, ids[i]) % n)
}

/// Lagrange interpolation at zero: weighted by the Lagrange coefficients of
/// their points, the values of a polynomial at distinct points, no fewer
/// than it has coefficients, add up to its constant term.
pub proof fn lemma_interpolation_at_zero(ids: Seq<nat>, polynomial: Seq<nat>, n: nat)
    requires
        is_field_order(n),
        distinct_below(ids, n),
        0 < polynomial.len() <= ids.len(),
    ensures
        interpolation_sum(ids, values_at(polynomial, ids, n), ids.len(), n) % n == polynomial[0]
            % n,
{
    let values = values_at(polynomial, ids, n);
    assert forall|i: int| 0 <= i < ids.len() implies (#[trigger] values[i]) % n == power_sum(
        polynomial,
        ids[i],
    ) % n by {
        lemma_poly_eval_is_power_sum(polynomial, ids[i]);
        vstd::arithmetic::div_mod::lemma_mod_twice(
            poly_eval(polynomial, ids[i]) as int,
            n as int,
        );
    }
    lemma_interpolation_is_combination(ids, values, polynomial, ids.len(), n);
    lemma_combination_value(ids, polynomial, n);
}

} // verus!
