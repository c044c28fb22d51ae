//! The chord-and-tangent group law in affine coordinates on a short-Weierstrass
//! curve `y² = x³ + a·x + b` over the prime field of order `p`.
//!
//! Points are pairs of `BigInt` coordinates in `[0, p)`. Whether a point lies on the
//! curve is for the caller to ensure: the formulas below are evaluated as given.

use crate::bigint::{big_add, big_from_u32, big_mul, big_rem, big_sub, value_of};
use crate::field::{
    gcd, inverse, is_inverse, is_prime, lemma_inverse_exists, lemma_normalized_is_residue, lemma_prime_coprime,
    lemma_inverse_unique, lemma_trunc_rem, mod_inverse, normalize,
};
use num_bigint::BigInt;
use vstd::arithmetic::div_mod::{
    lemma_mod_bound, lemma_mod_equivalence, lemma_mod_multiples_basic, lemma_mod_sub_multiples_vanish, lemma_mod_twice,
    lemma_mul_mod_noop_general, lemma_small_mod, lemma_sub_mod_noop,
};
use vstd::prelude::*;

verus! {

/// The coordinates of a point, as integers.
pub open spec fn point_of(q: (BigInt, BigInt)) -> (int, int) {
    (value_of(q.0), value_of(q.1))
}

/// Both coordinates are canonical residues modulo `p`.
pub open spec fn is_field_point(p: int, q: (int, int)) -> bool {
    0 <= q.0 < p && 0 <= q.1 < p
}

/// The third intersection of the line of slope `lam` through `(x1, y1)` with the
/// curve, reflected across the x-axis; `x2` is the x-coordinate of the second point.
pub open spec fn third_point(p: int, lam: int, x1: int, y1: int, x2: int) -> (int, int) {
    let x3 = (lam * lam - x1 - x2) % p;
    (x3, (lam * (x1 - x3) - y1) % p)
}

/// Slope of the chord through two points with distinct x-coordinates.
pub open spec fn chord_slope(p: int, q1: (int, int), q2: (int, int)) -> int {
    ((q2.1 - q1.1) * inverse(q2.0 - q1.0, p)) % p
}

/// Slope of the tangent at a point, for the linear coefficient `a`.
pub open spec fn tangent_slope(p: int, a: int, q: (int, int)) -> int {
    ((3 * q.0 * q.0 + a) * inverse(2 * q.1, p)) % p
}

/// The sum of two points with distinct x-coordinates.
pub open spec fn sum_of(p: int, q1: (int, int), q2: (int, int)) -> (int, int) {
    third_point(p, chord_slope(p, q1, q2), q1.0, q1.1, q2.0)
}

/// The double of a point with a non-zero y-coordinate.
pub open spec fn double_of(p: int, a: int, q: (int, int)) -> (int, int) {
    third_point(p, tangent_slope(p, a, q), q.0, q.1, q.0)
}

/// Congruence modulo `m` is kept by products.
pub proof fn lemma_mul_congruent(a: int, b: int, c: int, d: int, m: int)
    requires
        m > 0,
        a % m == b % m,
        c % m == d % m,
    ensures
        (a * c) % m == (b * d) % m,
{
    lemma_mul_mod_noop_general(a, c, m);
    lemma_mul_mod_noop_general(b, d, m);
}

/// Congruence modulo `m` is kept by differences.
pub proof fn lemma_sub_congruent(a: int, b: int, c: int, d: int, m: int)
    requires
        m > 0,
        a % m == b % m,
        c % m == d % m,
    ensures
        (a - c) % m == (b - d) % m,
{
    lemma_sub_mod_noop(a, c, m);
    lemma_sub_mod_noop(b, d, m);
}

/// Evaluates `third_point` for a slope given up to a multiple of `p`, and returns
/// both coordinates in `[0, p)`.
fn line_third_point(p: &BigInt, lam: &BigInt, x1: &BigInt, y1: &BigInt, x2: &BigInt) -> (r: (
    BigInt,
    BigInt,
))
    requires
        value_of(*p) > 0,
    ensures
        point_of(r) == third_point(
            value_of(*p),
            value_of(*lam) % value_of(*p),
            value_of(*x1),
            value_of(*y1),
            value_of(*x2),
        ),
        is_field_point(value_of(*p), point_of(r)),
{
    let ghost n = value_of(*p);
    let ghost l = value_of(*lam);
    let lam2 = big_mul(lam, lam);
    let t = big_sub(&lam2, x1);
    let t = big_sub(&t, x2);
    let x = big_rem(&t, p);
    let dx = big_sub(x1, &x);
    let t = big_mul(lam, &dx);
    let t = big_sub(&t, y1);
    let y = big_rem(&t, p);
    let ghost (x1v, y1v, x2v) = (value_of(*x1), value_of(*y1), value_of(*x2));
    let ghost ls = l % n;
    let ghost x3 = (ls * ls - x1v - x2v) % n;
    proof {
        lemma_trunc_rem(l * l - x1v - x2v, n);
        lemma_mod_twice(l, n);
        lemma_mul_congruent(l, ls, l, ls, n);
        lemma_sub_congruent(l * l, ls * ls, x1v + x2v, x1v + x2v, n);
        assert(l * l - x1v - x2v == l * l - (x1v + x2v));
        assert(ls * ls - x1v - x2v == ls * ls - (x1v + x2v));
        let xr = value_of(x);
        lemma_mod_twice(ls * ls - x1v - x2v, n);
        lemma_sub_congruent(x1v, x1v, xr, x3, n);
        lemma_mul_congruent(l, ls, x1v - xr, x1v - x3, n);
        lemma_sub_congruent(l * (x1v - xr), ls * (x1v - x3), y1v, y1v, n);
        lemma_trunc_rem(l * (x1v - xr) - y1v, n);
        lemma_normalized_is_residue(xr, n);
        lemma_normalized_is_residue(value_of(y), n);
    }
    (normalize(x, p), normalize(y, p))
}

/// Proves that a non-zero difference of residues, or twice a non-zero residue modulo
/// an odd prime, is invertible.
proof fn lemma_invertible(d: int, p: int)
    requires
        is_prime(p),
        -p < d < p || (0 < d < 2 * p && p % 2 != 0 && d % 2 == 0),
        d != 0,
    ensures
        gcd((d % p) as nat, p as nat) == 1,
        is_inverse(d, p, inverse(d, p)),
{
    if -p < d < p {
        lemma_normalized_is_residue(d, p);
    } else if d >= p {
        lemma_mod_sub_multiples_vanish(d, p);
        lemma_small_mod((d - p) as nat, p as nat);
        assert(d - p != 0);
    } else {
        lemma_small_mod(d as nat, p as nat);
    }
    lemma_prime_coprime(d % p, p);
    lemma_inverse_exists(d, p);
}

/// The sum of two points whose x-coordinates differ, by the chord rule.
pub fn point_add(p: &BigInt, point_a: &(BigInt, BigInt), point_b: &(BigInt, BigInt)) -> (r: (
    BigInt,
    BigInt,
))
    requires
        is_prime(value_of(*p)),
        is_field_point(value_of(*p), point_of(*point_a)),
        is_field_point(value_of(*p), point_of(*point_b)),
        value_of(point_a.0) != value_of(point_b.0),
    ensures
        point_of(r) == sum_of(value_of(*p), point_of(*point_a), point_of(*point_b)),
        is_field_point(value_of(*p), point_of(r)),
{
    let ghost n = value_of(*p);
    let dy = big_sub(&point_b.1, &point_a.1);
    let dx = big_sub(&point_b.0, &point_a.0);
    proof {
        lemma_invertible(value_of(dx), n);
    }
    let inv = mod_inverse(&dx, p);
    let t = big_mul(&dy, &inv);
    let lam = big_rem(&t, p);
    proof {
        lemma_trunc_rem(value_of(t), n);
    }
    line_third_point(p, &lam, &point_a.0, &point_a.1, &point_b.0)
}

/// The double of a point whose y-coordinate is non-zero, by the tangent rule, on the
/// curve with linear coefficient `a`.
pub fn point_double(p: &BigInt, a: &BigInt, point: &(BigInt, BigInt)) -> (r: (BigInt, BigInt))
    requires
        is_prime(value_of(*p)),
        value_of(*p) > 2,
        is_field_point(value_of(*p), point_of(*point)),
        value_of(point.1) != 0,
    ensures
        point_of(r) == double_of(value_of(*p), value_of(*a), point_of(*point)),
        is_field_point(value_of(*p), point_of(r)),
{
    let ghost n = value_of(*p);
    let three = big_from_u32(3);
    let two = big_from_u32(2);
    let t = big_mul(&three, &point.0);
    let t = big_mul(&t, &point.0);
    let num = big_add(&t, a);
    let den = big_mul(&two, &point.1);
    proof {
        let y = value_of(point.1);
        assert(n % 2 != 0) by {
            assert(1 < 2 < n);
        }
        assert((2 * y) % 2 == 0) by {
            lemma_mod_multiples_basic(y, 2);
        }
        lemma_invertible(2 * y, n);
    }
    let inv = mod_inverse(&den, p);
    let t = big_mul(&num, &inv);
    let lam = big_rem(&t, p);
    proof {
        lemma_trunc_rem(value_of(t), n);
        assert(value_of(num) == 3 * value_of(point.0) * value_of(point.0) + value_of(*a));
    }
    line_third_point(p, &lam, &point.0, &point.1, &point.0)
}

/// Point addition is commutative: adding `q2` to `q1` gives the point that adding
/// `q1` to `q2` gives.
pub proof fn lemma_add_commutative(p: int, q1: (int, int), q2: (int, int))
    requires
        is_prime(p),
        is_field_point(p, q1),
        is_field_point(p, q2),
        q1.0 != q2.0,
    ensures
        sum_of(p, q1, q2) == sum_of(p, q2, q1),
{
    let (x1, y1) = q1;
    let (x2, y2) = q2;
    let d = x2 - x1;
    let i1 = inverse(d, p);
    let i2 = inverse(-d, p);
    lemma_invertible(d, p);
    lemma_invertible(-d, p);
    // the inverse of -d is -i1, reduced
    lemma_mul_mod_noop_general(-d, -i1, p);
    assert((-d) * (-i1) == d * i1) by (nonlinear_arith);
    lemma_mod_bound(-i1, p);
    lemma_inverse_unique(-d, p, (-i1) % p, i2);
    // so both slopes agree
    let l = chord_slope(p, q1, q2);
    lemma_mul_mod_noop_general(y1 - y2, -i1, p);
    assert((y1 - y2) * (-i1) == (y2 - y1) * i1) by (nonlinear_arith);
    assert(chord_slope(p, q2, q1) == l);
    // and the y-coordinates differ by l·(x1 - x2) - (y1 - y2) ≡ 0
    let x3 = sum_of(p, q1, q2).0;
    let ya = l * (x1 - x3) - y1;
    let yb = l * (x2 - x3) - y2;
    lemma_mod_twice((y2 - y1) * i1, p);
    lemma_mul_congruent(l, (y2 - y1) * i1, x1 - x2, x1 - x2, p);
    assert((y2 - y1) * i1 * (x1 - x2) == (y1 - y2) * (d * i1)) by (nonlinear_arith)
        requires
            d == x2 - x1,
    ;
    lemma_small_mod(1, p as nat);
    lemma_mul_congruent(y1 - y2, y1 - y2, d * i1, 1, p);
    lemma_mod_equivalence(l * (x1 - x2), y1 - y2, p);
    assert(ya - yb == l * (x1 - x2) - (y1 - y2)) by (nonlinear_arith)
        requires
            ya == l * (x1 - x3) - y1,
            yb == l * (x2 - x3) - y2,
    ;
    lemma_mod_equivalence(ya, yb, p);
}

} // verus!
