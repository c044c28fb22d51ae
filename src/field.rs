//! Arithmetic in the prime field: reduction into the canonical residue range and
//! multiplicative inversion by the extended Euclidean algorithm.

use crate::bigint::{
    big_add, big_clone, big_div, big_from_u32, big_lt, big_mul, big_rem, big_sub, trunc_rem,
    value_of,
};
use num_bigint::BigInt;
use vstd::arithmetic::div_mod::{
    lemma_fundamental_div_mod, lemma_mod_add_multiples_vanish, lemma_mod_bound, lemma_mod_equivalence,
    lemma_mod_multiples_basic, lemma_mod_multiples_vanish, lemma_mod_pos_bound, lemma_mod_twice,
    lemma_mod_self_0, lemma_mul_mod_noop_general, lemma_mul_mod_noop_left, lemma_small_mod,
};
use vstd::prelude::*;

verus! {

/// Greatest common divisor, by Euclid's recurrence.
pub open spec fn gcd(a: nat, b: nat) -> nat
    decreases b,
{
    if b == 0 {
        a
    } else {
        gcd(b, a % b)
    }
}

/// `r` is the inverse of `a` modulo `m` taken in the canonical range `[0, m)`.
pub open spec fn is_inverse(a: int, m: int, r: int) -> bool {
    0 <= r < m && (a * r) % m == 1
}

/// The inverse of `a` modulo `m` in `[0, m)`; it is unique when it exists.
pub open spec fn inverse(a: int, m: int) -> int {
    choose|r: int| is_inverse(a, m, r)
}

/// One conditional add of the modulus: brings a value of `(-p, p)` into `[0, p)`.
pub open spec fn normalized(v: int, p: int) -> int {
    if v < 0 {
        v + p
    } else {
        v
    }
}

/// `p` is a prime number.
pub open spec fn is_prime(p: int) -> bool {
    p > 1 && forall|d: int| 1 < d < p ==> #[trigger] (p % d) != 0
}

/// Bézout's identity: `gcd(a, b)` is an integer combination of `a` and `b`.
pub proof fn lemma_bezout(a: nat, b: nat) -> (c: (int, int))
    ensures
        c.0 * a + c.1 * b == gcd(a, b),
    decreases b,
{
    if b == 0 {
        assert(1 * a + 0 * b == a) by (nonlinear_arith);
        (1, 0)
    } else {
        let r = a % b;
        let q = a / b;
        lemma_fundamental_div_mod(a as int, b as int);
        let c = lemma_bezout(b, r);
        assert(c.1 * a + (c.0 - c.1 * q) * b == c.0 * b + c.1 * r) by (nonlinear_arith)
            requires
                a == b * q + r,
        ;
        (c.1, c.0 - c.1 * q)
    }
}

/// `gcd(a, b)` is positive and divides both arguments.
pub proof fn lemma_gcd_divides(a: nat, b: nat)
    requires
        a > 0 || b > 0,
    ensures
        gcd(a, b) > 0,
        a % gcd(a, b) == 0,
        b % gcd(a, b) == 0,
    decreases b,
{
    if b == 0 {
        lemma_mod_self_0(a as int);
        lemma_small_mod(0, a);
    } else {
        let g = gcd(a, b) as int;
        let r = a % b;
        let q = a / b;
        lemma_fundamental_div_mod(a as int, b as int);
        lemma_gcd_divides(b, r);
        lemma_multiple_combination(r as int, b as int, -q, g);
        assert(r - (-q) * b == a) by (nonlinear_arith)
            requires
                a == b * q + r,
        ;
    }
}

/// Below a prime `p`, every positive number is coprime to `p`.
pub proof fn lemma_prime_coprime(d: int, p: int)
    requires
        is_prime(p),
        0 < d < p,
    ensures
        gcd(d as nat, p as nat) == 1,
{
    let g = gcd(d as nat, p as nat) as int;
    lemma_gcd_divides(d as nat, p as nat);
    if g > d {
        lemma_small_mod(d as nat, g as nat);
    }
    if g > 1 {
        assert(p % g != 0);
    }
}

/// Modulo `m`, an integer coprime to `m` has an inverse in `[0, m)`.
pub proof fn lemma_inverse_exists(a: int, m: int)
    requires
        m > 1,
        gcd((a % m) as nat, m as nat) == 1,
    ensures
        is_inverse(a, m, inverse(a, m)),
{
    let b = a % m;
    lemma_mod_bound(a, m);
    let c = lemma_bezout(b as nat, m as nat);
    let s = c.0;
    let t = c.1;
    // b·s ≡ 1, hence a·(s mod m) ≡ 1
    assert(b * s - 1 == -(t * m)) by (nonlinear_arith)
        requires
            s * b + t * m == 1,
    ;
    lemma_mod_multiples_basic(-t, m);
    assert(-(t * m) == (-t) * m) by (nonlinear_arith);
    lemma_mod_equivalence(b * s, 1, m);
    lemma_small_mod(1, m as nat);
    lemma_mul_mod_noop_general(a, s, m);
    lemma_mod_bound(s, m);
    assert(is_inverse(a, m, s % m));
}

/// Absolute value.
pub open spec fn magnitude(x: int) -> int {
    if x < 0 {
        -x
    } else {
        x
    }
}

/// Multiples of `m` are closed under `s - q * t`.
proof fn lemma_multiple_combination(s: int, t: int, q: int, m: int)
    requires
        m > 0,
        s % m == 0,
        t % m == 0,
    ensures
        (s - q * t) % m == 0,
{
    lemma_fundamental_div_mod(s, m);
    lemma_fundamental_div_mod(t, m);
    let k = s / m - q * (t / m);
    assert(s - q * t == k * m) by (nonlinear_arith)
        requires
            s == m * (s / m),
            t == m * (t / m),
            k == s / m - q * (t / m),
    ;
    lemma_mod_multiples_basic(k, m);
}

/// One step of the extended Euclidean algorithm keeps the Bézout coefficients of
/// consecutive remainders of opposite signs, with `|i|·v + |x|·u == n`; the
/// coefficient that moves to the front is then smaller than `n`.
proof fn lemma_coefficient_step(i: int, x: int, u: int, v: int, q: int, r: int, n: int)
    requires
        n > 1,
        u >= 2,
        v > 0,
        q >= 0,
        r >= 0,
        u == q * v + r,
        i * x <= 0,
        magnitude(i) * v + magnitude(x) * u == n,
    ensures
        magnitude(x) * r + magnitude(i - q * x) * v == n,
        x * (i - q * x) <= 0,
        magnitude(x) < n,
{
    assert(x * (i - q * x) <= 0) by (nonlinear_arith)
        requires
            i * x <= 0,
            q >= 0,
    ;
    let mi = magnitude(i);
    let mx = magnitude(x);
    let mj = magnitude(i - q * x);
    // |i - q·x| == |i| + q·|x|, as i and x have opposite signs
    if x > 0 {
        assert(i <= 0) by (nonlinear_arith)
            requires
                i * x <= 0,
                x > 0,
        ;
        assert(q * x >= 0) by (nonlinear_arith)
            requires
                x > 0,
                q >= 0,
        ;
    } else if x < 0 {
        assert(i >= 0) by (nonlinear_arith)
            requires
                i * x <= 0,
                x < 0,
        ;
        assert(q * x <= 0) by (nonlinear_arith)
            requires
                x < 0,
                q >= 0,
        ;
    }
    assert(q * mx == magnitude(q * x)) by (nonlinear_arith)
        requires
            q >= 0,
            mx == magnitude(x),
    ;
    assert(mj == mi + q * mx);
    assert(mx * u == mx * (q * v) + mx * r) by (nonlinear_arith)
        requires
            u == q * v + r,
    ;
    assert(mj * v == mi * v + (q * mx) * v) by (nonlinear_arith)
        requires
            mj == mi + q * mx,
    ;
    assert(mx * (q * v) == (q * mx) * v) by (nonlinear_arith);
    assert(mx * 2 <= mx * u && mi * v >= 0) by (nonlinear_arith)
        requires
            mx >= 0,
            mi >= 0,
            u >= 2,
            v > 0,
    ;
}

/// If `a·r ≡ 1` and `a·s ≡ 1` modulo `m`, both in `[0, m)`, then `r == s`.
pub proof fn lemma_inverse_unique(a: int, m: int, r: int, s: int)
    requires
        m > 1,
        is_inverse(a, m, r),
        is_inverse(a, m, s),
    ensures
        r == s,
{
    // r ≡ r·(a·s) = s·(a·r) ≡ s
    lemma_mul_mod_noop_left(a * s, r, m);
    lemma_mul_mod_noop_left(a * r, s, m);
    assert((a * s) * r == (a * r) * s) by (nonlinear_arith);
    lemma_small_mod(r as nat, m as nat);
    lemma_small_mod(s as nat, m as nat);
}

/// A truncated remainder lies strictly between `-m` and `m` and is congruent to the
/// dividend.
pub proof fn lemma_trunc_rem(a: int, m: int)
    requires
        m > 0,
    ensures
        -m < trunc_rem(a, m) < m,
        trunc_rem(a, m) % m == a % m,
{
    if a < 0 {
        let r = (-a) % m;
        let q = (-a) / m;
        lemma_fundamental_div_mod(-a, m);
        lemma_mod_pos_bound(-a, m);
        assert(m * (-q) + (-r) == a) by (nonlinear_arith)
            requires
                -a == m * q + r,
        ;
        lemma_mod_multiples_vanish(-q, -r, m);
    } else {
        lemma_mod_pos_bound(a, m);
        lemma_mod_twice(a, m);
    }
}

/// Normalizing a value of `(-p, p)` yields its canonical residue modulo `p`.
pub proof fn lemma_normalized_is_residue(v: int, p: int)
    requires
        -p < v < p,
    ensures
        normalized(v, p) == v % p,
        0 <= normalized(v, p) < p,
{
    if v < 0 {
        lemma_mod_add_multiples_vanish(v, p);
        lemma_small_mod((v + p) as nat, p as nat);
    } else {
        lemma_small_mod(v as nat, p as nat);
    }
}

/// Normalizing an already normalized coordinate changes nothing: a value of
/// `[0, p)` is left as it is, and a second normalization repeats the first.
pub proof fn lemma_normalize_idempotent(v: int, p: int)
    requires
        -p < v < p,
    ensures
        0 <= v ==> normalized(v, p) == v,
        normalized(normalized(v, p), p) == normalized(v, p),
{
}

/// Moves a coordinate that lies in `(-p, p)` into `[0, p)` by adding `p` once when
/// it is negative.
pub fn normalize(v: BigInt, p: &BigInt) -> (r: BigInt)
    requires
        -value_of(*p) < value_of(v) < value_of(*p),
    ensures
        value_of(r) == normalized(value_of(v), value_of(*p)),
        value_of(r) == value_of(v) % value_of(*p),
        0 <= value_of(r) < value_of(*p),
{
    proof {
        lemma_normalized_is_residue(value_of(v), value_of(*p));
    }
    let zero = big_from_u32(0);
    if big_lt(&v, &zero) {
        big_add(&v, p)
    } else {
        v
    }
}

/// Reduces `v` modulo `p` into `[0, p)`: truncated remainder, then normalization.
pub fn reduce(v: &BigInt, p: &BigInt) -> (r: BigInt)
    requires
        value_of(*p) > 0,
    ensures
        value_of(r) == value_of(*v) % value_of(*p),
{
    proof {
        lemma_trunc_rem(value_of(*v), value_of(*p));
    }
    let t = big_rem(v, p);
    normalize(t, p)
}

/// The inverse of `a` modulo `m`, in `[0, m)`, by the extended Euclidean algorithm.
/// `a` may be any integer, negative or not reduced, provided that it is coprime to `m`.
pub fn mod_inverse(a: &BigInt, m: &BigInt) -> (r: BigInt)
    requires
        value_of(*m) > 1,
        gcd((value_of(*a) % value_of(*m)) as nat, value_of(*m) as nat) == 1,
    ensures
        is_inverse(value_of(*a), value_of(*m), value_of(r)),
        value_of(r) == inverse(value_of(*a), value_of(*m)),
{
    let ghost n = value_of(*m);
    let one = big_from_u32(1);
    let zero = big_from_u32(0);
    // the running pair of remainders (u, v) and their coefficients (inv, x0):
    // u ≡ inv·a and v ≡ x0·a modulo n
    let mut u = reduce(a, m);
    let ghost base = value_of(u);
    let mut v = big_clone(m);
    let mut inv = big_from_u32(1);
    let mut x0 = big_from_u32(0);
    proof {
        if base == 0 {
            assert(0nat % (n as nat) == 0);
            reveal_with_fuel(gcd, 2);
            assert(gcd(0, n as nat) == n);
        }
        assert(magnitude(1) * n + magnitude(0) * base == n) by (nonlinear_arith)
            requires
                magnitude(1) == 1,
                magnitude(0) == 0,
        ;
        assert((1 * base - base) % n == 0);
        assert((0 * base - n) % n == 0) by {
            lemma_mod_multiples_basic(-1, n);
        }
    }
    while big_lt(&one, &u)
        invariant
            n == value_of(*m),
            n > 1,
            value_of(one) == 1,
            value_of(u) >= 1,
            value_of(v) >= 0,
            gcd(value_of(u) as nat, value_of(v) as nat) == 1,
            (value_of(inv) * base - value_of(u)) % n == 0,
            (value_of(x0) * base - value_of(v)) % n == 0,
            value_of(inv) * value_of(x0) <= 0,
            magnitude(value_of(inv)) * value_of(v) + magnitude(value_of(x0)) * value_of(u) == n,
            magnitude(value_of(inv)) < n,
        decreases value_of(v),
    {
        let ghost (uu, vv, ii, xx) = (value_of(u), value_of(v), value_of(inv), value_of(x0));
        let q = big_div(&u, &v);
        let t = big_mul(&q, &x0);
        inv = big_sub(&inv, &t);
        u = big_rem(&u, &v);
        proof {
            let qq = uu / vv;
            lemma_fundamental_div_mod(uu, vv);
            lemma_mod_pos_bound(uu, vv);
            assert(uu == qq * vv + uu % vv) by (nonlinear_arith)
                requires
                    uu == vv * qq + uu % vv,
            ;
            lemma_coefficient_step(ii, xx, uu, vv, qq, uu % vv, n);
            assert((ii * base - uu) - qq * (xx * base - vv) == (ii - qq * xx) * base - uu % vv)
                by (nonlinear_arith)
                requires
                    uu == qq * vv + uu % vv,
            ;
            lemma_multiple_combination(ii * base - uu, xx * base - vv, qq, n);
        }
        std::mem::swap(&mut u, &mut v);
        std::mem::swap(&mut x0, &mut inv);
    }
    let ghost k = value_of(inv);
    if big_lt(&inv, &zero) {
        inv = big_add(&inv, m);
    }
    proof {
        let r = value_of(inv);
        let a0 = value_of(*a);
        // base == a0 % n and k·base ≡ 1, so a0·r ≡ base·r ≡ base·k ≡ 1
        if r == k {
            assert(base * r == k * base) by (nonlinear_arith)
                requires
                    r == k,
            ;
        } else {
            lemma_mod_multiples_basic(base, n);
            lemma_multiple_combination(k * base - 1, base * n, -1, n);
            assert((k * base - 1) - (-1) * (base * n) == base * r - 1) by (nonlinear_arith)
                requires
                    r == k + n,
            ;
        }
        lemma_mod_equivalence(base * r, 1, n);
        lemma_small_mod(1, n as nat);
        lemma_mul_mod_noop_left(a0, r, n);
        lemma_inverse_unique(a0, n, r, inverse(a0, n));
    }
    inv
}

/// Modulo a prime `m`, any `a` that is not a multiple of `m`, multiplied by its
/// inverse, gives 1.
pub proof fn lemma_inverse_round_trip(a: int, m: int)
    requires
        is_prime(m),
        a % m != 0,
    ensures
        (a * inverse(a, m)) % m == 1,
        0 <= inverse(a, m) < m,
{
    lemma_mod_bound(a, m);
    lemma_prime_coprime(a % m, m);
    lemma_inverse_exists(a, m);
}

} // verus!
