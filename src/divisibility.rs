//! Mathematical definitions of divisibility and the greatest common divisor,
//! with the lemmas the executable algorithms are proved from.
use vstd::prelude::*;
use vstd::arithmetic::div_mod::{lemma_fundamental_div_mod, lemma_fundamental_div_mod_converse};
use vstd::arithmetic::div_mod::lemma_mod_multiples_basic;
use vstd::arithmetic::mul::lemma_mul_is_commutative;
use vstd::arithmetic::power2::{pow2, lemma2_to64, lemma_pow2_unfold};

verus! {

/// `d` divides `n`: `n` is a natural multiple of `d`. Zero divides only zero.
pub open spec fn divides(d: nat, n: nat) -> bool {
    if d == 0 {
        n == 0
    } else {
        n % d == 0
    }
}

/// Greatest common divisor, by Euclid's recurrence. `spec_gcd(0, 0) == 0`.
pub open spec fn spec_gcd(a: nat, b: nat) -> nat
    decreases b,
{
    if b == 0 {
        a
    } else {
        spec_gcd(b, a % b)
    }
}

/// A multiple of `d` is divisible by `d`.
pub proof fn lemma_divides_by_witness(d: nat, n: nat, k: nat)
    requires
        n == d * k,
    ensures
        divides(d, n),
{
    if d != 0 {
        lemma_mul_is_commutative(d as int, k as int);
        lemma_mod_multiples_basic(k as int, d as int);
    }
}

/// The quotient that exhibits `n` as a multiple of `d`.
pub proof fn lemma_divides_witness(d: nat, n: nat) -> (k: nat)
    requires
        divides(d, n),
    ensures
        n == d * k,
{
    if d == 0 {
        0
    } else {
        lemma_fundamental_div_mod(n as int, d as int);
        n / d
    }
}

/// Zero divides only zero.
pub proof fn lemma_zero_divides(n: nat)
    requires
        divides(0, n),
    ensures
        n == 0,
{
}

/// Every number divides itself.
pub proof fn lemma_divides_refl(n: nat)
    ensures
        divides(n, n),
{
    lemma_divides_by_witness(n, n, 1);
}

/// Every number divides zero.
pub proof fn lemma_divides_zero(d: nat)
    ensures
        divides(d, 0),
{
    lemma_divides_by_witness(d, 0, 0);
}

/// A common divisor of two numbers divides their sum.
pub proof fn lemma_divides_sum(d: nat, x: nat, y: nat)
    requires
        divides(d, x),
        divides(d, y),
    ensures
        divides(d, x + y),
{
    let kx = lemma_divides_witness(d, x);
    let ky = lemma_divides_witness(d, y);
    assert(x + y == d * (kx + ky)) by (nonlinear_arith)
        requires
            x == d * kx,
            y == d * ky,
    ;
    lemma_divides_by_witness(d, x + y, kx + ky);
}

/// A common divisor of two numbers divides their difference.
pub proof fn lemma_divides_diff(d: nat, x: nat, y: nat)
    requires
        divides(d, x),
        divides(d, y),
        y <= x,
    ensures
        divides(d, (x - y) as nat),
{
    let kx = lemma_divides_witness(d, x);
    let ky = lemma_divides_witness(d, y);
    if d == 0 {
        lemma_divides_by_witness(d, (x - y) as nat, 0);
    } else {
        assert(ky <= kx) by (nonlinear_arith)
            requires
                x == d * kx,
                y == d * ky,
                y <= x,
                d > 0,
        ;
        assert(x - y == d * (kx - ky)) by (nonlinear_arith)
            requires
                x == d * kx,
                y == d * ky,
        ;
        lemma_divides_by_witness(d, (x - y) as nat, (kx - ky) as nat);
    }
}

/// A divisor of `x` divides every multiple of `x`.
pub proof fn lemma_divides_mul(d: nat, x: nat, m: nat)
    requires
        divides(d, x),
    ensures
        divides(d, x * m),
{
    let kx = lemma_divides_witness(d, x);
    assert(x * m == d * (kx * m)) by (nonlinear_arith)
        requires
            x == d * kx,
    ;
    lemma_divides_by_witness(d, x * m, kx * m);
}

/// Two numbers that divide each other are equal.
pub proof fn lemma_divides_antisym(x: nat, y: nat)
    requires
        divides(x, y),
        divides(y, x),
    ensures
        x == y,
{
    let k1 = lemma_divides_witness(x, y);
    let k2 = lemma_divides_witness(y, x);
    assert(x == y) by (nonlinear_arith)
        requires
            y == x * k1,
            x == y * k2,
    ;
}

/// A divisor of a positive number is no larger than it.
pub proof fn lemma_divides_le(d: nat, n: nat)
    requires
        divides(d, n),
        n > 0,
    ensures
        d <= n,
{
    let k = lemma_divides_witness(d, n);
    assert(d <= n) by (nonlinear_arith)
        requires
            n == d * k,
            n > 0,
    ;
}

/// The gcd divides both of its arguments.
pub proof fn lemma_gcd_divides(a: nat, b: nat)
    ensures
        divides(spec_gcd(a, b), a),
        divides(spec_gcd(a, b), b),
    decreases b,
{
    if b == 0 {
        lemma_divides_refl(a);
        lemma_divides_zero(a);
    } else {
        let g = spec_gcd(a, b);
        lemma_gcd_divides(b, a % b);
        lemma_fundamental_div_mod(a as int, b as int);
        let q: nat = a / b;
        lemma_divides_mul(g, b, q);
        assert(a == b * q + a % b);
        lemma_divides_sum(g, b * q, a % b);
    }
}

/// Every common divisor of `a` and `b` divides their gcd.
pub proof fn lemma_gcd_greatest(a: nat, b: nat, d: nat)
    requires
        divides(d, a),
        divides(d, b),
    ensures
        divides(d, spec_gcd(a, b)),
    decreases b,
{
    if b != 0 {
        lemma_fundamental_div_mod(a as int, b as int);
        let q: nat = a / b;
        lemma_divides_mul(d, b, q);
        assert(a % b == a - b * q);
        lemma_divides_diff(d, a, b * q);
        lemma_gcd_greatest(b, a % b, d);
    }
}

/// `spec_gcd(0, b) == b`.
pub proof fn lemma_gcd_zero_left(b: nat)
    ensures
        spec_gcd(0, b) == b,
{
    if b != 0 {
        assert(0nat % b == 0);
        assert(spec_gcd(0, b) == spec_gcd(b, 0));
    }
}

/// The gcd is symmetric in its arguments.
pub proof fn lemma_gcd_comm(a: nat, b: nat)
    ensures
        spec_gcd(a, b) == spec_gcd(b, a),
{
    lemma_gcd_divides(a, b);
    lemma_gcd_divides(b, a);
    lemma_gcd_greatest(b, a, spec_gcd(a, b));
    lemma_gcd_greatest(a, b, spec_gcd(b, a));
    lemma_divides_antisym(spec_gcd(a, b), spec_gcd(b, a));
}

/// Subtracting the smaller argument from the larger keeps the gcd.
pub proof fn lemma_gcd_sub(a: nat, b: nat)
    requires
        b <= a,
    ensures
        spec_gcd((a - b) as nat, b) == spec_gcd(a, b),
{
    let d = (a - b) as nat;
    let g1 = spec_gcd(d, b);
    let g2 = spec_gcd(a, b);
    lemma_gcd_divides(d, b);
    lemma_gcd_divides(a, b);
    lemma_divides_sum(g1, d, b);
    lemma_gcd_greatest(a, b, g1);
    lemma_divides_diff(g2, a, b);
    lemma_gcd_greatest(d, b, g2);
    lemma_divides_antisym(g1, g2);
}

/// A divisor of an odd number is odd.
pub proof fn lemma_divisor_of_odd(d: nat, n: nat)
    requires
        divides(d, n),
        n % 2 == 1,
    ensures
        d % 2 == 1,
{
    let k = lemma_divides_witness(d, n);
    if d % 2 == 0 {
        let h: nat = d / 2;
        assert(n == (h * k) * 2) by (nonlinear_arith)
            requires
                n == d * k,
                d == 2 * h,
        ;
        lemma_mod_multiples_basic((h * k) as int, 2);
    }
}

/// An odd divisor of `2 * x` divides `x`.
pub proof fn lemma_odd_divides_double(d: nat, x: nat)
    requires
        divides(d, 2 * x),
        d % 2 == 1,
    ensures
        divides(d, x),
{
    let k = lemma_divides_witness(d, 2 * x);
    let h: nat = k / 2;
    if k % 2 == 1 {
        let t: nat = d * h;
        assert(d == 2 * x - 2 * t) by (nonlinear_arith)
            requires
                2 * x == d * k,
                k == 2 * h + 1,
                t == d * h,
        ;
    }
    assert(x == d * h) by (nonlinear_arith)
        requires
            2 * x == d * k,
            k == 2 * h,
    ;
    lemma_divides_by_witness(d, x, h);
}

/// Halving an even argument keeps the gcd when the other argument is odd.
pub proof fn lemma_gcd_double(x: nat, y: nat)
    requires
        y % 2 == 1,
    ensures
        spec_gcd(2 * x, y) == spec_gcd(x, y),
{
    let g1 = spec_gcd(2 * x, y);
    let g2 = spec_gcd(x, y);
    lemma_gcd_divides(2 * x, y);
    lemma_gcd_divides(x, y);
    lemma_divides_mul(g2, x, 2);
    assert(x * 2 == 2 * x);
    lemma_gcd_greatest(2 * x, y, g2);
    lemma_divisor_of_odd(g1, y);
    lemma_odd_divides_double(g1, x);
    lemma_gcd_greatest(x, y, g1);
    lemma_divides_antisym(g1, g2);
}

/// Removing powers of two from one argument keeps the gcd when the other is odd.
pub proof fn lemma_gcd_pow2(x: nat, y: nat, k: nat)
    requires
        y % 2 == 1,
    ensures
        spec_gcd(x * pow2(k), y) == spec_gcd(x, y),
    decreases k,
{
    if k == 0 {
        lemma2_to64();
        assert(x * 1 == x);
    } else {
        let k1 = (k - 1) as nat;
        lemma_pow2_unfold(k);
        lemma_gcd_pow2(x, y, k1);
        assert(x * pow2(k) == 2 * (x * pow2(k1))) by (nonlinear_arith)
            requires
                pow2(k) == 2 * pow2(k1),
        ;
        lemma_gcd_double(x * pow2(k1), y);
    }
}

/// Scaling both arguments scales the gcd.
pub proof fn lemma_gcd_scale(x: nat, y: nat, m: nat)
    ensures
        spec_gcd(x * m, y * m) == spec_gcd(x, y) * m,
    decreases y,
{
    if y == 0 {
        assert(y * m == 0);
    } else if m == 0 {
        assert(x * m == 0 && y * m == 0 && spec_gcd(x, y) * m == 0);
    } else {
        let q: nat = x / y;
        let r: nat = x % y;
        lemma_fundamental_div_mod(x as int, y as int);
        assert(x * m == q * (y * m) + r * m && r * m < y * m) by (nonlinear_arith)
            requires
                x == y * q + r,
                r < y,
                m > 0,
        ;
        lemma_fundamental_div_mod_converse((x * m) as int, (y * m) as int, q as int, (r * m) as int);
        assert(y * m > 0) by (nonlinear_arith)
            requires
                y > 0,
                m > 0,
        ;
        assert(spec_gcd(x * m, y * m) == spec_gcd(y * m, r * m));
        lemma_gcd_scale(y, r, m);
    }
}

/// Bezout coefficients by the extended Euclidean recurrence:
/// `spec_ext_gcd(a, b) == (g, x, y)` with `x * a + y * b == g`.
pub open spec fn spec_ext_gcd(a: nat, b: nat) -> (nat, int, int)
    decreases b,
{
    if b == 0 {
        (a, 1, 0)
    } else {
        let (g, x, y) = spec_ext_gcd(b, a % b);
        (g, y, x - (a / b) as int * y)
    }
}

/// The extended recurrence yields the gcd together with Bezout coefficients.
pub proof fn lemma_ext_gcd_bezout(a: nat, b: nat)
    ensures
        spec_ext_gcd(a, b).0 == spec_gcd(a, b),
        spec_ext_gcd(a, b).1 * a + spec_ext_gcd(a, b).2 * b == spec_ext_gcd(a, b).0,
    decreases b,
{
    if b != 0 {
        lemma_ext_gcd_bezout(b, a % b);
        let (g, x, y) = spec_ext_gcd(b, a % b);
        let q = (a / b) as int;
        lemma_fundamental_div_mod(a as int, b as int);
        assert(y * a + (x - q * y) * b == g) by (nonlinear_arith)
            requires
                x * b + y * (a % b) == g,
                a == b * q + a % b,
        ;
    }
}

/// Divisibility is transitive.
pub proof fn lemma_divides_trans(a: nat, b: nat, c: nat)
    requires
        divides(a, b),
        divides(b, c),
    ensures
        divides(a, c),
{
    let k1 = lemma_divides_witness(a, b);
    let k2 = lemma_divides_witness(b, c);
    assert(c == a * (k1 * k2)) by (nonlinear_arith)
        requires
            b == a * k1,
            c == b * k2,
    ;
    lemma_divides_by_witness(a, c, k1 * k2);
}

/// The gcd is 0 only when both arguments are.
pub proof fn lemma_gcd_zero_both(a: nat, b: nat)
    ensures
        spec_gcd(a, b) == 0 <==> a == 0 && b == 0,
{
    lemma_gcd_divides(a, b);
    if a == 0 && b == 0 {
        assert(spec_gcd(0, 0) == 0);
    }
}

} // verus!
