//! Greatest common divisors: the binary (Stein) method for pairs, its fold
//! over a slice, and the extended Euclidean algorithm for Bezout coefficients.
use vstd::prelude::*;
use vstd::arithmetic::div_mod::lemma_fundamental_div_mod;
use vstd::arithmetic::power2::{pow2, lemma2_to64, lemma_pow2_adds, lemma_pow2_pos, lemma_pow2_unfold};
use vstd::bits::{lemma_u64_shl_is_mul, lemma_u64_shr_is_div};
use vstd::std_specs::bits::{axiom_u64_trailing_zeros, u64_trailing_zeros};
use crate::divisibility::{
    divides, spec_gcd, lemma_divides_le, lemma_divides_trans, lemma_divides_zero, lemma_gcd_greatest, lemma_gcd_zero_both, lemma_gcd_comm, lemma_gcd_divides, lemma_gcd_pow2,
    lemma_gcd_scale, lemma_gcd_sub, lemma_gcd_zero_left, spec_ext_gcd, lemma_ext_gcd_bezout,
};

verus! {

/// A value whose low `t` bits are clear is its high part times `2^t`.
proof fn lemma_low_bits_clear(x: u64, t: u64)
    requires
        t < 64,
        x << vstd::prelude::sub(64, t) == 0,
    ensures
        (x >> t) as nat * pow2(t as nat) == x,
{
    lemma_u64_shr_is_div(x, t);
    lemma_pow2_pos(t as nat);
    lemma_fundamental_div_mod(x as int, pow2(t as nat) as int);
    let hi = x >> t;
    assert(hi * pow2(t as nat) <= x);
    lemma_u64_shl_is_mul(hi, t);
    assert((x >> t) << t == x) by (bit_vector)
        requires
            t < 64,
            x << vstd::prelude::sub(64, t) == 0,
    ;
}

/// Stripping the trailing zeros of a positive value leaves an odd value.
proof fn lemma_strip_trailing_zeros(x: u64)
    requires
        x > 0,
    ensures
        u64_trailing_zeros(x) < 64,
        (x >> (u64_trailing_zeros(x) as u64)) % 2 == 1,
        (x >> (u64_trailing_zeros(x) as u64)) as nat * pow2(u64_trailing_zeros(x) as nat) == x,
{
    axiom_u64_trailing_zeros(x);
    let t = u64_trailing_zeros(x) as u64;
    let y = x >> t;
    assert(y & 1 == 1 ==> y % 2 == 1) by (bit_vector);
    lemma_low_bits_clear(x, t);
}

/// The trailing zeros of `a | b` are the power of two shared by `a` and `b`:
/// both are multiples of it and one of the quotients is odd.
proof fn lemma_shared_trailing_zeros(a: u64, b: u64)
    requires
        a > 0,
        b > 0,
    ensures
        u64_trailing_zeros(a | b) < 64,
        u64_trailing_zeros(a | b) <= u64_trailing_zeros(b),
        (a >> (u64_trailing_zeros(a | b) as u64)) as nat * pow2(u64_trailing_zeros(a | b) as nat) == a,
        (b >> (u64_trailing_zeros(a | b) as u64)) as nat * pow2(u64_trailing_zeros(a | b) as nat) == b,
        (a >> (u64_trailing_zeros(a | b) as u64)) % 2 == 1
            || (b >> (u64_trailing_zeros(a | b) as u64)) % 2 == 1,
{
    let c = a | b;
    assert(a > 0 ==> c != 0) by (bit_vector)
        requires
            c == a | b,
    ;
    axiom_u64_trailing_zeros(c);
    axiom_u64_trailing_zeros(b);
    let s = u64_trailing_zeros(c) as u64;
    let tb = u64_trailing_zeros(b) as u64;
    assert(a << vstd::prelude::sub(64, s) == 0 && b << vstd::prelude::sub(64, s) == 0) by (bit_vector)
        requires
            c == a | b,
            c << vstd::prelude::sub(64, s) == 0,
    ;
    assert((a >> s) & 1 == 1 || (b >> s) & 1 == 1) by (bit_vector)
        requires
            c == a | b,
            (c >> s) & 1 == 1,
    ;
    assert(s <= tb) by (bit_vector)
        requires
            s < 64,
            tb < 64,
            b << vstd::prelude::sub(64, s) == 0,
            (b >> tb) & 1 == 1,
    ;
    let ha = a >> s;
    let hb = b >> s;
    assert(ha & 1 == 1 ==> ha % 2 == 1) by (bit_vector);
    assert(hb & 1 == 1 ==> hb % 2 == 1) by (bit_vector);
    lemma_low_bits_clear(a, s);
    lemma_low_bits_clear(b, s);
}

/// Where `a` and `b` share exactly the factor `2^s` and `bo` is the odd part
/// of `b`, the gcd of `a` and `bo` is that of `a` and `b` without `2^s`.
proof fn lemma_binary_gcd_start(a: nat, b: nat, a2: nat, b2: nat, bo: nat, s: nat, t: nat)
    requires
        a == a2 * pow2(s),
        b == b2 * pow2(s),
        a2 % 2 == 1 || b2 % 2 == 1,
        b == bo * pow2(t),
        bo % 2 == 1,
        s <= t,
    ensures
        spec_gcd(a, bo) * pow2(s) == spec_gcd(a, b),
{
    let p = pow2(s);
    let e = (t - s) as nat;
    let q = pow2(e);
    lemma_pow2_pos(s);
    lemma_pow2_adds(e, s);
    assert(b2 == bo * q) by (nonlinear_arith)
        requires
            b2 * p == bo * (q * p),
            p > 0,
    ;
    lemma_gcd_scale(a2, b2, p);
    lemma_gcd_pow2(a2, bo, s);
    assert(spec_gcd(a, b) == spec_gcd(a2, b2) * p);
    assert(spec_gcd(a, bo) == spec_gcd(a2, bo));
    if a2 % 2 == 1 {
        lemma_gcd_comm(a2, b2);
        lemma_gcd_pow2(bo, a2, e);
        lemma_gcd_comm(bo, a2);
        assert(spec_gcd(a2, b2) == spec_gcd(a2, bo));
    } else {
        if e > 0 {
            let e1 = (e - 1) as nat;
            lemma_pow2_unfold(e);
            assert(b2 == 2 * (bo * pow2(e1))) by (nonlinear_arith)
                requires
                    b2 == bo * q,
                    q == 2 * pow2(e1),
            ;
            assert(b2 % 2 == 0);
        } else {
            lemma2_to64();
            assert(q == 1);
            assert(b2 == bo);
        }
    }
}

/// Greatest common divisor of two numbers by the binary (Stein) method.
/// `gcd(0, 0) == 0`, and `gcd(0, x) == gcd(x, 0) == x`.
pub fn gcd(lhs: u64, rhs: u64) -> (r: u64)
    ensures
        r == spec_gcd(lhs as nat, rhs as nat),
{
    if lhs == 0 || rhs == 0 {
        proof {
            lemma_gcd_zero_left(rhs as nat);
            assert(lhs == 0 ==> lhs | rhs == rhs) by (bit_vector);
            assert(rhs == 0 ==> lhs | rhs == lhs) by (bit_vector);
        }
        return lhs | rhs;
    }
    let shift: u64 = (lhs | rhs).trailing_zeros() as u64;
    let rhs_zeros: u64 = rhs.trailing_zeros() as u64;
    let mut a: u64 = lhs;
    let mut b: u64 = rhs >> rhs_zeros;
    proof {
        lemma_shared_trailing_zeros(lhs, rhs);
        lemma_strip_trailing_zeros(rhs);
        lemma_binary_gcd_start(
            lhs as nat,
            rhs as nat,
            (lhs >> shift) as nat,
            (rhs >> shift) as nat,
            b as nat,
            shift as nat,
            rhs_zeros as nat,
        );
    }
    while a > 0
        invariant
            shift < 64,
            b % 2 == 1,
            spec_gcd(a as nat, b as nat) * pow2(shift as nat) == spec_gcd(lhs as nat, rhs as nat),
        decreases a + b,
    {
        let zeros: u64 = a.trailing_zeros() as u64;
        proof {
            lemma_strip_trailing_zeros(a);
            lemma_pow2_pos(zeros as nat);
            lemma_gcd_pow2((a >> zeros) as nat, b as nat, zeros as nat);
            assert((a >> zeros) <= a) by (nonlinear_arith)
                requires
                    (a >> zeros) as nat * pow2(zeros as nat) == a,
                    pow2(zeros as nat) > 0,
            ;
        }
        a = a >> zeros;
        if b > a {
            proof {
                lemma_gcd_comm(a as nat, b as nat);
            }
            let t = a;
            a = b;
            b = t;
        }
        proof {
            lemma_gcd_sub(a as nat, b as nat);
        }
        a = a - b;
    }
    proof {
        lemma_gcd_zero_left(b as nat);
        lemma_gcd_divides(lhs as nat, rhs as nat);
        lemma_divides_le(spec_gcd(lhs as nat, rhs as nat), lhs as nat);
        lemma_u64_shl_is_mul(b, shift);
    }
    b << shift
}

/// Gcd of a sequence: the left fold of `spec_gcd` from a seed of 0.
/// The empty sequence has gcd 0; a single element is its own gcd.
pub open spec fn spec_gcd_seq(s: Seq<u64>) -> nat
    decreases s.len(),
{
    if s.len() == 0 {
        0
    } else {
        spec_gcd(spec_gcd_seq(s.drop_last()), s.last() as nat)
    }
}

/// `d` divides every element of `s`.
pub open spec fn is_common_divisor(d: nat, s: Seq<u64>) -> bool {
    forall|i: int| 0 <= i < s.len() ==> divides(d, #[trigger] s[i] as nat)
}

/// The gcd of a sequence divides every element, and every common divisor of
/// the elements divides it; so, once it is positive, no common divisor is
/// larger. It is 0 exactly when every element is 0.
pub proof fn lemma_gcd_seq_greatest(s: Seq<u64>)
    ensures
        is_common_divisor(spec_gcd_seq(s), s),
        forall|d: nat| #[trigger]
            is_common_divisor(d, s) ==> divides(d, spec_gcd_seq(s)) && (spec_gcd_seq(s) > 0
                ==> d <= spec_gcd_seq(s)),
        spec_gcd_seq(s) == 0 <==> (forall|i: int| 0 <= i < s.len() ==> s[i] == 0),
    decreases s.len(),
{
    if s.len() > 0 {
        let t = s.drop_last();
        let g0 = spec_gcd_seq(t);
        let x = s.last() as nat;
        let g = spec_gcd_seq(s);
        lemma_gcd_seq_greatest(t);
        lemma_gcd_divides(g0, x);
        assert forall|i: int| 0 <= i < s.len() implies divides(g, #[trigger] s[i] as nat) by {
            if i < s.len() - 1 {
                assert(s[i] == t[i]);
                lemma_divides_trans(g, g0, s[i] as nat);
            }
        }
        assert forall|d: nat| #[trigger] is_common_divisor(d, s) implies divides(d, g) && (g > 0
            ==> d <= g) by {
            assert forall|i: int| 0 <= i < t.len() implies divides(d, #[trigger] t[i] as nat) by {
                assert(s[i] == t[i]);
            }
            assert(is_common_divisor(d, t));
            assert(divides(d, s[s.len() - 1] as nat));
            lemma_gcd_greatest(g0, x, d);
            if g > 0 {
                lemma_divides_le(d, g);
            }
        }
        if g == 0 {
            assert forall|i: int| 0 <= i < s.len() implies s[i] == 0 by {
                assert(divides(g, s[i] as nat));
            }
        } else {
            lemma_gcd_zero_both(g0, x);
            if x == 0 {
                assert(g0 != 0);
                let j = choose|j: int| 0 <= j < t.len() && t[j] != 0;
                assert(s[j] == t[j]);
            }
        }
    } else {
        assert forall|d: nat| #[trigger] is_common_divisor(d, s) implies divides(d, spec_gcd_seq(s)) by {
            lemma_divides_zero(d);
        }
    }
}

/// Greatest common divisor of a slice: 0 for an empty slice, the element
/// itself for one element, otherwise the binary gcd folded from a seed of 0.
pub fn gcd_many(elems: &[u64]) -> (r: u64)
    ensures
        r == spec_gcd_seq(elems@),
        elems@.len() == 0 ==> r == 0,
        elems@.len() == 1 ==> r == elems@[0],
{
    if elems.len() == 0 {
        return 0;
    }
    if elems.len() == 1 {
        proof {
            lemma_gcd_zero_left(elems@[0] as nat);
            assert(spec_gcd_seq(elems@.drop_last()) == 0);
        }
        return elems[0];
    }
    let mut acc: u64 = 0;
    let mut i: usize = 0;
    while i < elems.len()
        invariant
            0 <= i <= elems@.len(),
            acc == spec_gcd_seq(elems@.subrange(0, i as int)),
        decreases elems@.len() - i,
    {
        proof {
            assert(elems@.subrange(0, i + 1).drop_last() =~= elems@.subrange(0, i as int));
        }
        acc = gcd(acc, elems[i]);
        i = i + 1;
    }
    proof {
        assert(elems@.subrange(0, elems@.len() as int) =~= elems@);
    }
    acc
}

/// One step of the extended recurrence keeps the coefficient pair's
/// alternating signs and bounds the new coefficient by half of `n`.
/// Here `x * b1 - x1 * a1 == n * sigma` relates the pair to the remainders.
proof fn lemma_ext_step_bound(x: int, x1: int, a1: int, b1: int, q: int, rem: int, n: int, sigma: int)
    requires
        sigma == 1 || sigma == -1,
        x * sigma >= 0,
        x1 * sigma <= 0,
        x * b1 - x1 * a1 == n * sigma,
        a1 == q * b1 + rem,
        0 < rem < b1,
        0 <= q,
        0 <= n,
    ensures
        x1 * rem - (x - q * x1) * b1 == n * -sigma,
        (x - q * x1) * sigma >= 0,
        2 * ((x - q * x1) * sigma) <= n,
        0 <= q * (x1 * -sigma) <= (x - q * x1) * sigma,
{
    let nx = x - q * x1;
    assert(x1 * rem - nx * b1 == n * -sigma) by (nonlinear_arith)
        requires
            x * b1 - x1 * a1 == n * sigma,
            a1 == q * b1 + rem,
            nx == x - q * x1,
    ;
    assert(x1 * -sigma >= 0) by (nonlinear_arith)
        requires
            x1 * sigma <= 0,
    ;
    assert(0 <= q * (x1 * -sigma)) by (nonlinear_arith)
        requires
            x1 * sigma <= 0,
            0 <= q,
    ;
    assert(nx * sigma == x * sigma + q * (x1 * -sigma)) by (nonlinear_arith)
        requires
            nx == x - q * x1,
    ;
    assert(x1 * -sigma * rem + nx * sigma * b1 == n) by (nonlinear_arith)
        requires
            x1 * rem - nx * b1 == n * -sigma,
            sigma == 1 || sigma == -1,
    ;
    assert(2 * (nx * sigma) <= n) by (nonlinear_arith)
        requires
            x1 * -sigma * rem + nx * sigma * b1 == n,
            x1 * -sigma >= 0,
            nx * sigma >= 0,
            rem > 0,
            b1 >= 2,
    ;
}

proof fn lemma_ext_gcd_zero_left(b: nat)
    requires
        b > 0,
    ensures
        spec_ext_gcd(0, b) == (b, 0int, 1int),
{
    assert(0nat % b == 0);
    assert(0nat / b == 0);
    let e = spec_ext_gcd(b, 0);
    assert(e == (b, 1int, 0int));
    assert(spec_ext_gcd(0, b) == (e.0, e.2, e.1 - 0 * e.2));
}

/// The extended recurrence on `(a, b)` equals the recurrence on the
/// remainders reached, carried back through the coefficient pairs.
spec fn ext_gcd_carried(a1: nat, b1: nat, x: int, x1: int, y: int, y1: int) -> (nat, int, int) {
    let e = spec_ext_gcd(a1, b1);
    (e.0, e.1 * x + e.2 * x1, e.1 * y + e.2 * y1)
}

/// Extended Euclidean algorithm: `(g, x, y)` with `g` the gcd of `lhs` and
/// `rhs` and `x * lhs + y * rhs == g`. The coefficients are those of the
/// classical recurrence: `(lhs, 1, 0)` when `rhs == 0`, `(rhs, 0, 1)` when
/// only `lhs` is 0, so `extended_gcd(0, 0) == (0, 1, 0)`.
pub fn extended_gcd(lhs: u64, rhs: u64) -> (r: (u64, i64, i64))
    ensures
        r.0 as nat == spec_ext_gcd(lhs as nat, rhs as nat).0,
        r.1 as int == spec_ext_gcd(lhs as nat, rhs as nat).1,
        r.2 as int == spec_ext_gcd(lhs as nat, rhs as nat).2,
        r.0 as nat == spec_gcd(lhs as nat, rhs as nat),
        r.1 as int * lhs as int + r.2 as int * rhs as int == r.0 as int,
        rhs == 0 ==> r == (lhs, 1i64, 0i64),
        lhs == 0 && rhs != 0 ==> r == (rhs, 0i64, 1i64),
{
    proof {
        lemma_ext_gcd_bezout(lhs as nat, rhs as nat);
    }
    if rhs == 0 {
        return (lhs, 1, 0);
    }
    let mut a1: u64 = lhs;
    let mut b1: u64 = rhs;
    let mut x: i64 = 1;
    let mut x1: i64 = 0;
    let mut y: i64 = 0;
    let mut y1: i64 = 1;
    let ghost mut sigma: int = 1;
    loop
        invariant
            rhs > 0,
            b1 > 0,
            sigma == 1 || sigma == -1,
            x * sigma >= 0,
            x1 * sigma <= 0,
            y * -sigma >= 0,
            y1 * -sigma <= 0,
            x * b1 - x1 * a1 == rhs * sigma,
            y * b1 - y1 * a1 == lhs * -sigma,
            spec_ext_gcd(lhs as nat, rhs as nat) == ext_gcd_carried(
                a1 as nat,
                b1 as nat,
                x as int,
                x1 as int,
                y as int,
                y1 as int,
            ),
        decreases b1,
    {
        let q: u64 = a1 / b1;
        let rem: u64 = a1 % b1;
        let ghost e = spec_ext_gcd(b1 as nat, rem as nat);
        proof {
            lemma_fundamental_div_mod(a1 as int, b1 as int);
            assert(spec_ext_gcd(a1 as nat, b1 as nat) == (e.0, e.2, e.1 - q * e.2));
        }
        if rem == 0 {
            proof {
                assert(e == (b1 as nat, 1int, 0int));
                assert(spec_ext_gcd(a1 as nat, b1 as nat) == (b1 as nat, 0int, 1int));
                assert(0 * x + 1 * x1 == x1 && 0 * y + 1 * y1 == y1);
                lemma_ext_gcd_bezout(lhs as nat, rhs as nat);
                if lhs == 0 {
                    lemma_ext_gcd_zero_left(rhs as nat);
                }
                assert(ext_gcd_carried(a1 as nat, b1 as nat, x as int, x1 as int, y as int, y1 as int)
                    == (b1 as nat, x1 as int, y1 as int));
            }
            return (b1, x1, y1);
        }
        proof {
            lemma_ext_step_bound(x as int, x1 as int, a1 as int, b1 as int, q as int, rem as int, rhs as int, sigma);
            lemma_ext_step_bound(y as int, y1 as int, a1 as int, b1 as int, q as int, rem as int, lhs as int, -sigma);
            let gx = x - q * x1;
            let gy = y - q * y1;
            if sigma == 1 {
                assert(0 <= gx <= i64::MAX && 0 <= q * -x1 <= gx);
                assert(i64::MIN <= gy <= 0 && 0 <= q * y1 <= -gy);
            } else {
                assert(i64::MIN <= gx <= 0 && 0 <= q * x1 <= -gx);
                assert(0 <= gy <= i64::MAX && 0 <= q * -y1 <= gy);
            }
        }
        let nx: i64 = (x as i128 - (q as i128) * (x1 as i128)) as i64;
        let ny: i64 = (y as i128 - (q as i128) * (y1 as i128)) as i64;
        proof {
            assert(e.1 * x1 + e.2 * nx == e.2 * x + (e.1 - q * e.2) * x1) by (nonlinear_arith)
                requires
                    nx == x - q * x1,
            ;
            assert(e.1 * y1 + e.2 * ny == e.2 * y + (e.1 - q * e.2) * y1) by (nonlinear_arith)
                requires
                    ny == y - q * y1,
            ;
            assert(x1 * -sigma >= 0 && y1 * sigma >= 0) by (nonlinear_arith)
                requires
                    x1 * sigma <= 0,
                    y1 * -sigma <= 0,
            ;
            assert(nx * -sigma <= 0 && ny * sigma <= 0) by (nonlinear_arith)
                requires
                    nx * sigma >= 0,
                    ny * -sigma >= 0,
            ;
            sigma = -sigma;
        }
        x = x1;
        x1 = nx;
        y = y1;
        y1 = ny;
        a1 = b1;
        b1 = rem;
    }
}

} // verus!
