//! Least common multiples, composed from the n-ary gcd: the first element is
//! divided by the gcd of all elements and multiplied by each of the others.
use vstd::prelude::*;
use vstd::arithmetic::div_mod::{lemma_fundamental_div_mod, lemma_mul_mod_noop_left};
use crate::divisibility::{
    divides, spec_gcd, spec_ext_gcd, lemma_divides_by_witness, lemma_divides_le,
    lemma_divides_mul, lemma_divides_refl, lemma_divides_trans, lemma_divides_witness, lemma_zero_divides,
    lemma_ext_gcd_bezout, lemma_gcd_divides, lemma_gcd_zero_both, lemma_gcd_zero_left,
};
use crate::gcd::{gcd, gcd_many, spec_gcd_seq, lemma_gcd_seq_greatest};

verus! {

/// Product of the elements; 1 for the empty sequence.
pub open spec fn spec_product(s: Seq<u64>) -> nat
    decreases s.len(),
{
    if s.len() == 0 {
        1
    } else {
        spec_product(s.drop_last()) * (s.last() as nat)
    }
}

/// What the lcm fold computes, before any wrap to 64 bits: 0 for the empty
/// sequence, the element itself for one element, 0 when every element is 0,
/// and otherwise the first element divided by the gcd of all elements, times
/// each of the other elements.
pub open spec fn spec_lcm_fold(s: Seq<u64>) -> nat {
    if s.len() == 0 {
        0
    } else if s.len() == 1 {
        s[0] as nat
    } else if spec_gcd_seq(s) == 0 {
        0
    } else {
        (s[0] as nat / spec_gcd_seq(s)) * spec_product(s.drop_first())
    }
}

/// Every element of `s` divides `m`.
pub open spec fn is_common_multiple(m: nat, s: Seq<u64>) -> bool {
    forall|i: int| 0 <= i < s.len() ==> divides(#[trigger] s[i] as nat, m)
}

/// Each element divides the product.
proof fn lemma_product_divisible(s: Seq<u64>, i: int)
    requires
        0 <= i < s.len(),
    ensures
        divides(s[i] as nat, spec_product(s)),
    decreases s.len(),
{
    let t = s.drop_last();
    if i == s.len() - 1 {
        lemma_divides_by_witness(s[i] as nat, spec_product(s), spec_product(t));
    } else {
        assert(s[i] == t[i]);
        lemma_product_divisible(t, i);
        lemma_divides_mul(s[i] as nat, spec_product(t), s.last() as nat);
    }
}

/// Every element divides what the lcm fold computes.
pub proof fn lemma_lcm_fold_common_multiple(s: Seq<u64>)
    ensures
        is_common_multiple(spec_lcm_fold(s), s),
{
    let f = spec_lcm_fold(s);
    if s.len() == 1 {
        lemma_divides_refl(s[0] as nat);
    } else if s.len() >= 2 {
        let g = spec_gcd_seq(s);
        lemma_gcd_seq_greatest(s);
        if g == 0 {
            assert forall|i: int| 0 <= i < s.len() implies divides(#[trigger] s[i] as nat, f) by {
                assert(s[i] == 0);
            }
        } else {
            let rest = s.drop_first();
            let p = spec_product(rest);
            let a = s[0] as nat;
            let c = a / g;
            assert(f == c * p);
            assert forall|i: int| 0 <= i < s.len() implies divides(#[trigger] s[i] as nat, f) by {
                if i > 0 {
                    assert(s[i] == rest[i - 1]);
                    lemma_product_divisible(rest, i - 1);
                    lemma_divides_mul(s[i] as nat, p, c);
                    assert(p * c == c * p);
                } else {
                    assert(divides(g, s[1] as nat));
                    assert(s[1] == rest[0]);
                    lemma_product_divisible(rest, 0);
                    lemma_divides_trans(g, s[1] as nat, p);
                    let k = lemma_divides_witness(g, p);
                    assert(divides(g, a));
                    lemma_fundamental_div_mod(a as int, g as int);
                    assert(a == g * c);
                    assert(f == a * k) by (nonlinear_arith)
                        requires
                            f == c * p,
                            p == g * k,
                            a == g * c,
                    ;
                    lemma_divides_by_witness(a, f, k);
                }
            }
        }
    }
}

/// The gcd of a two-element sequence is the pairwise gcd.
proof fn lemma_gcd_seq_pair(a: u64, b: u64)
    ensures
        spec_gcd_seq(seq![a, b]) == spec_gcd(a as nat, b as nat),
{
    let s = seq![a, b];
    assert(s.drop_last() =~= seq![a]);
    assert(seq![a].drop_last() =~= Seq::<u64>::empty());
    assert(spec_gcd_seq(Seq::<u64>::empty()) == 0);
    lemma_gcd_zero_left(a as nat);
    assert(spec_gcd_seq(seq![a]) == a);
    assert(s.last() == b);
}

/// The product of one element is that element.
proof fn lemma_product_single(a: u64)
    ensures
        spec_product(seq![a]) == a,
{
    let s = seq![a];
    assert(s.len() == 1);
    assert(s.drop_last() =~= Seq::<u64>::empty());
    assert(spec_product(Seq::<u64>::empty()) == 1);
    assert(s.last() == a);
    assert(spec_product(s) == spec_product(s.drop_last()) * (a as nat));
}

/// For one or two elements the lcm fold is the least common multiple: it
/// divides every common multiple, so no positive common multiple is smaller.
pub proof fn lemma_lcm_fold_least(s: Seq<u64>, m: nat)
    requires
        1 <= s.len() <= 2,
        is_common_multiple(m, s),
    ensures
        divides(spec_lcm_fold(s), m),
        m > 0 ==> spec_lcm_fold(s) <= m,
{
    let f = spec_lcm_fold(s);
    if s.len() == 1 {
        assert(divides(s[0] as nat, m));
    } else {
        let a = s[0] as nat;
        let b = s[1] as nat;
        assert(s =~= seq![s[0], s[1]]);
        lemma_gcd_seq_pair(s[0], s[1]);
        let g = spec_gcd(a, b);
        assert(divides(a, m));
        assert(divides(b, m));
        if g == 0 {
            lemma_ext_gcd_bezout(a, b);
            lemma_gcd_zero_both(a, b);
            assert(a == 0 && b == 0);
            lemma_zero_divides(m);
            assert(f == 0);
        } else {
            assert(s.drop_first() =~= seq![s[1]]);
            lemma_product_single(s[1]);
            assert(spec_product(s.drop_first()) == b);
            let c = a / g;
            assert(f == c * b);
            lemma_ext_gcd_bezout(a, b);
            let x = spec_ext_gcd(a, b).1;
            let y = spec_ext_gcd(a, b).2;
            assert(x * a + y * b == g);
            lemma_gcd_divides(a, b);
            lemma_fundamental_div_mod(a as int, g as int);
            assert(a == g * c);
            let k1 = lemma_divides_witness(b, m);
            let k2 = lemma_divides_witness(a, m);
            let kk: int = x * k1 + y * k2;
            assert(m * g == x * (a * m) + y * (b * m)) by (nonlinear_arith)
                requires
                    x * a + y * b == g,
            ;
            assert(a * m == a * b * k1) by (nonlinear_arith)
                requires
                    m == b * k1,
            ;
            assert(b * m == a * b * k2) by (nonlinear_arith)
                requires
                    m == a * k2,
            ;
            assert(m * g == a * b * kk) by (nonlinear_arith)
                requires
                    m * g == x * (a * m) + y * (b * m),
                    a * m == a * b * k1,
                    b * m == a * b * k2,
                    kk == x * k1 + y * k2,
            ;
            assert(m * g == g * (c * b * kk)) by (nonlinear_arith)
                requires
                    m * g == a * b * kk,
                    a == g * c,
            ;
            assert(m == c * b * kk) by (nonlinear_arith)
                requires
                    m * g == g * (c * b * kk),
                    g > 0,
            ;
            if c * b == 0 {
                assert(m == 0) by (nonlinear_arith)
                    requires
                        m == c * b * kk,
                        c * b == 0,
                ;
                lemma_divides_by_witness(f, m, 0);
            } else {
                assert(kk >= 0) by (nonlinear_arith)
                    requires
                        m == c * b * kk,
                        c * b > 0,
                        m >= 0,
                ;
                lemma_divides_by_witness(f, m, kk as nat);
            }
        }
    }
    if m > 0 {
        lemma_divides_le(f, m);
    }
}

/// Least common multiple of a slice, as the gcd-based fold: 0 for an empty
/// slice, the element for one element, 0 when all elements are 0, and
/// otherwise `elems[0] / gcd_many(elems)` times each further element.
/// Products beyond 64 bits wrap around.
pub fn lcm_many(elems: &[u64]) -> (r: u64)
    ensures
        r as nat == spec_lcm_fold(elems@) % 0x1_0000_0000_0000_0000,
        spec_lcm_fold(elems@) <= u64::MAX ==> r == spec_lcm_fold(elems@),
        elems@.len() == 0 ==> r == 0,
        elems@.len() == 1 ==> r == elems@[0],
        (forall|i: int| 0 <= i < elems@.len() ==> elems@[i] == 0) ==> r == 0,
{
    if elems.len() == 0 {
        return 0;
    }
    if elems.len() == 1 {
        return elems[0];
    }
    let g = gcd_many(elems);
    proof {
        lemma_gcd_seq_greatest(elems@);
    }
    if g == 0 {
        return 0;
    }
    let ghost c: nat = elems@[0] as nat / g as nat;
    let mut acc: u64 = elems[0] / g;
    let mut i: usize = 1;
    proof {
        assert(elems@.subrange(1, 1) =~= Seq::<u64>::empty());
        assert(spec_product(Seq::<u64>::empty()) == 1);
        let e0 = elems@[0] as nat;
        lemma_fundamental_div_mod(e0 as int, g as int);
        assert(c <= e0) by (nonlinear_arith)
            requires
                e0 == g * c + e0 % (g as nat),
                g >= 1,
                e0 % (g as nat) >= 0,
        ;
        assert(c * 1 == c);
    }
    while i < elems.len()
        invariant
            1 <= i <= elems@.len(),
            g > 0,
            g == spec_gcd_seq(elems@),
            c == elems@[0] as nat / g as nat,
            acc as nat == (c * spec_product(elems@.subrange(1, i as int))) % 0x1_0000_0000_0000_0000,
        decreases elems@.len() - i,
    {
        let ghost p = spec_product(elems@.subrange(1, i as int));
        let e = elems[i];
        proof {
            assert(elems@.subrange(1, i + 1).drop_last() =~= elems@.subrange(1, i as int));
            lemma_mul_mod_noop_left((c * p) as int, e as int, 0x1_0000_0000_0000_0000);
            assert(c * p * e == c * (p * e)) by (nonlinear_arith);
        }
        acc = acc.wrapping_mul(e);
        i = i + 1;
    }
    proof {
        assert(elems@.subrange(1, elems@.len() as int) =~= elems@.drop_first());
    }
    acc
}

/// Least common multiple of two numbers: `lcm_many` of `[lhs, rhs]`, that is
/// 0 when both are 0 and otherwise `lhs / gcd(lhs, rhs) * rhs`, wrapping
/// beyond 64 bits.
pub fn lcm(lhs: u64, rhs: u64) -> (r: u64)
    ensures
        r as nat == spec_lcm_fold(seq![lhs, rhs]) % 0x1_0000_0000_0000_0000,
        r as nat == (if spec_gcd(lhs as nat, rhs as nat) == 0 {
            0
        } else {
            (lhs as nat / spec_gcd(lhs as nat, rhs as nat)) * rhs as nat
        }) % 0x1_0000_0000_0000_0000,
{
    let g = gcd(lhs, rhs);
    proof {
        let s = seq![lhs, rhs];
        lemma_gcd_seq_pair(lhs, rhs);
        assert(s.drop_first() =~= seq![rhs]);
        lemma_product_single(rhs);
        assert(s[0] == lhs);
    }
    if g == 0 {
        return 0;
    }
    (lhs / g).wrapping_mul(rhs)
}

} // verus!
