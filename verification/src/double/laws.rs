//! What doubles, and the numbers that they are rounded and cut off to, satisfy.
use super::rounding::{
    lemma_approximated, lemma_limit, lemma_named_nearest, lemma_nearest_ordered,
    lemma_product_approximated, lemma_whole_exact, lemma_zero_nearest, signed, zero_double,
};
use super::{
    bits_finite, bits_value, is_nearest, nearest, one, saturated, whole, whole_product, Double,
    SIGNIFICAND_END,
};
use vstd::arithmetic::power2::{
    lemma2_to64, lemma2_to64_rest, lemma_pow2_adds, lemma_pow2_pos, lemma_pow2_unfold, pow2,
};
use vstd::prelude::*;

verus! {

/// How far two numbers are apart.
pub open spec fn gap(v: int, w: int) -> int {
    if v >= w {
        v - w
    } else {
        w - v
    }
}

/// Bits count the doubles: up to the second power of two that is a normal double they
/// are the value itself, from there on another exponent doubles it, and the sign bit
/// mirrors it.
pub proof fn lemma_bits_count(bits: u64)
    ensures
        bits < 0x20_0000_0000_0000 ==> bits_value(bits) == bits,
        0x10_0000_0000_0000 <= bits < 0x7fe0_0000_0000_0000 ==> bits_value(
            (bits + 0x10_0000_0000_0000) as u64,
        ) == 2 * bits_value(bits),
        bits < 0x8000_0000_0000_0000 ==> bits_value((bits + 0x8000_0000_0000_0000) as u64)
            == -bits_value(bits),
        bits < 0x8000_0000_0000_0000 ==> (bits_finite(bits) <==> bits < 0x7ff0_0000_0000_0000),
        bits < 0x8000_0000_0000_0000 ==> (bits_finite((bits + 0x8000_0000_0000_0000) as u64)
            <==> bits_finite(bits)),
{
    lemma2_to64();
    let lowest: int = 0x10_0000_0000_0000 + bits % 0x10_0000_0000_0000;
    assert(lowest * pow2(0) == lowest) by (nonlinear_arith)
        requires
            pow2(0) == 1,
    ;
    if 0x10_0000_0000_0000 <= bits < 0x7fe0_0000_0000_0000 {
        let next: u64 = (bits + 0x10_0000_0000_0000) as u64;
        let biased: nat = (bits / 0x10_0000_0000_0000) as nat;
        let significand: int = 0x10_0000_0000_0000 + bits % 0x10_0000_0000_0000;
        assert(next / 0x10_0000_0000_0000 == biased + 1);
        assert(next % 0x10_0000_0000_0000 == bits % 0x10_0000_0000_0000);
        lemma_pow2_unfold(biased);
        let p: int = pow2((biased - 1) as nat) as int;
        assert(significand * (2 * p) == 2 * (significand * p)) by (nonlinear_arith);
    }
    if bits < 0x8000_0000_0000_0000 {
        let mirrored: u64 = (bits + 0x8000_0000_0000_0000) as u64;
        assert(mirrored % 0x10_0000_0000_0000 == bits % 0x10_0000_0000_0000);
        assert(mirrored / 0x10_0000_0000_0000 % 2048 == bits / 0x10_0000_0000_0000 % 2048);
    }
}

/// The unit is two to the power of -1074: one has the bits that it has in every
/// IEEE 754 double.
pub proof fn lemma_bits_of_one()
    ensures
        bits_value(0x3ff0_0000_0000_0000) == one(),
        one() == pow2(1074),
{
    lemma2_to64_rest();
    lemma_pow2_adds(52, 1022);
    assert(0x3ff0_0000_0000_0000u64 / 0x10_0000_0000_0000 % 2048 == 1023);
}

/// No double is nearer to a quotient than the nearest one, and where another is as
/// near, the nearest one is even.
pub proof fn lemma_none_is_nearer(x: Double, y: Double, a: int, b: nat)
    requires
        is_nearest(x, a, b),
        y.wf(),
    ensures
        gap(x@ * b, a) <= gap(y@ * b, a),
        gap(x@ * b, a) == gap(y@ * b, a) && x@ != y@ ==> x.is_even(),
        x.is_negative() <==> a < 0,
        x.wf(),
{
}

/// Every whole number of at most 64 bits has a nearest double.
pub proof fn lemma_whole_nearest(n: int)
    requires
        -0x1_0000_0000_0000_0000 < n < 0x1_0000_0000_0000_0000,
    ensures
        is_nearest(nearest(n * one(), 1), n * one(), 1),
{
    lemma2_to64();
    if n == 0 {
        lemma_zero_nearest(1);
        lemma_named_nearest(zero_double(), 0, 1);
    } else {
        let m: int = if n < 0 { -n } else { n };
        lemma_approximated(n < 0, m as nat, 1, 1074, 11);
        let u: int = one() as int;
        assert(n * u == if n < 0 { -(m * u) } else { m * u }) by (nonlinear_arith)
            requires
                m == if n < 0 { -n } else { n },
        ;
        assert(signed(n < 0, (m * u) as nat) == n * u) by {
            lemma_pow2_pos(1074);
            assert(m * u >= 0) by (nonlinear_arith)
                requires
                    m >= 0,
                    u >= 0,
            ;
        }
    }
}

/// A number that is cut off falls short by less than one, towards zero.
pub proof fn lemma_cut_off(v: int)
    ensures
        v >= 0 ==> 0 <= v - whole(v) * one() < one(),
        v <= 0 ==> -one() < v - whole(v) * one() <= 0,
{
    let u: int = one() as int;
    lemma_pow2_pos(1074);
    let m: int = if v >= 0 { v } else { -v };
    vstd::arithmetic::div_mod::lemma_fundamental_div_mod(m, u);
    let k: int = m / u;
    assert(u * k == k * u && (-k) * u == -(k * u)) by (nonlinear_arith);
}

/// What fits in an `i64` is kept, and what does not becomes the end on its side.
pub proof fn lemma_saturated_kept(n: int)
    ensures
        -0x8000_0000_0000_0000 <= n <= 0x7fff_ffff_ffff_ffff ==> saturated(n) == n,
        n > 0x7fff_ffff_ffff_ffff ==> saturated(n) == 0x7fff_ffff_ffff_ffff,
        n < -0x8000_0000_0000_0000 ==> saturated(n) == -0x8000_0000_0000_0000,
{
}

/// The cut-off product of a double and a whole number is what the double nearest to
/// the product is cut off to, as far as an `i64` reaches.
pub proof fn lemma_product_cut_off(s: Double, k: nat)
    requires
        s.wf(),
        0 < k <= 0x800_0000,
    ensures
        s@ * k >= 0x8000_0000_0000_0000 * one() ==> whole_product(s@, k) == 0x7fff_ffff_ffff_ffff,
        s@ * k <= -(0x8000_0000_0000_0000 * one()) ==> whole_product(s@, k)
            == -0x8000_0000_0000_0000,
        -(0x8000_0000_0000_0000 * one()) < s@ * k < 0x8000_0000_0000_0000 * one() ==> ({
            let p = nearest(s@ * k, 1);
            let n = whole_product(s@, k) as int;
            &&& is_nearest(p, s@ * k, 1)
            &&& p@ >= 0 ==> n * one() <= p@ && (p@ < (n + 1) * one() || n == 0x7fff_ffff_ffff_ffff)
            &&& p@ >= 0 ==> n >= 0
            &&& p@ <= 0 ==> p@ <= n * one() && ((n - 1) * one() < p@ || n
                == -0x8000_0000_0000_0000)
            &&& p@ <= 0 ==> n <= 0
        }),
{
    let u: int = one() as int;
    lemma2_to64_rest();
    lemma_limit();
    lemma_pow2_pos(1074);
    if -(pow2(63) * one()) < s@ * k < pow2(63) * one() {
        lemma_product_approximated(s, k);
        let v: int = nearest(s@ * k, 1)@;
        lemma_cut_off(v);
        let w: int = whole(v);
        assert((w + 1) * u == w * u + u && (w - 1) * u == w * u - u) by (nonlinear_arith);
        assert(v >= 0 ==> w >= 0) by (nonlinear_arith)
            requires
                v >= 0 ==> v - w * u < u,
                u > 0,
        ;
        assert(v <= 0 ==> w <= 0) by (nonlinear_arith)
            requires
                v <= 0 ==> -u < v - w * u,
                u > 0,
        ;
        let (top, low): (int, int) = (0x7fff_ffff_ffff_ffff, -0x8000_0000_0000_0000);
        assert(w > top ==> top * u <= w * u) by (nonlinear_arith)
            requires
                u > 0,
        ;
        assert(w < low ==> w * u <= low * u) by (nonlinear_arith)
            requires
                u > 0,
        ;
    }
}

/// Cut-off products are in the order of the doubles.
pub proof fn lemma_product_ordered(s: Double, t: Double, k: nat)
    requires
        s.wf(),
        t.wf(),
        s@ <= t@,
        0 < k <= 0x800_0000,
    ensures
        whole_product(s@, k) <= whole_product(t@, k),
{
    let u: int = one() as int;
    let (v, w): (int, int) = (s@, t@);
    let limit: int = pow2(63) * u;
    lemma2_to64_rest();
    lemma_limit();
    assert(v * k <= w * k) by (nonlinear_arith)
        requires
            v <= w,
    ;
    if -limit < v * k && w * k < limit {
        lemma_product_approximated(s, k);
        lemma_product_approximated(t, k);
        let (p, q): (Double, Double) = (nearest(v * k, 1), nearest(w * k, 1));
        lemma_nearest_ordered(p, q, v * k, w * k, 1);
        let (x, y): (int, int) = (p@, q@);
        lemma_cut_off(x);
        lemma_cut_off(y);
        let (m, n): (int, int) = (whole(x), whole(y));
        assert(m <= n) by (nonlinear_arith)
            requires
                x <= y,
                u > 0,
                x >= 0 ==> 0 <= x - m * u < u,
                x <= 0 ==> -u < x - m * u <= 0,
                y >= 0 ==> 0 <= y - n * u < u,
                y <= 0 ==> -u < y - n * u <= 0,
        ;
    }
}

/// The cut-off product of whole numbers is their product, where a double holds it.
pub proof fn lemma_product_whole(n: int, k: nat)
    requires
        -SIGNIFICAND_END <= n * k <= SIGNIFICAND_END,
    ensures
        whole_product(n * one(), k) == n * k,
{
    let (u, m): (int, int) = (one() as int, n * k);
    lemma2_to64_rest();
    lemma_pow2_pos(1074);
    lemma_whole_exact(m);
    assert((n * u) * k == m * u) by (nonlinear_arith)
        requires
            m == n * k,
    ;
    lemma_cut_off(m * u);
    let w: int = whole(m * u);
    assert(w == m) by (nonlinear_arith)
        requires
            -u < m * u - w * u < u,
    ;
    assert(-(pow2(63) * u) < m * u < pow2(63) * u) by (nonlinear_arith)
        requires
            -0x20_0000_0000_0000 <= m <= 0x20_0000_0000_0000,
            pow2(63) == 0x8000_0000_0000_0000,
            u > 0,
    ;
}

} // verus!
