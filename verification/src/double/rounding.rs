//! Rounding to doubles: that the nearest one is found, that there is only one, and
//! how near it is.
use super::{
    bits_finite, bits_value, distance, is_nearest, nearest, one, rounded, saturated, whole,
    whole_product, Double, HIDDEN_BIT, MAX_EXPONENT, SIGNIFICAND_END, SIGN_BIT,
};
use vstd::arithmetic::power2::{
    lemma2_to64, lemma2_to64_rest, lemma_pow2_adds, lemma_pow2_pos, lemma_pow2_strictly_increases,
    lemma_pow2_unfold, pow2,
};
use vstd::prelude::*;

verus! {

/// The whole number nearest to `num / den`; of two that are equally near, the even one.
pub(super) open spec fn half_even(num: nat, den: nat) -> nat {
    let floor = num / den;
    let twice = 2 * (num % den);
    if twice < den || (twice == den && floor % 2 == 0) {
        floor
    } else {
        floor + 1
    }
}

pub(super) proof fn lemma_half_even(num: nat, den: nat, k: int)
    requires
        den > 0,
    ensures
        distance(half_even(num, den) as int, num as int, den) <= distance(k, num as int, den),
        k != half_even(num, den) && distance(half_even(num, den) as int, num as int, den)
            == distance(k, num as int, den) ==> half_even(num, den) % 2 == 0,
        num < SIGNIFICAND_END * den ==> half_even(num, den) <= SIGNIFICAND_END,
        num < HIDDEN_BIT * den ==> half_even(num, den) <= HIDDEN_BIT,
        num >= HIDDEN_BIT * den ==> half_even(num, den) >= HIDDEN_BIT,
{
    let q: int = (num / den) as int;
    let r: int = (num % den) as int;
    let f: int = half_even(num, den) as int;
    let d: int = den as int;
    assert(num == q * d + r && 0 <= r < d) by {
        vstd::arithmetic::div_mod::lemma_fundamental_div_mod(num as int, d);
        assert(d * q == q * d) by (nonlinear_arith);
    }
    let j: int = k - q;
    assert(k * d == q * d + j * d) by (nonlinear_arith)
        requires
            j == k - q,
    ;
    assert((q + 1) * d == q * d + d) by (nonlinear_arith);
    assert(j <= -1 ==> j * d <= -d) by (nonlinear_arith)
        requires
            d > 0,
    ;
    assert(j >= 2 ==> j * d >= 2 * d) by (nonlinear_arith)
        requires
            d > 0,
    ;
    assert(j == 0 ==> j * d == 0);
    assert(j == 1 ==> j * d == d);
    let hidden: int = HIDDEN_BIT as int;
    let end: int = SIGNIFICAND_END as int;
    assert(num < end * d ==> q < end) by (nonlinear_arith)
        requires
            num == q * d + r,
            r >= 0,
            d > 0,
    ;
    assert(num < hidden * d ==> q < hidden) by (nonlinear_arith)
        requires
            num == q * d + r,
            r >= 0,
            d > 0,
    ;
    assert(num >= hidden * d ==> q >= hidden) by (nonlinear_arith)
        requires
            num == q * d + r,
            r < d,
            d > 0,
    ;
}

/// Scaling both the candidate and the target scales the distance.
pub(super) proof fn lemma_distance_scaled(v: int, a: int, b: nat, scale: nat)
    ensures
        distance(v * scale, a * scale, b) == distance(v, a, b) * scale,
{
    assert((v * scale) * b == (v * b) * scale) by (nonlinear_arith);
    assert((v * b - a) * scale == (v * b) * scale - a * scale) by (nonlinear_arith);
    assert((a - v * b) * scale == a * scale - (v * b) * scale) by (nonlinear_arith);
    assert(v * b >= a ==> (v * b) * scale >= a * scale) by (nonlinear_arith);
    assert(v * b < a ==> (v * b) * scale <= a * scale) by (nonlinear_arith);
}

/// Among the doubles, none is nearer to `num * 2^e / den` than the multiple of
/// `2^e` that `half_even` picks.
pub(super) proof fn lemma_half_even_nearest(num: nat, den: nat, e: nat, y: Double)
    requires
        den > 0,
        num < SIGNIFICAND_END * den,
        num >= HIDDEN_BIT * den || e == 0,
        y.wf(),
    ensures
        ({
            let v = (half_even(num, den) * pow2(e)) as int;
            let a = (num * pow2(e)) as int;
            &&& distance(v, a, den) <= distance(y@, a, den)
            &&& y@ != v && distance(v, a, den) == distance(y@, a, den) ==> half_even(num, den) % 2 == 0
        }),
{
    let f: int = half_even(num, den) as int;
    let n: int = num as int;
    let d: int = den as int;
    let p: int = pow2(e) as int;
    let g: int = y.significand as int;
    let h: nat = y.exponent as nat;
    lemma_pow2_pos(e);
    lemma_distance_scaled(f, n, den, p as nat);
    if h >= e {
        // A multiple of 2^e.
        let w: int = pow2((h - e) as nat) as int;
        lemma_pow2_adds(e, (h - e) as nat);
        let k: int = if y.negative { -(g * w) } else { g * w };
        assert(y@ == k * p) by (nonlinear_arith)
            requires
                y@ == if y.negative {
                    -(g * pow2(h))
                } else {
                    g * pow2(h)
                },
                pow2(h) == p * w,
                k == if y.negative {
                    -(g * w)
                } else {
                    g * w
                },
        ;
        lemma_half_even(num, den, k);
        lemma_distance_scaled(k, n, den, p as nat);
        assert(distance(f, n, den) * p <= distance(k, n, den) * p) by (nonlinear_arith)
            requires
                distance(f, n, den) <= distance(k, n, den),
                p > 0,
        ;
        if distance(f, n, den) * p == distance(k, n, den) * p {
            assert(distance(f, n, den) == distance(k, n, den)) by (nonlinear_arith)
                requires
                    distance(f, n, den) * p == distance(k, n, den) * p,
                    p > 0,
            ;
        }
    } else {
        // Below the least number of the target's binade.
        let w: int = pow2(h) as int;
        let c: int = HIDDEN_BIT as int;
        lemma_pow2_pos(h);
        lemma_pow2_unfold(e);
        if h < e - 1 {
            lemma_pow2_strictly_increases(h, (e - 1) as nat);
        }
        assert(2 * w <= p);
        assert(y@ < c * p) by (nonlinear_arith)
            requires
                y@ == if y.negative {
                    -(g * w)
                } else {
                    g * w
                },
                0 <= g < 2 * c,
                c > 0,
                0 < w,
                2 * w <= p,
        ;
        lemma_half_even(num, den, c);
        lemma_distance_scaled(c, n, den, p as nat);
        assert(distance(f, n, den) * p <= distance(c, n, den) * p) by (nonlinear_arith)
            requires
                distance(f, n, den) <= distance(c, n, den),
                p > 0,
        ;
        assert((c * p) * d <= n * p) by (nonlinear_arith)
            requires
                n >= c * d,
                p > 0,
        ;
        assert(y@ * d < (c * p) * d) by (nonlinear_arith)
            requires
                y@ < c * p,
                d > 0,
        ;
    }
}

/// The double that holds `significand * 2^e` units, where the significand may
/// have grown to the next power of two.
pub(super) open spec fn with_carry(negative: bool, significand: nat, e: nat) -> Double {
    if significand == SIGNIFICAND_END {
        Double { negative, significand: HIDDEN_BIT, exponent: (e + 1) as u32 }
    } else {
        Double { negative, significand: significand as u64, exponent: e as u32 }
    }
}

/// A number rounded by `half_even` at the right power of two is rounded to the
/// nearest double.
pub(super) proof fn lemma_rounded(negative: bool, num: nat, den: nat, e: nat)
    requires
        den > 0,
        num > 0,
        num < SIGNIFICAND_END * den,
        num >= HIDDEN_BIT * den || e == 0,
        e < MAX_EXPONENT,
    ensures
        is_nearest(
            with_carry(negative, half_even(num, den), e),
            if negative {
                -(num * pow2(e))
            } else {
                (num * pow2(e)) as int
            },
            den,
        ),
        half_even(num, den) <= SIGNIFICAND_END,
{
    let f: nat = half_even(num, den);
    let x: Double = with_carry(negative, f, e);
    let a: int = (num * pow2(e)) as int;
    let target: int = if negative { -a } else { a };
    lemma_half_even(num, den, 0);
    lemma_pow2_pos(e);
    lemma_pow2_unfold(e + 1);
    assert(a > 0) by (nonlinear_arith)
        requires
            a == num * pow2(e),
            num > 0,
            pow2(e) > 0,
    ;
    let v: int = (f * pow2(e)) as int;
    assert(x@ == if negative { -v } else { v }) by {
        assert(HIDDEN_BIT * (2 * pow2(e)) == (2 * HIDDEN_BIT) * pow2(e)) by (nonlinear_arith);
    }
    assert(x.is_even() == (f % 2 == 0));
    assert forall|y: Double| #[trigger] y.wf() implies distance(x@, target, den) <= distance(
        y@,
        target,
        den,
    ) && (y@ != x@ && distance(x@, target, den) == distance(y@, target, den) ==> x.is_even()) by {
        let z: Double = if negative { Double { negative: !y.negative, ..y } } else { y };
        assert(z@ == if negative { -y@ } else { y@ });
        lemma_half_even_nearest(num, den, e, z);
        lemma_distance_mirrored(x@, target, den);
        lemma_distance_mirrored(y@, target, den);
    }
}

/// Mirroring both the candidate and the target keeps the distance.
pub(super) proof fn lemma_distance_mirrored(v: int, a: int, b: nat)
    ensures
        distance(-v, -a, b) == distance(v, a, b),
{
    assert((-v) * b == -(v * b)) by (nonlinear_arith);
}

/// The magnitude of a double, in units.
pub(super) open spec fn magnitude(x: Double) -> nat {
    x.significand as nat * pow2(x.exponent as nat)
}

pub(super) proof fn lemma_magnitude_zero(x: Double)
    ensures
        magnitude(x) == 0 <==> x.significand == 0,
{
    let (g, p): (nat, nat) = (x.significand as nat, pow2(x.exponent as nat));
    lemma_pow2_pos(x.exponent as nat);
    assert(g > 0 ==> g * p > 0) by (nonlinear_arith)
        requires
            p > 0,
    ;
}

/// Magnitudes are ordered by exponent, then by significand.
pub(super) proof fn lemma_magnitude_order(x: Double, y: Double)
    requires
        x.wf(),
        y.wf(),
    ensures
        magnitude(x) < magnitude(y) <==> x.exponent < y.exponent || (x.exponent == y.exponent
            && x.significand < y.significand),
        magnitude(x) == magnitude(y) <==> x.exponent == y.exponent && x.significand
            == y.significand,
{
    if x.exponent < y.exponent {
        lemma_magnitude_gap(x, y);
    } else if y.exponent < x.exponent {
        lemma_magnitude_gap(y, x);
    } else {
        let p: nat = pow2(x.exponent as nat);
        let g: nat = x.significand as nat;
        let k: nat = y.significand as nat;
        lemma_pow2_pos(x.exponent as nat);
        assert(g < k ==> g * p < k * p) by (nonlinear_arith)
            requires
                p > 0,
        ;
        assert(k < g ==> k * p < g * p) by (nonlinear_arith)
            requires
                p > 0,
        ;
    }
}

pub(super) proof fn lemma_magnitude_gap(x: Double, y: Double)
    requires
        x.wf(),
        y.wf(),
        x.exponent < y.exponent,
    ensures
        (x.significand + 1) * pow2(x.exponent as nat) <= magnitude(y),
        magnitude(x) < magnitude(y),
        0 < magnitude(y),
{
    let p: int = pow2(x.exponent as nat) as int;
    let q: int = pow2(y.exponent as nat) as int;
    let g: int = x.significand as int;
    let k: int = y.significand as int;
    lemma_pow2_pos(x.exponent as nat);
    lemma_pow2_unfold(y.exponent as nat);
    if x.exponent < y.exponent - 1 {
        lemma_pow2_strictly_increases(x.exponent as nat, (y.exponent - 1) as nat);
    }
    assert((g + 1) * p <= k * q && g * p < (g + 1) * p) by (nonlinear_arith)
        requires
            0 <= g,
            g + 1 <= 2 * HIDDEN_BIT,
            k >= HIDDEN_BIT,
            q >= 2 * p,
            p > 0,
    ;
}

/// Two doubles of the same sign and the same value are one.
pub(super) proof fn lemma_same_value(x: Double, y: Double)
    requires
        x.wf(),
        y.wf(),
        x@ == y@,
        x.negative == y.negative,
    ensures
        x == y,
{
    lemma_magnitude_order(x, y);
}

/// Of two doubles of one sign, both with even significands, a third one lies between.
pub(super) proof fn lemma_even_neighbours(x: Double, y: Double) -> (z: Double)
    requires
        x.wf(),
        y.wf(),
        x.negative == y.negative,
        x.is_even(),
        y.is_even(),
        magnitude(x) < magnitude(y),
    ensures
        z.wf(),
        z.negative == x.negative,
        magnitude(x) < magnitude(z) < magnitude(y),
{
    lemma_magnitude_order(x, y);
    // An even significand is not the greatest of its binade.
    let z: Double = Double { significand: (x.significand + 1) as u64, ..x };
    lemma_magnitude_order(x, z);
    lemma_magnitude_order(z, y);
    z
}

/// There is only one nearest double.
pub proof fn lemma_nearest_unique(x: Double, y: Double, a: int, b: nat)
    requires
        b > 0,
        is_nearest(x, a, b),
        is_nearest(y, a, b),
    ensures
        x == y,
{
    if x@ == y@ {
        lemma_same_value(x, y);
    } else {
        // Both are equally near, so both are even, and what lies between is nearer.
        let z: Double = if magnitude(x) < magnitude(y) {
            lemma_even_neighbours(x, y)
        } else {
            lemma_even_neighbours(y, x)
        };
        let (v, w, u): (int, int, int) = (x@, y@, z@);
        assert(v < u < w || w < u < v);
        assert(v < u ==> v * b < u * b) by (nonlinear_arith)
            requires
                b > 0,
        ;
        assert(u < w ==> u * b < w * b) by (nonlinear_arith)
            requires
                b > 0,
        ;
        assert(w < u ==> w * b < u * b) by (nonlinear_arith)
            requires
                b > 0,
        ;
        assert(u < v ==> u * b < v * b) by (nonlinear_arith)
            requires
                b > 0,
        ;
        assert(distance(u, a, b) < distance(v, a, b));
    }
}

/// What is nearest to a quotient is nearest to the same quotient written otherwise.
pub(super) proof fn lemma_same_quotient(x: Double, a: int, b: nat, c: int, d: nat)
    requires
        b > 0,
        d > 0,
        a * d == c * b,
        is_nearest(x, a, b),
    ensures
        is_nearest(x, c, d),
{
    assert(a < 0 <==> c < 0) by (nonlinear_arith)
        requires
            a * d == c * b,
            b > 0,
            d > 0,
    ;
    assert forall|y: Double| #[trigger] y.wf() implies distance(x@, c, d) <= distance(y@, c, d) && (
    y@ != x@ && distance(x@, c, d) == distance(y@, c, d) ==> x.is_even()) by {
        lemma_distance_rewritten(x@, a, b, c, d);
        lemma_distance_rewritten(y@, a, b, c, d);
        let (s, t): (int, int) = (distance(x@, a, b), distance(y@, a, b));
        let (u, v): (int, int) = (distance(x@, c, d), distance(y@, c, d));
        assert(u <= v && (u == v ==> s == t)) by (nonlinear_arith)
            requires
                s <= t,
                s * d == u * b,
                t * d == v * b,
                b > 0,
                d > 0,
        ;
    }
}

pub(super) proof fn lemma_distance_rewritten(v: int, a: int, b: nat, c: int, d: nat)
    requires
        b > 0,
        d > 0,
        a * d == c * b,
    ensures
        distance(v, a, b) * d == distance(v, c, d) * b,
{
    lemma_distance_times(v, a, b, d);
    lemma_distance_times(v, c, d, b);
    assert((v * b) * d == (v * d) * b) by (nonlinear_arith);
}

pub(super) proof fn lemma_distance_times(v: int, a: int, b: nat, k: nat)
    ensures
        distance(v, a, b) * k == if (v * b) * k >= a * k {
            (v * b) * k - a * k
        } else {
            a * k - (v * b) * k
        },
{
    assert((v * b - a) * k == (v * b) * k - a * k) by (nonlinear_arith);
    assert((a - v * b) * k == a * k - (v * b) * k) by (nonlinear_arith);
    assert(v * b >= a ==> (v * b) * k >= a * k) by (nonlinear_arith);
    assert(v * b < a ==> (v * b) * k <= a * k) by (nonlinear_arith);
}

/// A double known to be nearest is the one that `nearest` names.
pub(super) proof fn lemma_named_nearest(x: Double, a: int, b: nat)
    requires
        b > 0,
        is_nearest(x, a, b),
    ensures
        nearest(a, b) == x,
{
    lemma_nearest_unique(nearest(a, b), x, a, b);
}

/// The double that is zero, without a sign.
pub(super) open spec fn zero_double() -> Double {
    Double { negative: false, significand: 0, exponent: 0 }
}

/// Zero is nearest to zero.
pub(super) proof fn lemma_zero_nearest(b: nat)
    requires
        b > 0,
    ensures
        is_nearest(zero_double(), 0, b),
        zero_double()@ == 0,
        distance(0, 0, b) == 0,
{
    assert(zero_double()@ == 0);
    assert(0 * b == 0) by (nonlinear_arith);
    assert forall|y: Double| #[trigger] y.wf() && y@ != 0 implies distance(y@, 0, b) > 0 by {
        let v: int = y@;
        assert(v * b != 0) by (nonlinear_arith)
            requires
                v != 0,
                b > 0,
        ;
    }
}

/// A double below the target is not above what is nearest to the target.
pub(super) proof fn lemma_nearest_at_least(x: Double, y: Double, a: int, b: nat)
    requires
        b > 0,
        is_nearest(x, a, b),
        y.wf(),
        y@ * b <= a,
    ensures
        y@ <= x@,
{
    let (v, w): (int, int) = (x@, y@);
    assert(v < w ==> v * b < w * b) by (nonlinear_arith)
        requires
            b > 0,
    ;
    assert(y.wf());
}

/// A double above the target is not below what is nearest to the target.
pub(super) proof fn lemma_nearest_at_most(x: Double, y: Double, a: int, b: nat)
    requires
        b > 0,
        is_nearest(x, a, b),
        y.wf(),
        a <= y@ * b,
    ensures
        x@ <= y@,
{
    let (v, w): (int, int) = (x@, y@);
    assert(w < v ==> w * b < v * b) by (nonlinear_arith)
        requires
            b > 0,
    ;
    assert(y.wf());
}

/// The double that is two to the power of 63.
pub(super) open spec fn limit_double() -> Double {
    Double { negative: false, significand: HIDDEN_BIT, exponent: 1085 }
}

pub(super) proof fn lemma_limit()
    ensures
        limit_double().wf(),
        limit_double()@ == pow2(63) * one(),
        pow2(63) * one() > 0,
{
    lemma2_to64_rest();
    lemma_pow2_adds(11, 1074);
    lemma_pow2_adds(52, 11);
    assert(pow2(52) * (pow2(11) * pow2(1074)) == (pow2(52) * pow2(11)) * pow2(1074))
        by (nonlinear_arith);
    lemma_pow2_pos(1074);
    assert(pow2(63) * one() > 0) by (nonlinear_arith)
        requires
            pow2(63) > 0,
            one() > 0,
    ;
}

/// A double with a large exponent is beyond every `i64`.
pub(super) proof fn lemma_beyond_limit(x: Double, k: nat)
    requires
        x.wf(),
        x.exponent > 1085,
        k > 0,
    ensures
        x.negative ==> x@ * k <= -(pow2(63) * one()),
        !x.negative ==> x@ * k >= pow2(63) * one(),
{
    lemma_limit();
    lemma_magnitude_order(limit_double(), x);
    let (m, v, limit): (int, int, int) = (magnitude(x) as int, x@, (pow2(63) * one()) as int);
    assert(x.negative ==> v * k <= -limit) by (nonlinear_arith)
        requires
            x.negative ==> v == -m,
            m >= limit >= 0,
            k > 0,
    ;
    assert(!x.negative ==> v * k >= limit) by (nonlinear_arith)
        requires
            !x.negative ==> v == m,
            m >= limit >= 0,
            k > 0,
    ;
}

/// The whole number in the rounded product decides what the cut-off product is.
pub(super) proof fn lemma_whole_product(x: Double, k: nat, p: Double)
    requires
        x.wf(),
        p.wf(),
        k > 0,
        x.negative == p.negative,
        is_nearest(p, x@ * k, 1),
    ensures
        ({
            let w = magnitude(p) as int / one() as int;
            let limit = 0x8000_0000_0000_0000int;
            whole_product(x@, k) == if x.negative {
                if w >= limit {
                    i64::MIN
                } else {
                    (-w) as i64
                }
            } else {
                if w >= limit {
                    i64::MAX
                } else {
                    w as i64
                }
            }
        }),
{
    let a: int = x@ * k;
    let u: int = one() as int;
    let limit: int = (pow2(63) * one()) as int;
    let m: int = magnitude(p) as int;
    lemma2_to64_rest();
    lemma_pow2_pos(1074);
    lemma_limit();
    lemma_named_nearest(p, a, 1);
    vstd::arithmetic::div_mod::lemma_fundamental_div_mod(m, u);
    let w: int = m / u;
    assert(m >= limit ==> w >= 0x8000_0000_0000_0000) by {
        if m >= limit {
            vstd::arithmetic::div_mod::lemma_div_is_ordered(limit, m, u);
            vstd::arithmetic::div_mod::lemma_div_multiples_vanish(pow2(63) as int, u);
            vstd::arithmetic::mul::lemma_mul_is_commutative(pow2(63) as int, u);
        }
    }
    if a >= limit {
        lemma_nearest_at_least(p, limit_double(), a, 1);
    } else if a <= -limit {
        let least: Double = Double { negative: true, ..limit_double() };
        assert(least@ == -limit);
        lemma_nearest_at_most(p, least, a, 1);
    } else {
        assert(0 <= w);
    }
}

/// `n` with the sign that is asked for.
pub(super) open spec fn signed(negative: bool, n: nat) -> int {
    if negative {
        -(n as int)
    } else {
        n as int
    }
}

/// Whether the nearest double exists, and is as near as the width of a
/// significand makes it.
pub(super) open spec fn is_approximated(a: int, b: nat) -> bool {
    &&& is_nearest(nearest(a, b), a, b)
    &&& a >= HIDDEN_BIT * b || a <= -(HIDDEN_BIT * b) ==> distance(nearest(a, b)@, a, b)
        * SIGNIFICAND_END <= if a >= 0 {
        a
    } else {
        -a
    }
}

pub(super) proof fn lemma_approximated_below(negative: bool, n: nat, d: nat, t: nat)
    requires
        0 < n,
        0 < d,
        n < SIGNIFICAND_END * d,
        t < MAX_EXPONENT,
    ensures
        is_approximated(signed(negative, n * pow2(t)), d),
    decreases t,
{
    let p: nat = pow2(t);
    let a: int = signed(negative, n * p);
    lemma_pow2_pos(t);
    if t > 0 && n < HIDDEN_BIT * d {
        let q: nat = pow2((t - 1) as nat);
        lemma_pow2_unfold(t);
        assert((2 * n) * q == n * p) by (nonlinear_arith)
            requires
                p == 2 * q,
        ;
        lemma_approximated_below(negative, 2 * n, d, (t - 1) as nat);
    } else {
        let f: nat = half_even(n, d);
        let x: Double = with_carry(negative, f, t);
        lemma_rounded(negative, n, d, t);
        lemma_named_nearest(x, a, d);
        if n >= HIDDEN_BIT * d {
            let v: int = (f * p) as int;
            let c: int = HIDDEN_BIT as int;
            assert(x@ == signed(negative, v as nat)) by {
                lemma_pow2_unfold(t + 1);
                assert(HIDDEN_BIT * (2 * p) == (2 * HIDDEN_BIT) * p) by (nonlinear_arith);
            }
            lemma_distance_mirrored(x@, a, d);
            lemma_distance_scaled(f as int, n as int, d, p);
            lemma_half_even(n, d, 0);
            let near: int = distance(f as int, n as int, d);
            assert(2 * near <= d) by {
                vstd::arithmetic::div_mod::lemma_fundamental_div_mod(n as int, d as int);
                let (k, r): (int, int) = ((n / d) as int, (n % d) as int);
                assert(d * k == k * d) by (nonlinear_arith);
                assert((k + 1) * d == k * d + d) by (nonlinear_arith);
            }
            assert((near * p) * (2 * c) <= n * p) by (nonlinear_arith)
                requires
                    2 * near <= d,
                    n >= c * d,
                    c > 0,
                    p > 0,
            ;
        } else {
            assert(n * p < HIDDEN_BIT * d) by {
                lemma2_to64();
                assert(n * p == n) by (nonlinear_arith)
                    requires
                        p == 1,
                ;
            }
        }
    }
}

pub(super) proof fn lemma_approximated(negative: bool, n: nat, d: nat, t: nat, room: nat)
    requires
        0 < n,
        0 < d,
        n < (SIGNIFICAND_END * d) * pow2(room),
        t + room < MAX_EXPONENT,
    ensures
        is_approximated(signed(negative, n * pow2(t)), d),
    decreases room,
{
    lemma2_to64();
    if n < SIGNIFICAND_END * d {
        lemma_approximated_below(negative, n, d, t);
    } else if room == 0 {
        assert((SIGNIFICAND_END * d) * pow2(room) == SIGNIFICAND_END * d) by (nonlinear_arith)
            requires
                pow2(room) == 1,
        ;
    } else {
        let (p, q): (nat, nat) = (pow2(t), pow2(t + 1));
        let (r, w): (nat, nat) = (pow2(room), pow2((room - 1) as nat));
        let (a, c): (int, int) = (signed(negative, n * p), signed(negative, n * q));
        let e: int = SIGNIFICAND_END as int;
        lemma_pow2_unfold(t + 1);
        lemma_pow2_unfold(room);
        assert((e * (2 * d)) * w == (e * d) * r) by (nonlinear_arith)
            requires
                r == 2 * w,
        ;
        lemma_approximated(negative, n, 2 * d, t + 1, (room - 1) as nat);
        assert(n * q == 2 * (n * p)) by (nonlinear_arith)
            requires
                q == 2 * p,
        ;
        assert(c == 2 * a);
        let x: Double = nearest(c, 2 * d);
        assert(c * d == a * (2 * d)) by (nonlinear_arith)
            requires
                c == 2 * a,
        ;
        lemma_same_quotient(x, c, 2 * d, a, d);
        lemma_named_nearest(x, a, d);
        lemma_distance_rewritten(x@, c, 2 * d, a, d);
        let (s, u): (int, int) = (distance(x@, c, 2 * d), distance(x@, a, d));
        assert(s == 2 * u) by (nonlinear_arith)
            requires
                s * d == u * (2 * d),
                d > 0,
        ;
        assert(HIDDEN_BIT * (2 * d) == 2 * (HIDDEN_BIT * d)) by (nonlinear_arith);
        assert(s * SIGNIFICAND_END == 2 * (u * SIGNIFICAND_END)) by (nonlinear_arith)
            requires
                s == 2 * u,
        ;
    }
}

/// Rounding keeps the order.
pub proof fn lemma_nearest_ordered(x: Double, y: Double, a: int, c: int, b: nat)
    requires
        b > 0,
        a <= c,
        is_nearest(x, a, b),
        is_nearest(y, c, b),
    ensures
        x@ <= y@,
{
    if a == c {
        lemma_nearest_unique(x, y, a, b);
    } else {
        let (v, w): (int, int) = (x@, y@);
        assert(w < v ==> w * b < v * b) by (nonlinear_arith)
            requires
                b > 0,
        ;
        assert(x.wf() && y.wf());
    }
}

/// Every number with a short significand is a double.
pub(super) proof fn lemma_representable(negative: bool, g: nat, h: nat) -> (y: Double)
    requires
        g <= SIGNIFICAND_END,
        h < MAX_EXPONENT,
    ensures
        y.wf(),
        y.negative == negative,
        y@ == signed(negative, g * pow2(h)),
    decreases h,
{
    if h > 0 && g < HIDDEN_BIT {
        let (p, q): (nat, nat) = (pow2(h), pow2((h - 1) as nat));
        lemma_pow2_unfold(h);
        assert((2 * g) * q == g * p) by (nonlinear_arith)
            requires
                p == 2 * q,
        ;
        lemma_representable(negative, 2 * g, (h - 1) as nat)
    } else {
        lemma_pow2_unfold(h + 1);
        let p: nat = pow2(h);
        assert(HIDDEN_BIT * (2 * p) == (2 * HIDDEN_BIT) * p) by (nonlinear_arith);
        with_carry(negative, g, h)
    }
}

/// A whole number of at most 53 bits is a double.
pub(super) proof fn lemma_whole_representable(n: int) -> (y: Double)
    requires
        -SIGNIFICAND_END <= n <= SIGNIFICAND_END,
    ensures
        is_nearest(y, n * one(), 1),
        y@ == n * one(),
        nearest(n * one(), 1) == y,
{
    let (m, u): (int, int) = (if n < 0 { -n } else { n }, one() as int);
    let a: int = n * u;
    let y: Double = lemma_representable(n < 0, m as nat, 1074);
    lemma_pow2_pos(1074);
    assert(a == if n < 0 { -(m * u) } else { m * u }) by (nonlinear_arith)
        requires
            a == n * u,
            n < 0 ==> m == -n,
            n >= 0 ==> m == n,
    ;
    assert(n < 0 <==> a < 0) by (nonlinear_arith)
        requires
            a == n * u,
            u > 0,
    ;
    lemma_named_nearest(y, a, 1);
    y
}

/// A whole number of at most 53 bits is not rounded.
pub proof fn lemma_whole_exact(n: int)
    requires
        -SIGNIFICAND_END <= n <= SIGNIFICAND_END,
    ensures
        nearest(n * one(), 1)@ == n * one(),
{
    let _ = lemma_whole_representable(n);
}

/// The quotient of whole numbers is rounded to a double whose relative error is
/// at most two to the power of -53.
pub proof fn lemma_quotient_error(n: int, d: nat)
    requires
        -SIGNIFICAND_END <= n <= SIGNIFICAND_END,
        0 < d <= 0x1_0000_0000,
    ensures
        is_nearest(nearest(n * one(), d), n * one(), d),
        distance(nearest(n * one(), d)@, n * one(), d) * SIGNIFICAND_END <= if n >= 0 {
            n * one()
        } else {
            -(n * one())
        },
{
    let (m, u): (int, int) = (if n < 0 { -n } else { n }, one() as int);
    let a: int = n * u;
    lemma2_to64();
    lemma2_to64_rest();
    lemma_pow2_strictly_increases(85, 1074);
    lemma_pow2_adds(53, 32);
    assert(a == if n < 0 { -(m * u) } else { m * u }) by (nonlinear_arith)
        requires
            a == n * u,
            n < 0 ==> m == -n,
            n >= 0 ==> m == n,
    ;
    if n == 0 {
        assert(a == 0) by (nonlinear_arith)
            requires
                a == n * u,
                n == 0,
        ;
        lemma_zero_nearest(d);
        lemma_named_nearest(zero_double(), 0, d);
    } else {
        assert(m < (SIGNIFICAND_END * d) * 2) by (nonlinear_arith)
            requires
                m <= SIGNIFICAND_END,
                d > 0,
                SIGNIFICAND_END > 0,
        ;
        lemma_approximated(n < 0, m as nat, d, 1074, 1);
        assert(m * u >= HIDDEN_BIT * d) by (nonlinear_arith)
            requires
                m >= 1,
                u >= HIDDEN_BIT * 0x1_0000_0000,
                0 < d <= 0x1_0000_0000,
        ;
        assert(n < 0 <==> a < 0) by (nonlinear_arith)
            requires
                a == n * u,
                u > 0,
        ;
    }
}

/// A quotient that is a whole number of at most 53 bits is not rounded.
pub proof fn lemma_whole_quotient(q: int, d: nat)
    requires
        -SIGNIFICAND_END <= q <= SIGNIFICAND_END,
        -SIGNIFICAND_END <= q * d <= SIGNIFICAND_END,
        0 < d <= 0x1_0000_0000,
    ensures
        nearest((q * d) * one(), d)@ == q * one(),
{
    let (u, a): (int, int) = (one() as int, (q * d) * one());
    let y: Double = lemma_whole_representable(q);
    lemma_quotient_error(q * d, d);
    assert((q * u) * d == (q * d) * u) by (nonlinear_arith);
    assert(y.wf() && distance(y@, a, d) == 0);
    let x: Double = nearest(a, d);
    assert(x@ * d == y@ * d);
    let (v, w): (int, int) = (x@, y@);
    assert(v == w) by (nonlinear_arith)
        requires
            v * d == w * d,
            d > 0,
    ;
}

/// Multiples of two to the power of -27, up to two to the power of 26, are doubles.
/// So a quotient in that range is rounded by at most two to the power of -28, and
/// by that times the divisor where it is multiplied by the divisor again: by less
/// than a half, where the divisor is less than two to the power of 27. In the
/// finer half of the range it is less than a quarter.
proof fn lemma_quotient_close(n: int, d: nat, parts: nat)
    requires
        0 < d < 0x800_0000,
        parts == 1 || parts == 2,
        -(0x400_0000 * d) <= n * parts <= 0x400_0000 * d,
    ensures
        2 * (parts * distance(nearest(n * one(), d)@, n * one(), d)) < one(),
{
    let h: nat = if parts == 1 { 1047 } else { 1046 };
    let (u, p): (int, int) = (one() as int, pow2(h) as int);
    let (m, c): (int, int) = (if n < 0 { -n } else { n }, d * p);
    let (a, b): (int, int) = (n * u, m * u);
    lemma2_to64();
    lemma2_to64_rest();
    lemma_pow2_pos(h);
    lemma_pow2_adds(27, 1047);
    lemma_pow2_adds(28, 1046);
    lemma_quotient_error(n, d);
    assert(a == if n < 0 { -b } else { b }) by (nonlinear_arith)
        requires
            a == n * u,
            b == m * u,
            n < 0 ==> m == -n,
            n >= 0 ==> m == n,
    ;
    assert(u == (0x800_0000 * parts) * p);
    assert(0 < parts * c < u && 0 < c && 0 <= b <= 0x20_0000_0000_0000 * c) by (nonlinear_arith)
        requires
            c == d * p,
            u == (0x800_0000 * parts) * p,
            p > 0,
            0 < d < 0x800_0000,
            parts == 1 || parts == 2,
            b == m * u,
            0 <= m * parts <= 0x400_0000 * d,
    ;
    let (k, r): (int, int) = (b / c, b % c);
    vstd::arithmetic::div_mod::lemma_fundamental_div_mod(b, c);
    assert(0 <= k <= 0x20_0000_0000_0000 && (k == 0x20_0000_0000_0000 ==> r == 0))
        by (nonlinear_arith)
        requires
            b == c * k + r,
            0 <= r < c,
            0 <= b <= 0x20_0000_0000_0000 * c,
    ;
    let g: int = if 2 * r > c { k + 1 } else { k };
    let y: Double = lemma_representable(n < 0, g as nat, h);
    let v: int = g * p;
    assert(v * d == g * c && (-v) * d == -(g * c)) by (nonlinear_arith)
        requires
            v == g * p,
            c == d * p,
    ;
    assert(c * (k + 1) == c * k + c) by (nonlinear_arith);
    assert(g * c == c * g) by (nonlinear_arith);
    assert(2 * distance(y@, a, d) <= c);
    assert(y.wf());
}

/// Quotients of different whole numbers are rounded to different doubles, where they
/// are at most two to the power of 26 and the divisor is less than two to the power
/// of 27.
pub proof fn lemma_quotient_distinct(n: int, k: int, d: nat)
    requires
        0 < d < 0x800_0000,
        -(0x400_0000 * d) <= n < k <= 0x400_0000 * d,
    ensures
        nearest(n * one(), d)@ < nearest(k * one(), d)@,
{
    let u: int = one() as int;
    let (x, y): (int, int) = (nearest(n * u, d)@, nearest(k * u, d)@);
    lemma_quotient_close(n, d, 1);
    lemma_quotient_close(k, d, 1);
    assert(n * u + u <= k * u) by (nonlinear_arith)
        requires
            n + 1 <= k,
            u >= 0,
    ;
    assert(x < y) by (nonlinear_arith)
        requires
            x * d < y * d,
            d > 0,
    ;
}

/// The product of a quotient and its divisor has a nearest double.
proof fn lemma_undone_nearest(n: int, d: nat)
    requires
        -SIGNIFICAND_END < n < SIGNIFICAND_END,
        0 < d < 0x800_0000,
    ensures
        distance(nearest(n * one(), d)@, n * one(), d) < one(),
        -(pow2(63) * one()) < nearest(n * one(), d)@ * d < pow2(63) * one(),
        is_nearest(nearest(nearest(n * one(), d)@ * d, 1), nearest(n * one(), d)@ * d, 1),
{
    let (u, c): (int, int) = (one() as int, SIGNIFICAND_END as int);
    let a: int = n * u;
    let s: Double = nearest(a, d);
    let off: int = distance(s@, a, d);
    lemma2_to64();
    lemma2_to64_rest();
    lemma_pow2_pos(1074);
    lemma_quotient_error(n, d);
    assert(off < u && -(c * u) < a < c * u) by (nonlinear_arith)
        requires
            off * c <= if n >= 0 {
                a
            } else {
                -a
            },
            a == n * u,
            -c < n < c,
            u > 0,
    ;
    assert(pow2(63) * u >= 2 * (c * u) && c * u >= u) by (nonlinear_arith)
        requires
            pow2(63) == 0x8000_0000_0000_0000,
            c == 0x20_0000_0000_0000,
            u > 0,
    ;
    lemma_product_approximated(s, d);
}

/// A quotient multiplied by its divisor again, and cut off, is at most one away from
/// the dividend.
pub proof fn lemma_quotient_undone(n: int, d: nat)
    requires
        -SIGNIFICAND_END < n < SIGNIFICAND_END,
        0 < d < 0x800_0000,
    ensures
        n - 1 <= whole_product(nearest(n * one(), d)@, d) <= n + 1,
{
    let u: int = one() as int;
    let target: int = nearest(n * u, d)@ * d;
    let p: Double = nearest(target, 1);
    lemma_undone_nearest(n, d);
    let below: Double = lemma_whole_representable(n - 1);
    let above: Double = lemma_whole_representable(n + 1);
    assert((n - 1) * u == n * u - u && (n + 1) * u == n * u + u) by (nonlinear_arith);
    lemma_nearest_ordered(below, p, (n - 1) * u, target, 1);
    lemma_nearest_ordered(p, above, target, (n + 1) * u, 1);
    lemma_whole_between(p@, n);
}

/// A quotient multiplied by its divisor again, and cut off, is the dividend or the
/// next whole number towards zero, where the quotient is at most two to the power of
/// 26: rounding can lose the last unit.
pub proof fn lemma_quotient_undone_close(n: int, d: nat)
    requires
        0 < d < 0x800_0000,
        -(0x400_0000 * d) <= n <= 0x400_0000 * d,
    ensures
        n >= 0 ==> n - 1 <= whole_product(nearest(n * one(), d)@, d) <= n,
        n <= 0 ==> n <= whole_product(nearest(n * one(), d)@, d) <= n + 1,
{
    let target: int = nearest(n * one(), d)@ * d;
    lemma_quotient_close(n, d, 1);
    lemma_undone_nearest(n, d);
    let y: Double = lemma_whole_representable(n);
    assert(y.wf());
    assert(distance(nearest(target, 1)@, target, 1) <= distance(y@, target, 1));
    lemma_whole_near(nearest(target, 1)@, n);
}

/// A double of at least two to the power of 52 is a whole number.
proof fn lemma_large_whole(x: Double)
    requires
        x.wf(),
        x@ >= HIDDEN_BIT * one() || x@ <= -(HIDDEN_BIT * one()),
    ensures
        exists|k: int| x@ == #[trigger] (k * one()),
{
    let (g, h, u): (int, nat, int) = (x.significand as int, x.exponent as nat, one() as int);
    let p: int = pow2(h) as int;
    lemma_pow2_pos(1074);
    lemma_pow2_pos(h);
    lemma_pow2_unfold(1074);
    if h < 1074 {
        if h < 1073 {
            lemma_pow2_strictly_increases(h, 1073);
        }
        assert(g * p < HIDDEN_BIT * u) by (nonlinear_arith)
            requires
                0 <= g < 2 * HIDDEN_BIT,
                0 < p,
                2 * p <= u,
        ;
    }
    let q: int = pow2((h - 1074) as nat) as int;
    lemma_pow2_adds((h - 1074) as nat, 1074);
    let k: int = if x.negative { -(g * q) } else { g * q };
    assert((g * q) * u == g * p && (-(g * q)) * u == -(g * p)) by (nonlinear_arith)
        requires
            p == q * u,
    ;
    assert(x@ == k * one());
}

/// A quotient multiplied by its divisor again is rounded to a double that is at most
/// a half away from the dividend, where the quotient is at most two to the power of
/// 26. In the finer half of that range it is less than a half away.
pub proof fn lemma_quotient_undone_half(n: int, d: nat)
    requires
        0 < d < 0x800_0000,
        -(0x400_0000 * d) <= n <= 0x400_0000 * d,
    ensures
        2 * distance(nearest(nearest(n * one(), d)@ * d, 1)@, n * one(), 1) <= one(),
        -(0x200_0000 * d) <= n <= 0x200_0000 * d ==> 2 * distance(
            nearest(nearest(n * one(), d)@ * d, 1)@,
            n * one(),
            1,
        ) < one(),
{
    let u: int = one() as int;
    let a: int = n * u;
    let target: int = nearest(a, d)@ * d;
    let p: Double = nearest(target, 1);
    lemma_quotient_close(n, d, 1);
    lemma_undone_nearest(n, d);
    let y: Double = lemma_whole_representable(n);
    assert(y.wf());
    assert(distance(p@, target, 1) <= distance(y@, target, 1));
    if -(0x200_0000 * d) <= n <= 0x200_0000 * d {
        lemma_quotient_close(n, d, 2);
    } else if -HIDDEN_BIT < n < HIDDEN_BIT {
        lemma_half_below(n, target, p);
        lemma_half_above(n, target, p);
    } else if p@ >= HIDDEN_BIT * u || p@ <= -(HIDDEN_BIT * u) {
        lemma_large_whole(p);
        let k: int = choose|k: int| p@ == #[trigger] (k * one());
        assert(k == n) by (nonlinear_arith)
            requires
                -u < k * u - n * u < u,
        ;
    } else {
        assert(n == HIDDEN_BIT || n == -HIDDEN_BIT) by (nonlinear_arith)
            requires
                -u < p@ - n * u < u,
                -(HIDDEN_BIT * u) < p@ < HIDDEN_BIT * u,
                n >= HIDDEN_BIT || n <= -HIDDEN_BIT,
        ;
        if n > 0 {
            lemma_half_below(n, target, p);
        } else {
            lemma_half_above(n, target, p);
        }
    }
}

/// Halfway below a whole number lies a double, which rounding does not cross.
proof fn lemma_half_below(n: int, target: int, p: Double)
    requires
        -HIDDEN_BIT < n <= HIDDEN_BIT,
        is_nearest(p, target, 1),
        2 * (n * one() - target) <= one(),
    ensures
        2 * (n * one() - p@) <= one(),
{
    let (u, h): (int, int) = (one() as int, pow2(1073) as int);
    let g: int = 2 * n - 1;
    let y: Double = lemma_representable(g < 0, (if g < 0 { -g } else { g }) as nat, 1073);
    lemma_pow2_unfold(1074);
    assert(g * h == n * u - h && (-g) * h == -(g * h)) by (nonlinear_arith)
        requires
            g == 2 * n - 1,
            u == 2 * h,
    ;
    lemma_nearest_at_least(p, y, target, 1);
}

/// Halfway above a whole number lies a double, which rounding does not cross.
proof fn lemma_half_above(n: int, target: int, p: Double)
    requires
        -HIDDEN_BIT <= n < HIDDEN_BIT,
        is_nearest(p, target, 1),
        2 * (target - n * one()) <= one(),
    ensures
        2 * (p@ - n * one()) <= one(),
{
    let (u, h): (int, int) = (one() as int, pow2(1073) as int);
    let g: int = 2 * n + 1;
    let y: Double = lemma_representable(g < 0, (if g < 0 { -g } else { g }) as nat, 1073);
    lemma_pow2_unfold(1074);
    assert(g * h == n * u + h && (-g) * h == -(g * h)) by (nonlinear_arith)
        requires
            g == 2 * n + 1,
            u == 2 * h,
    ;
    lemma_nearest_at_most(p, y, target, 1);
}

/// Less than a half away from a whole number, the rounded number is that one.
pub(crate) proof fn lemma_rounded_whole(v: int, n: int)
    requires
        2 * distance(v, n * one(), 1) < one(),
    ensures
        rounded(v) == n,
{
    let u: int = one() as int;
    let m: int = if v >= 0 { v } else { -v };
    let k: int = if v >= 0 { n } else { -n };
    assert(k * u == if v >= 0 { n * u } else { -(n * u) }) by (nonlinear_arith)
        requires
            k == if v >= 0 { n } else { -n },
    ;
    let (q, r): (int, int) = ((2 * m + u) / (2 * u), (2 * m + u) % (2 * u));
    lemma_pow2_pos(1074);
    vstd::arithmetic::div_mod::lemma_fundamental_div_mod(2 * m + u, 2 * u);
    assert(q == k) by (nonlinear_arith)
        requires
            2 * m + u == (2 * u) * q + r,
            0 <= r < 2 * u,
            -u < 2 * (m - k * u) < u,
    ;
}

/// Opposite numbers are rounded to opposite doubles.
pub proof fn lemma_nearest_opposite(a: int, b: nat)
    requires
        b > 0,
        is_nearest(nearest(a, b), a, b),
    ensures
        nearest(-a, b)@ == -nearest(a, b)@,
{
    let x: Double = nearest(a, b);
    if a == 0 {
        lemma_zero_nearest(b);
        lemma_named_nearest(zero_double(), 0, b);
        lemma_magnitude_zero(zero_double());
    } else {
        let z: Double = opposite(x);
        lemma_distance_mirrored(x@, a, b);
        assert forall|y: Double| #[trigger] y.wf() implies distance(z@, -a, b) <= distance(y@, -a, b)
            by {
            lemma_distance_mirrored(y@, -a, b);
            assert(opposite(y).wf() && opposite(y)@ == -y@);
        }
        assert forall|y: Double| #[trigger]
            y.wf() && y@ != z@ && distance(z@, -a, b) == distance(y@, -a, b) implies z.is_even() by {
            lemma_distance_mirrored(y@, -a, b);
            assert(opposite(y).wf() && opposite(y)@ == -y@);
        }
        lemma_named_nearest(z, -a, b);
    }
}

/// Every double has a negative, with the same significand.
spec fn opposite(x: Double) -> Double {
    Double { negative: !x.negative, significand: x.significand, exponent: x.exponent }
}

/// The product of a double that is not large and a whole number has a nearest double.
pub(super) proof fn lemma_product_approximated(s: Double, d: nat)
    requires
        s.wf(),
        0 < d <= 0x800_0000,
        -(pow2(63) * one()) < s@ * d < pow2(63) * one(),
    ensures
        is_nearest(nearest(s@ * d, 1), s@ * d, 1),
{
    let (g, p): (nat, nat) = (s.significand as nat, pow2(s.exponent as nat));
    lemma2_to64();
    lemma_magnitude_zero(s);
    assert((g * d) * p == (g * p) * d && -((g * d) * p) == (-(g * p)) * d) by (nonlinear_arith);
    if g == 0 {
        assert(s@ * d == 0) by (nonlinear_arith)
            requires
                s@ == 0,
        ;
        lemma_zero_nearest(1);
        lemma_named_nearest(zero_double(), 0, 1);
    } else {
        if s.exponent > 1085 {
            lemma_beyond_limit(s, d);
        }
        assert(0 < g * d < SIGNIFICAND_END * 0x1000_0000) by (nonlinear_arith)
            requires
                0 < g < SIGNIFICAND_END,
                0 < d <= 0x800_0000,
        ;
        lemma_approximated(s.negative, g * d, 1, s.exponent as nat, 28);
    }
}

/// Less than one away from a whole number, the cut-off number is that or the next
/// one towards zero.
pub(super) proof fn lemma_whole_near(v: int, n: int)
    requires
        -one() < v - n * one() < one(),
        -SIGNIFICAND_END < n < SIGNIFICAND_END,
    ensures
        n >= 0 ==> n - 1 <= saturated(whole(v)) <= n,
        n <= 0 ==> n <= saturated(whole(v)) <= n + 1,
{
    let u: int = one() as int;
    lemma_pow2_pos(1074);
    if v >= 0 {
        lemma_floor_near(v, n);
    } else {
        assert((-n) * u == -(n * u)) by (nonlinear_arith);
        lemma_floor_near(-v, -n);
    }
}

pub(super) proof fn lemma_floor_near(v: int, n: int)
    requires
        v >= 0,
        -one() < v - n * one() < one(),
    ensures
        n - 1 <= v / one() as int <= n,
        v / one() as int >= 0,
{
    let u: int = one() as int;
    let k: int = v / u;
    lemma_pow2_pos(1074);
    vstd::arithmetic::div_mod::lemma_fundamental_div_mod(v, u);
    let r: int = v % u;
    assert(n - 1 <= k <= n && k >= 0) by (nonlinear_arith)
        requires
            v == u * k + r,
            0 <= r < u,
            v >= 0,
            -u < v - n * u < u,
    ;
}

/// At most one away from a whole number, the cut-off number is so too.
proof fn lemma_whole_between(v: int, n: int)
    requires
        (n - 1) * one() <= v <= (n + 1) * one(),
        -SIGNIFICAND_END < n < SIGNIFICAND_END,
    ensures
        n - 1 <= saturated(whole(v)) <= n + 1,
{
    let u: int = one() as int;
    let m: int = if v >= 0 { v } else { -v };
    let (k, r): (int, int) = (m / u, m % u);
    lemma_pow2_pos(1074);
    vstd::arithmetic::div_mod::lemma_fundamental_div_mod(m, u);
    assert(n - 1 <= (if v >= 0 { k } else { -k }) <= n + 1) by (nonlinear_arith)
        requires
            m == u * k + r,
            0 <= r < u,
            m == if v >= 0 {
                v
            } else {
                -v
            },
            (n - 1) * u <= v <= (n + 1) * u,
    ;
}

/// The double that finite bits are those of.
spec fn decoded(bits: u64) -> Double {
    let fraction: u64 = bits % HIDDEN_BIT;
    let biased: u64 = bits / HIDDEN_BIT % 2048;
    if biased == 0 {
        Double { negative: bits >= SIGN_BIT, significand: fraction, exponent: 0 }
    } else {
        Double {
            negative: bits >= SIGN_BIT,
            significand: (HIDDEN_BIT + fraction) as u64,
            exponent: (biased - 1) as u32,
        }
    }
}

/// The bits of a finite double are determined by its value and its sign, so that a
/// double that is read from bits has these bits again.
pub proof fn lemma_bits_determined(bits: u64, other: u64)
    requires
        bits_finite(bits),
        bits_finite(other),
        bits_value(bits) == bits_value(other),
        (bits >= SIGN_BIT) == (other >= SIGN_BIT),
    ensures
        bits == other,
{
    lemma2_to64();
    let (x, y): (Double, Double) = (decoded(bits), decoded(other));
    lemma_same_value(x, y);
    assert(bits % HIDDEN_BIT == other % HIDDEN_BIT);
    assert(bits / HIDDEN_BIT % 2048 == other / HIDDEN_BIT % 2048);
}

} // verus!
