//! Finite IEEE 754 double-precision numbers, held and computed with as integers.
//!
//! Every finite double is a whole multiple of two to the power of -1074. A
//! [`Double`] is viewed as that multiple: an `int`, in units of `2^-1074`.
use self::rounding::{
    half_even, lemma_beyond_limit, lemma_limit, lemma_magnitude_order, lemma_magnitude_zero,
    lemma_named_nearest, lemma_rounded, lemma_same_quotient, lemma_whole_product,
    lemma_zero_nearest, with_carry, zero_double,
};
use vstd::arithmetic::power2::{
    lemma2_to64, lemma2_to64_rest, lemma_pow2_adds, lemma_pow2_pos, lemma_pow2_strictly_increases,
    lemma_pow2_unfold, pow2,
};
use vstd::prelude::*;

pub mod laws;
pub mod rounding;

verus! {

/// Two to the power of 52: the least significand of a normal double.
pub const HIDDEN_BIT: u64 = 0x10_0000_0000_0000;

/// Two to the power of 53: no significand reaches it.
pub const SIGNIFICAND_END: u64 = 0x20_0000_0000_0000;

/// The weight of the sign bit.
pub const SIGN_BIT: u64 = 0x8000_0000_0000_0000;

/// The greatest exponent of a finite double, counted in doublings of the unit.
pub const MAX_EXPONENT: u32 = 2045;

/// A finite double: `significand * 2^exponent` units, with its sign.
#[derive(Clone, Copy, Debug, PartialEq, Eq, Structural)]
pub struct Double {
    negative: bool,
    significand: u64,
    exponent: u32,
}

/// The number one, in units.
pub open spec fn one() -> nat {
    pow2(1074)
}

/// What the 64 bits of a finite double stand for, in units.
pub open spec fn bits_value(bits: u64) -> int {
    let fraction = (bits % HIDDEN_BIT) as int;
    let biased = (bits / HIDDEN_BIT % 2048) as int;
    let magnitude = if biased == 0 {
        fraction
    } else {
        (HIDDEN_BIT + fraction) * pow2((biased - 1) as nat)
    };
    if bits >= SIGN_BIT {
        -magnitude
    } else {
        magnitude
    }
}

/// Whether the 64 bits are those of a finite double: neither an infinity nor a NaN.
pub open spec fn bits_finite(bits: u64) -> bool {
    bits / HIDDEN_BIT % 2048 != 2047
}

/// How far `v` units lie from the quotient `a / b` units, times `b`.
pub open spec fn distance(v: int, a: int, b: nat) -> int {
    if v * b >= a {
        v * b - a
    } else {
        a - v * b
    }
}

/// Whether `x` is the double nearest to the quotient `a / b` units, where of two
/// doubles that are equally near the one with an even significand is taken. The
/// sign is that of `a`.
pub open spec fn is_nearest(x: Double, a: int, b: nat) -> bool {
    &&& x.wf()
    &&& x.is_negative() == (a < 0)
    &&& forall|y: Double| #[trigger]
        y.wf() ==> distance(x@, a, b) <= distance(y@, a, b)
    &&& forall|y: Double| #[trigger]
        y.wf() && y@ != x@ && distance(x@, a, b) == distance(y@, a, b) ==> x.is_even()
}

/// The double nearest to the quotient `a / b` units.
pub open spec fn nearest(a: int, b: nat) -> Double {
    choose|x: Double| is_nearest(x, a, b)
}

/// The whole number that `v` units come to, cut off towards zero.
pub open spec fn whole(v: int) -> int {
    if v >= 0 {
        v / one() as int
    } else {
        -((-v) / one() as int)
    }
}

/// The whole number nearest to `v` units; of two that are equally near, the one
/// further from zero.
pub open spec fn rounded(v: int) -> int {
    if v >= 0 {
        (2 * v + one()) / (2 * one() as int)
    } else {
        -((2 * (-v) + one()) / (2 * one() as int))
    }
}

/// The `i64` nearest to `n`.
pub open spec fn saturated(n: int) -> i64 {
    if n > i64::MAX {
        i64::MAX
    } else if n < i64::MIN {
        i64::MIN
    } else {
        n as i64
    }
}

/// The product of `v` units and `k`, rounded to a double and then cut off to an
/// `i64`. What is too large for an `i64`, an infinity among it, becomes the
/// greatest or the least one.
pub open spec fn whole_product(v: int, k: nat) -> i64 {
    if v * k >= pow2(63) * one() {
        i64::MAX
    } else if v * k <= -(pow2(63) * one()) {
        i64::MIN
    } else {
        saturated(whole(nearest(v * k, 1)@))
    }
}

impl View for Double {
    type V = int;

    closed spec fn view(&self) -> int {
        if self.negative {
            -(self.significand * pow2(self.exponent as nat))
        } else {
            self.significand * pow2(self.exponent as nat)
        }
    }
}

impl Double {
    /// Significands are as large as they can be: only a number below the least
    /// normal double, which has the least exponent, has a small one.
    #[verifier::type_invariant]
    pub closed spec fn wf(self) -> bool {
        &&& self.significand < SIGNIFICAND_END
        &&& self.exponent <= MAX_EXPONENT
        &&& self.significand < HIDDEN_BIT ==> self.exponent == 0
    }

    /// Whether the sign bit is set.
    pub closed spec fn is_negative(self) -> bool {
        self.negative
    }

    /// Whether the last bit of the significand is zero.
    pub closed spec fn is_even(self) -> bool {
        self.significand % 2 == 0
    }

    /// Reads a double from its IEEE 754 bits; `None` for an infinity or a NaN.
    pub fn from_bits(bits: u64) -> (r: Option<Double>)
        ensures
            r is Some <==> bits_finite(bits),
            r matches Some(x) ==> {
                &&& x.wf()
                &&& x@ == bits_value(bits)
                &&& x.is_negative() == (bits >= SIGN_BIT)
                &&& x.is_even() == (bits % 2 == 0)
            },
    {
        let fraction: u64 = bits % HIDDEN_BIT;
        let biased: u64 = bits / HIDDEN_BIT % 2048;
        let negative = bits >= SIGN_BIT;
        if biased == 2047 {
            None
        } else if biased == 0 {
            proof {
                lemma2_to64();
            }
            Some(Double { negative, significand: fraction, exponent: 0 })
        } else {
            Some(
                Double {
                    negative,
                    significand: HIDDEN_BIT + fraction,
                    exponent: (biased - 1) as u32,
                },
            )
        }
    }

    /// The IEEE 754 bits of the double.
    pub fn to_bits(self) -> (bits: u64)
        ensures
            bits_finite(bits),
            bits_value(bits) == self@,
            (bits >= SIGN_BIT) == self.is_negative(),
            (bits % 2 == 0) == self.is_even(),
    {
        proof {
            use_type_invariant(&self);
            lemma2_to64();
        }
        let magnitude: u64 = self.exponent as u64 * HIDDEN_BIT + self.significand;
        let bits: u64 = if self.negative { SIGN_BIT + magnitude } else { magnitude };
        proof {
            if self.significand < HIDDEN_BIT {
                assert(bits % HIDDEN_BIT == self.significand);
                assert(bits / HIDDEN_BIT % 2048 == 0);
            } else {
                assert(bits % HIDDEN_BIT == self.significand - HIDDEN_BIT);
                assert(bits / HIDDEN_BIT % 2048 == self.exponent + 1);
            }
        }
        bits
    }

    /// Zero.
    pub fn zero() -> (x: Double)
        ensures
            x == nearest(0, 1),
            x@ == 0,
            !x.is_negative(),
    {
        proof {
            lemma_zero_nearest(1);
            lemma_named_nearest(zero_double(), 0, 1);
        }
        Double { negative: false, significand: 0, exponent: 0 }
    }

    fn from_sign_and_magnitude(negative: bool, n: u64) -> (x: Double)
        requires
            n == 0 ==> !negative,
        ensures
            is_nearest(
                x,
                if negative {
                    -(n * one())
                } else {
                    n * one()
                },
                1,
            ),
            x.exponent <= 1107,
    {
        if n == 0 {
            proof {
                lemma_zero_nearest(1);
            }
            Double { negative: false, significand: 0, exponent: 0 }
        } else {
            let x: Double = round(negative, n as u128, 1, 1074);
            x
        }
    }

    /// The double nearest to a whole number that is not negative.
    pub fn from_u64(n: u64) -> (x: Double)
        ensures
            x == nearest(n * one(), 1),
            is_nearest(x, n * one(), 1),
    {
        let x: Double = Double::from_sign_and_magnitude(false, n);
        proof {
            lemma_named_nearest(x, n * one(), 1);
        }
        x
    }

    /// The double nearest to a whole number.
    pub fn from_i64(n: i64) -> (x: Double)
        ensures
            x == nearest(n * one(), 1),
            is_nearest(x, n * one(), 1),
    {
        Double::nearest_to(n)
    }

    fn nearest_to(n: i64) -> (x: Double)
        ensures
            x == nearest(n * one(), 1),
            is_nearest(x, n * one(), 1),
            x.exponent <= 1107,
    {
        let magnitude: u64 = if n >= 0 { n as u64 } else { (-(n as i128)) as u64 };
        let x: Double = Double::from_sign_and_magnitude(n < 0, magnitude);
        proof {
            let (m, u): (int, int) = (magnitude as int, one() as int);
            assert(n < 0 ==> -(m * u) == n * u) by (nonlinear_arith)
                requires
                    n < 0 ==> m == -n,
            ;
            lemma_named_nearest(x, n * one(), 1);
        }
        x
    }

    /// The quotient of two whole numbers, where the dividend is first rounded to a
    /// double and the quotient then again.
    pub fn quotient(n: i64, d: u64) -> (x: Double)
        requires
            0 < d <= 0x1_0000_0000,
        ensures
            x == nearest(nearest(n * one(), 1)@, d as nat),
            is_nearest(x, nearest(n * one(), 1)@, d as nat),
    {
        let y: Double = Double::nearest_to(n);
        let x: Double = if y.significand == 0 {
            proof {
                lemma_zero_nearest(d as nat);
            }
            Double { negative: false, significand: 0, exponent: 0 }
        } else {
            proof {
                use_type_invariant(&y);
            }
            round(y.negative, y.significand as u128, d as u128, y.exponent)
        };
        proof {
            lemma_named_nearest(x, y@, d as nat);
        }
        x
    }

    /// Whether one double is less than another. Both zeros are equal.
    pub fn less(self, other: Double) -> (r: bool)
        ensures
            r == (self@ < other@),
    {
        proof {
            use_type_invariant(&self);
            use_type_invariant(&other);
            lemma_magnitude_order(self, other);
            lemma_magnitude_order(other, self);
            lemma_magnitude_zero(self);
            lemma_magnitude_zero(other);
        }
        if self.negative != other.negative {
            self.negative && (self.significand != 0 || other.significand != 0)
        } else if self.negative {
            other.exponent < self.exponent || (other.exponent == self.exponent && other.significand
                < self.significand)
        } else {
            self.exponent < other.exponent || (self.exponent == other.exponent && self.significand
                < other.significand)
        }
    }

    /// The product with a whole number, rounded to a double and then cut off
    /// towards zero to an `i64`.
    pub fn whole_times(self, k: u64) -> (n: i64)
        requires
            0 < k <= 0x800_0000,
        ensures
            n == whole_product(self@, k as nat),
    {
        proof {
            use_type_invariant(&self);
            lemma_limit();
        }
        if self.exponent > 1085 {
            proof {
                lemma_beyond_limit(self, k as nat);
            }
            if self.negative {
                i64::MIN
            } else {
                i64::MAX
            }
        } else if self.significand == 0 {
            proof {
                lemma_zero_nearest(1);
                lemma_named_nearest(zero_double(), 0, 1);
                lemma_pow2_pos(1074);
                lemma_magnitude_zero(self);
                assert(self@ == 0);
                assert(self@ * k == 0) by (nonlinear_arith)
                    requires
                        self@ == 0,
                ;
                assert(whole_product(self@, k as nat) == 0);
            }
            0
        } else {
            proof {
                let (g, p): (int, int) = (self.significand as int, pow2(self.exponent as nat) as int);
                assert(0 < g * k < 0x1_0000_0000_0000_0000_0000) by (nonlinear_arith)
                    requires
                        0 < g < 0x20_0000_0000_0000,
                        0 < k <= 0x800_0000,
                ;
                assert((g * k) * p == (g * p) * k && -((g * k) * p) == (-(g * p)) * k)
                    by (nonlinear_arith);
            }
            let product: u128 = self.significand as u128 * k as u128;
            let x: Double = round(self.negative, product, 1, self.exponent);
            let w: u128 = whole_magnitude(x.significand, x.exponent);
            proof {
                lemma_whole_product(self, k as nat, x);
            }
            if self.negative {
                if w >= 0x8000_0000_0000_0000 {
                    i64::MIN
                } else {
                    (-(w as i128)) as i64
                }
            } else {
                if w >= 0x8000_0000_0000_0000 {
                    i64::MAX
                } else {
                    w as i64
                }
            }
        }
    }
}

/// Rounds `num * 2^e / den` units to the nearest double.
fn round(negative: bool, num: u128, den: u128, e: u32) -> (x: Double)
    requires
        0 < num < 0x1_0000_0000_0000_0000_0000,
        0 < den <= 0x1_0000_0000,
        e <= 1200,
    ensures
        is_nearest(
            x,
            if negative {
                -(num * pow2(e as nat))
            } else {
                num * pow2(e as nat)
            },
            den as nat,
        ),
        x.exponent <= e + 33,
        x.negative == negative,
{
    let mut n: u128 = num;
    let mut d: u128 = den;
    let mut t: u32 = e;
    proof {
        lemma2_to64();
    }
    while n >= d * 0x20_0000_0000_0000
        invariant
            n == num,
            0 < n < 0x1_0000_0000_0000_0000_0000,
            0 < d <= 0x1_0000_0000,
            den > 0,
            e <= t <= e + 32,
            e <= 1200,
            pow2((t - e) as nat) <= d,
            (n * pow2(t as nat)) * den == (num * pow2(e as nat)) * d,
        decreases n - d,
    {
        proof {
            lemma2_to64();
            lemma_pow2_unfold((t + 1) as nat);
            lemma_pow2_unfold((t + 1 - e) as nat);
            if t - e > 27 {
                lemma_pow2_strictly_increases(27, (t - e) as nat);
            }
            let (p, q): (int, int) = (pow2(t as nat) as int, pow2((t + 1) as nat) as int);
            assert((n * q) * den == (num * pow2(e as nat)) * (d * 2)) by (nonlinear_arith)
                requires
                    (n * p) * den == (num * pow2(e as nat)) * d,
                    q == 2 * p,
            ;
        }
        d = d * 2;
        t = t + 1;
    }
    while t > 0 && n < d * 0x10_0000_0000_0000
        invariant
            0 < n < d * 0x20_0000_0000_0000,
            0 < d <= 0x1_0000_0000,
            den > 0,
            t <= e + 32,
            (n * pow2(t as nat)) * den == (num * pow2(e as nat)) * d,
        decreases t,
    {
        proof {
            lemma_pow2_unfold(t as nat);
            let (p, q): (int, int) = (pow2(t as nat) as int, pow2((t - 1) as nat) as int);
            assert(((n * 2) * q) * den == (num * pow2(e as nat)) * d) by (nonlinear_arith)
                requires
                    (n * p) * den == (num * pow2(e as nat)) * d,
                    p == 2 * q,
            ;
        }
        n = n * 2;
        t = t - 1;
    }
    let floor: u128 = n / d;
    let twice: u128 = 2 * (n % d);
    let up = twice > d || (twice == d && floor % 2 == 1);
    let f: u128 = if up { floor + 1 } else { floor };
    proof {
        assert(f == half_even(n as nat, d as nat));
        lemma_rounded(negative, n as nat, d as nat, t as nat);
        let (a, c): (int, int) = ((n * pow2(t as nat)) as int, (num * pow2(e as nat)) as int);
        assert((-a) * den == (-c) * d) by (nonlinear_arith)
            requires
                a * den == c * d,
        ;
        lemma_same_quotient(
            with_carry(negative, f as nat, t as nat),
            if negative {
                -a
            } else {
                a
            },
            d as nat,
            if negative {
                -c
            } else {
                c
            },
            den as nat,
        );
    }
    if f == 0x20_0000_0000_0000 {
        Double { negative, significand: 0x10_0000_0000_0000, exponent: t + 1 }
    } else {
        Double { negative, significand: f as u64, exponent: t }
    }
}

/// The whole number in `g * 2^h` units.
fn whole_magnitude(g: u64, h: u32) -> (w: u128)
    requires
        g < SIGNIFICAND_END,
        h <= 1120,
    ensures
        w == (g * pow2(h as nat)) as int / one() as int,
{
    let mut w: u128 = g as u128;
    let mut i: u32 = h;
    let ghost a: int = g * pow2(h as nat);
    proof {
        lemma2_to64();
        lemma2_to64_rest();
        lemma_pow2_pos(h as nat);
        lemma_pow2_pos(1074);
        vstd::arithmetic::div_mod::lemma_div_multiples_vanish(g as int, pow2(h as nat) as int);
        vstd::arithmetic::mul::lemma_mul_is_commutative(g as int, pow2(h as nat) as int);
    }
    if h >= 1074 {
        assert(g * pow2((h - i) as nat) == g) by (nonlinear_arith)
            requires
                pow2((h - i) as nat) == 1,
        ;
        while i > 1074
            invariant
                1074 <= i <= h <= 1120,
                g < SIGNIFICAND_END,
                w == g * pow2((h - i) as nat),
                pow2((h - i) as nat) <= 0x4000_0000_0000,
            decreases i,
        {
            proof {
                lemma2_to64_rest();
                lemma_pow2_unfold((h - i + 1) as nat);
                let (k, p): (int, int) = (g as int, pow2((h - i) as nat) as int);
                if h - i + 1 < 46 {
                    lemma_pow2_strictly_increases((h - i + 1) as nat, 46);
                }
                assert(k * (2 * p) == 2 * (k * p)) by (nonlinear_arith);
                assert(k * p < 0x20_0000_0000_0000 * 0x4000_0000_0000) by (nonlinear_arith)
                    requires
                        0 <= k < 0x20_0000_0000_0000,
                        0 <= p <= 0x4000_0000_0000,
                ;
            }
            w = w * 2;
            i = i - 1;
        }
        proof {
            let (k, p, u): (int, int, int) = (g as int, pow2((h - 1074) as nat) as int, one() as int);
            lemma_pow2_adds((h - 1074) as nat, 1074);
            assert(a == u * (k * p)) by (nonlinear_arith)
                requires
                    a == k * (p * u),
            ;
            vstd::arithmetic::div_mod::lemma_div_multiples_vanish(k * p, u);
        }
    } else {
        while i < 1074 && w > 0
            invariant
                h <= i <= 1074,
                a >= 0,
                w == a / pow2(i as nat) as int,
            decreases 1074 - i,
        {
            proof {
                lemma_pow2_pos(i as nat);
                lemma_pow2_unfold((i + 1) as nat);
                let p: int = pow2(i as nat) as int;
                vstd::arithmetic::div_mod::lemma_div_denominator(a, p, 2);
                assert(p * 2 == pow2((i + 1) as nat));
            }
            w = w / 2;
            i = i + 1;
        }
        proof {
            if i < 1074 {
                let (p, q): (int, int) = (pow2(i as nat) as int, pow2((1074 - i) as nat) as int);
                lemma_pow2_pos(i as nat);
                lemma_pow2_pos((1074 - i) as nat);
                lemma_pow2_adds(i as nat, (1074 - i) as nat);
                vstd::arithmetic::div_mod::lemma_div_denominator(a, p, q);
                vstd::arithmetic::div_mod::lemma_div_basics(q);
            }
        }
    }
    w
}

} // verus!
