//! Single-precision numbers, held by their bit pattern.

use vstd::prelude::*;
use vstd::arithmetic::power2::*;
use crate::rounding;

verus! {

/// The value of a single-precision bit pattern.
pub enum Number {
    /// Not a number at all.
    NotANumber,
    /// One of the two infinities.
    Infinite { negative: bool },
    /// A multiple of the smallest positive number, two to the power -149.
    Finite(int),
}

/// How many times the smallest positive number goes into one.
pub open spec fn one() -> nat {
    pow2(149)
}

impl Number {
    /// `self <= k`; false where `self` is not a number.
    pub open spec fn at_most(self, k: int) -> bool {
        match self {
            Number::NotANumber => false,
            Number::Infinite { negative } => negative,
            Number::Finite(v) => v <= k * one(),
        }
    }

    /// `self >= k`; false where `self` is not a number.
    pub open spec fn at_least(self, k: int) -> bool {
        match self {
            Number::NotANumber => false,
            Number::Infinite { negative } => !negative,
            Number::Finite(v) => v >= k * one(),
        }
    }

    /// `self <= other`; false where either is not a number.
    pub open spec fn no_greater_than(self, other: Number) -> bool {
        match (self, other) {
            (Number::NotANumber, _) => false,
            (_, Number::NotANumber) => false,
            (Number::Infinite { negative }, Number::Finite(_)) => negative,
            (Number::Finite(_), Number::Infinite { negative }) => !negative,
            (Number::Infinite { negative: a }, Number::Infinite { negative: b }) => a || !b,
            (Number::Finite(v), Number::Finite(w)) => v <= w,
        }
    }
}

/// A single-precision number: sign, eight bits of exponent, 23 bits of fraction.
#[derive(Clone, Copy, Debug, PartialEq, Eq, Structural)]
pub struct Binary32 {
    /// The bit pattern, sign first.
    pub bits: u32,
}

/// The powers of two in use here, written out.
pub proof fn lemma_powers()
    ensures
        pow2(96) == 0x1_0000_0000_0000_0000_0000_0000,
        pow2(53) == 0x20_0000_0000_0000,
        one() == 0x1_0000_0000_0000_0000_0000_0000 * pow2(53),
        one() > 0,
{
    lemma2_to64();
    lemma2_to64_rest();
    lemma_pow2_adds(32, 64);
    lemma_pow2_adds(96, 53);
}

/// Two to the power `k`.
pub(crate) fn power_of_two(k: u32) -> (p: u128)
    requires
        k < 128,
    ensures
        p == pow2(k as nat),
        p > 0,
{
    let mut p: u128 = 1;
    let mut i: u32 = 0;
    proof {
        lemma2_to64();
        lemma2_to64_rest();
        lemma_pow2_adds(63, 64);
    }
    while i < k
        invariant
            i <= k < 128,
            p == pow2(i as nat),
            p > 0,
            pow2(127) == 0x8000_0000_0000_0000_0000_0000_0000_0000,
        decreases k - i,
    {
        proof {
            lemma_pow2_unfold((i + 1) as nat);
            if i + 1 < 127 {
                lemma_pow2_strictly_increases((i + 1) as nat, 127);
            }
        }
        p = p * 2;
        i = i + 1;
    }
    p
}

impl Binary32 {
    /// Whether the sign bit is set.
    pub open spec fn negative(self) -> bool {
        self.bits >= 0x8000_0000
    }

    /// The biased exponent.
    pub open spec fn exponent(self) -> nat {
        (self.bits as nat / 0x80_0000) % 256
    }

    /// The bits behind the leading one.
    pub open spec fn fraction(self) -> nat {
        self.bits as nat % 0x80_0000
    }

    /// The absolute value, as a multiple of the smallest positive number,
    /// of a pattern whose exponent is not the largest.
    pub open spec fn magnitude(self) -> nat {
        if self.exponent() == 0 {
            self.fraction()
        } else {
            (0x80_0000 + self.fraction()) * pow2((self.exponent() - 1) as nat)
        }
    }

    /// The number that the pattern stands for.
    pub open spec fn number(self) -> Number {
        if self.exponent() == 255 {
            if self.fraction() == 0 {
                Number::Infinite { negative: self.negative() }
            } else {
                Number::NotANumber
            }
        } else if self.negative() {
            Number::Finite(-(self.magnitude() as int))
        } else {
            Number::Finite(self.magnitude() as int)
        }
    }

    /// A magnitude below `2^-30`: the exponent is too small for `scaled`.
    pub proof fn lemma_small(self)
        requires
            self.exponent() < 97,
        ensures
            self.magnitude() < pow2(119),
            pow2(119) < one(),
    {
        lemma_pow2_strictly_increases(119, 149);
        lemma2_to64();
        lemma2_to64_rest();
        if self.exponent() == 0 {
            lemma_pow2_strictly_increases(23, 119);
        } else {
            let e = (self.exponent() - 1) as nat;
            lemma_pow2_adds(24, 95);
            if e < 95 {
                lemma_pow2_strictly_increases(e, 95);
            }
            lemma_pow2_pos(e);
            assert((0x80_0000 + self.fraction()) * pow2(e) < 0x100_0000 * pow2(95))
                by (nonlinear_arith)
                requires
                    self.fraction() < 0x80_0000,
                    0 < pow2(e) <= pow2(95),
            ;
        }
    }

    /// A finite magnitude of 256 or more.
    pub proof fn lemma_large(self)
        requires
            134 < self.exponent() < 255,
        ensures
            self.magnitude() >= 256 * one(),
    {
        lemma2_to64();
        let e = (self.exponent() - 1) as nat;
        lemma_pow2_adds(8, 149);
        lemma_pow2_adds(23, 134);
        if e > 134 {
            lemma_pow2_strictly_increases(134, e);
        }
        assert((0x80_0000 + self.fraction()) * pow2(e) >= 0x80_0000 * pow2(134))
            by (nonlinear_arith)
            requires
                pow2(e) >= pow2(134),
        ;
    }

    /// The magnitude as a multiple of `2^-96`.
    pub(crate) fn scaled(self) -> (v: u128)
        requires
            97 <= self.exponent() <= 134,
        ensures
            self.magnitude() == v * pow2(53),
            v == (0x80_0000 + self.fraction()) * pow2((self.exponent() - 54) as nat),
            v < 0x100_0000_0000_0000_0000_0000_0000,
    {
        let e: u32 = (self.bits / 0x80_0000) % 256;
        let m: u32 = self.bits % 0x80_0000 + 0x80_0000;
        let p: u128 = power_of_two(e - 54);
        proof {
            lemma2_to64();
            lemma2_to64_rest();
            lemma_pow2_adds(16, 64);
            if e - 54 < 80 {
                lemma_pow2_strictly_increases((e - 54) as nat, 80);
            }
            assert(m * p <= 0xff_ffff * 0x1_0000_0000_0000_0000_0000) by (nonlinear_arith)
                requires
                    m <= 0xff_ffff,
                    p <= 0x1_0000_0000_0000_0000_0000,
            ;
            lemma_pow2_adds((e - 54) as nat, 53);
            assert(m * (p * pow2(53)) == (m * p) * pow2(53)) by (nonlinear_arith);
        }
        m as u128 * p
    }

    /// `self <= k`; false where `self` is not a number.
    pub fn at_most(self, k: u8) -> (answer: bool)
        ensures
            answer == self.number().at_most(k as int),
    {
        let e: u32 = (self.bits / 0x80_0000) % 256;
        let f: u32 = self.bits % 0x80_0000;
        proof {
            lemma_powers();
        }
        if e == 255 {
            f == 0 && self.bits >= 0x8000_0000
        } else if self.bits >= 0x8000_0000 {
            assert(k * one() >= 0) by (nonlinear_arith)
                requires
                    k >= 0,
                    one() > 0,
            ;
            true
        } else if e < 97 {
            proof {
                self.lemma_small();
                if k >= 1 {
                    assert(k * one() >= one()) by (nonlinear_arith)
                        requires
                            k >= 1,
                            one() > 0,
                    ;
                }
                self.lemma_zero();
            }
            k >= 1 || (e == 0 && f == 0)
        } else if e > 134 {
            proof {
                self.lemma_large();
                assert(k * one() < 256 * one()) by (nonlinear_arith)
                    requires
                        k < 256,
                        one() > 0,
                ;
            }
            false
        } else {
            let v: u128 = self.scaled();
            let w: u128 = k as u128 * 0x1_0000_0000_0000_0000_0000_0000;
            proof {
                lemma_scaled_order(v as nat, w as nat);
                assert(k * one() == w * pow2(53)) by (nonlinear_arith)
                    requires
                        w == k * 0x1_0000_0000_0000_0000_0000_0000,
                        one() == 0x1_0000_0000_0000_0000_0000_0000 * pow2(53),
                ;
            }
            v <= w
        }
    }

    /// `self >= k`; false where `self` is not a number.
    pub fn at_least(self, k: u8) -> (answer: bool)
        ensures
            answer == self.number().at_least(k as int),
    {
        let e: u32 = (self.bits / 0x80_0000) % 256;
        let f: u32 = self.bits % 0x80_0000;
        proof {
            lemma_powers();
            if k >= 1 {
                assert(k * one() >= one()) by (nonlinear_arith)
                    requires
                        k >= 1,
                        one() > 0,
                ;
            }
            self.lemma_zero();
        }
        if e == 255 {
            f == 0 && self.bits < 0x8000_0000
        } else if self.bits >= 0x8000_0000 {
            k == 0 && e == 0 && f == 0
        } else if e < 97 {
            proof {
                self.lemma_small();
            }
            k == 0
        } else if e > 134 {
            proof {
                self.lemma_large();
                assert(k * one() < 256 * one()) by (nonlinear_arith)
                    requires
                        k < 256,
                        one() > 0,
                ;
            }
            true
        } else {
            let v: u128 = self.scaled();
            let w: u128 = k as u128 * 0x1_0000_0000_0000_0000_0000_0000;
            proof {
                lemma_scaled_order(v as nat, w as nat);
                assert(k * one() == w * pow2(53)) by (nonlinear_arith)
                    requires
                        w == k * 0x1_0000_0000_0000_0000_0000_0000,
                        one() == 0x1_0000_0000_0000_0000_0000_0000 * pow2(53),
                ;
            }
            v >= w
        }
    }

    /// Only the two zeros have the magnitude zero.
    pub proof fn lemma_zero(self)
        ensures
            self.magnitude() == 0 <==> self.exponent() == 0 && self.fraction() == 0,
    {
        if self.exponent() > 0 {
            let e = (self.exponent() - 1) as nat;
            lemma_pow2_pos(e);
            assert((0x80_0000 + self.fraction()) * pow2(e) > 0) by (nonlinear_arith)
                requires
                    pow2(e) > 0,
            ;
        }
    }
}

/// Multiples of `2^-96` are ordered as the numbers of times they hold it.
proof fn lemma_scaled_order(v: nat, w: nat)
    ensures
        v <= w <==> v * pow2(53) <= w * pow2(53),
{
    lemma_powers();
    assert(v <= w <==> v * pow2(53) <= w * pow2(53)) by (nonlinear_arith)
        requires
            pow2(53) > 0,
    ;
}

/// The whole number `n` as a single-precision number.
pub open spec fn whole(n: nat) -> nat {
    rounding::round24(n, 1) * one()
}

/// The single-precision quotient of the whole number `n` and one thousand.
pub open spec fn thousandths(n: nat) -> nat {
    rounding::round24(whole(n), 1000)
}

impl Binary32 {
    /// The non-negative number that is `v` times `2^-40`.
    fn from_scaled(v: u128) -> (number: Binary32)
        requires
            0x80_0000 <= v < 0x1_0000_0000_0000_0000_0000_0000,
            rounding::fits24(v as nat),
        ensures
            !number.negative(),
            number.number() == Number::Finite((v * pow2(109)) as int),
    {
        let mut m: u128 = v;
        let mut j: u32 = 0;
        proof {
            lemma2_to64();
            lemma2_to64_rest();
            lemma_pow2_adds(32, 64);
            rounding::lemma_fits24_scale(v as nat);
            lemma_pow2_pos(rounding::excess_bits(v as nat));
            vstd::arithmetic::div_mod::lemma_fundamental_div_mod(
                v as int,
                pow2(rounding::excess_bits(v as nat)) as int,
            );
            rounding::lemma_excess_bits_bounds(v as nat);
        }
        let ghost all = rounding::excess_bits(v as nat);
        let ghost kept = v as nat / pow2(all);
        proof {
            assert(v == kept * pow2(all)) by (nonlinear_arith)
                requires
                    v == pow2(all) * kept + 0,
            ;
            if all >= 73 {
                lemma_pow2_adds(23, 73);
                if all > 73 {
                    lemma_pow2_strictly_increases(73, all);
                }
            }
        }
        while m >= 0x100_0000
            invariant
                j <= all,
                all < 73,
                all == j + rounding::excess_bits(m as nat),
                m == kept * pow2((all - j) as nat),
                m >= 0x80_0000,
            decreases m,
        {
            proof {
                let rest = (all - j) as nat;
                lemma_pow2_unfold(rest);
                let half = pow2((rest - 1) as nat);
                assert(kept * (2 * half) == 2 * (kept * half)) by (nonlinear_arith);
            }
            m = m / 2;
            j = j + 1;
        }
        proof {
            lemma2_to64();
            assert(kept * 1 == kept);
            assert(m == kept);
        }
        let bits: u32 = (j + 110) * 0x80_0000 + (m - 0x80_0000) as u32;
        let number = Binary32 { bits };
        proof {
            assert(number.exponent() == j + 110);
            assert(number.fraction() == m - 0x80_0000);
            lemma_pow2_adds(all, 109);
            assert(kept * (pow2(all) * pow2(109)) == (kept * pow2(all)) * pow2(109))
                by (nonlinear_arith);
        }
        number
    }

    /// The single-precision number nearest to `n`.
    pub fn from_whole(n: u32) -> (number: Binary32)
        ensures
            !number.negative(),
            number.number() == Number::Finite(whole(n as nat) as int),
    {
        let r: u128 = rounding::round_to_24_bits(n as u128, 1);
        proof {
            lemma_unit();
            rounding::lemma_round24_fits(n as nat, 1);
            lemma_whole_bounds(n as nat);
        }
        if r == 0 {
            let number = Binary32 { bits: 0 };
            assert(number.exponent() == 0 && number.fraction() == 0);
            assert(0 * one() == 0);
            return number;
        }
        let v: u128 = r * 0x100_0000_0000;
        proof {
            lemma_fits24_shift(r as nat, 40);
            assert(v * pow2(109) == r * one()) by (nonlinear_arith)
                requires
                    v == r * 0x100_0000_0000,
                    one() == 0x100_0000_0000 * pow2(109),
            ;
        }
        Self::from_scaled(v)
    }

    /// `n` turned into a single-precision number and divided by one thousand.
    pub fn from_thousandths(n: i32) -> (number: Binary32)
        ensures
            number.negative() == (n < 0),
            n >= 0 ==> number.number() == Number::Finite(thousandths(n as nat) as int),
            n < 0 ==> number.number() == Number::Finite(-(thousandths((-n) as nat) as int)),
    {
        let size: u128 = if n < 0 {
            (-(n as i64)) as u128
        } else {
            n as u128
        };
        let ghost abs: nat = if n < 0 {
            (-n) as nat
        } else {
            n as nat
        };
        proof {
            assert(size == abs);
        }
        let r: u128 = rounding::round_to_24_bits(size, 1);
        proof {
            lemma_unit();
            lemma_whole_bounds(abs);
        }
        if r == 0 {
            proof {
                lemma_whole_bounds(abs);
                assert(abs == 0);
                assert(0 * one() == 0);
                assert(thousandths(0) == 0) by {
                    lemma2_to64();
                    assert(0 == 0 * pow2(0));
                    rounding::lemma_round24_exact(0, 1000);
                }
            }
            let number = Binary32 { bits: 0 };
            assert(number.exponent() == 0 && number.fraction() == 0);
            return number;
        }
        let scaled: u128 = r * 0x100_0000_0000;
        let v: u128 = rounding::round_to_24_bits(scaled, 1000);
        proof {
            rounding::lemma_round24_fits(scaled as nat, 1000);
            rounding::lemma_round24_scale(scaled as nat, 1000, 109);
            assert(scaled * pow2(109) == r * one()) by (nonlinear_arith)
                requires
                    scaled == r * 0x100_0000_0000,
                    one() == 0x100_0000_0000 * pow2(109),
            ;
            // the quotient lies between 2^30 and 2^64
            lemma2_to64();
            assert(0x4000_0000 == 1 * pow2(30));
            assert(0x1_0000_0000_0000_0000 == 1 * pow2(64));
            rounding::lemma_round24_exact(0x4000_0000, 1000);
            rounding::lemma_round24_exact(0x1_0000_0000_0000_0000, 1000);
            rounding::lemma_round24_monotone(0x4000_0000 * 1000, 1000, scaled as nat, 1000);
            rounding::lemma_round24_monotone(
                scaled as nat,
                1000,
                0x1_0000_0000_0000_0000 * 1000,
                1000,
            );
        }
        let number = Self::from_scaled(v);
        if n < 0 {
            let mirrored = Binary32 { bits: number.bits + 0x8000_0000 };
            assert(mirrored.exponent() == number.exponent());
            assert(mirrored.fraction() == number.fraction());
            mirrored
        } else {
            number
        }
    }
}

/// Forty binary places beside the 109 others of the smallest positive number.
proof fn lemma_unit()
    ensures
        pow2(40) == 0x100_0000_0000,
        one() == 0x100_0000_0000 * pow2(109),
        one() > 0,
{
    lemma2_to64();
    lemma2_to64_rest();
    lemma_pow2_adds(40, 109);
    lemma_pow2_pos(149);
}

/// Shifting does not take more significant bits.
proof fn lemma_fits24_shift(v: nat, k: nat)
    requires
        rounding::fits24(v),
    ensures
        rounding::fits24(v * pow2(k)),
{
    let (m, j) = choose|m: nat, j: nat| m <= 0x100_0000 && v == #[trigger] (m * pow2(j));
    lemma_pow2_adds(j, k);
    assert(v * pow2(k) == m * pow2(j + k)) by (nonlinear_arith)
        requires
            v == m * pow2(j),
            pow2(j + k) == pow2(j) * pow2(k),
    ;
}

/// Rounding a whole number of at most 32 bits keeps it in that range, and keeps
/// it positive.
proof fn lemma_whole_bounds(n: nat)
    requires
        n < 0x1_0000_0000,
    ensures
        rounding::round24(n, 1) <= 0x1_0000_0000,
        rounding::round24(n, 1) == 0 <==> n == 0,
{
    lemma2_to64();
    assert(1 == 1 * pow2(0));
    assert(0 == 0 * pow2(0));
    assert(0x1_0000_0000 == 1 * pow2(32));
    rounding::lemma_round24_exact(0, 1);
    rounding::lemma_round24_exact(1, 1);
    rounding::lemma_round24_exact(0x1_0000_0000, 1);
    rounding::lemma_round24_monotone(n, 1, 0x1_0000_0000, 1);
    if n > 0 {
        rounding::lemma_round24_monotone(1, 1, n, 1);
    }
}

/// The result of an operation whose exact result is `x`.
pub open spec fn rounded(x: int) -> int {
    quotient(x, 1)
}

/// The single-precision quotient of `x` and the whole number `d`.
pub open spec fn quotient(x: int, d: nat) -> int {
    if x >= 0 {
        rounding::round24(x as nat, d) as int
    } else {
        -(rounding::round24((-x) as nat, d) as int)
    }
}

/// The whole number nearest to `x`; of two equally near ones, that farther from zero.
pub open spec fn nearest_whole(x: int) -> int {
    if x >= 0 {
        (2 * x + one()) / (2 * one() as int)
    } else {
        -((-2 * x + one()) / (2 * one() as int))
    }
}

/// Operations keep the order of their exact results.
pub proof fn lemma_rounded_monotone(x: int, y: int)
    requires
        x <= y,
    ensures
        rounded(x) <= rounded(y),
{
    if x >= 0 {
        rounding::lemma_round24_monotone(x as nat, 1, y as nat, 1);
    } else if y < 0 {
        rounding::lemma_round24_monotone((-y) as nat, 1, (-x) as nat, 1);
    }
}

/// Whole quarters of up to 22 bits are single-precision numbers.
pub proof fn lemma_rounded_quarters(k: int)
    requires
        -0x40_0000 <= k <= 0x40_0000,
    ensures
        rounded(k * pow2(147)) == k * pow2(147),
        one() == 4 * pow2(147),
{
    lemma_pow2_adds(2, 147);
    lemma2_to64();
    let u = pow2(147);
    lemma_pow2_pos(147);
    if k >= 0 {
        assert((k * u) as nat == (k as nat) * pow2(147)) by (nonlinear_arith)
            requires
                k >= 0,
                u == pow2(147),
        ;
        assert(k * u >= 0) by (nonlinear_arith)
            requires
                k >= 0,
        ;
        assert(rounding::fits24((k as nat) * pow2(147)));
        rounding::lemma_round24_exact((k * u) as nat, 1);
    } else {
        assert(-(k * u) == (-k) * u) by (nonlinear_arith);
        assert((-k) * u > 0) by (nonlinear_arith)
            requires
                k < 0,
                u > 0,
        ;
        assert(((-k) * u) as nat == ((-k) as nat) * pow2(147));
        assert(rounding::fits24(((-k) as nat) * pow2(147)));
        rounding::lemma_round24_exact(((-k) * u) as nat, 1);
    }
}

/// Whole numbers of up to 20 bits are single-precision numbers.
pub proof fn lemma_rounded_whole(k: int)
    requires
        -0x10_0000 <= k <= 0x10_0000,
    ensures
        rounded(k * one()) == k * one(),
{
    lemma_rounded_quarters(4 * k);
    assert(k * (4 * pow2(147)) == (4 * k) * pow2(147)) by (nonlinear_arith);
}

/// What is less than a quarter away from a whole number has that one as the nearest.
pub proof fn lemma_nearest_whole_close(x: int, k: int)
    requires
        k >= 0,
        x >= 0,
        k * one() - pow2(147) <= x <= k * one() + pow2(147),
    ensures
        nearest_whole(x) == k,
{
    lemma_pow2_adds(2, 147);
    lemma2_to64();
    lemma_pow2_pos(147);
    let u = one() as int;
    let q = pow2(147) as int;
    assert(u == 4 * q);
    let n = 2 * x + u;
    assert(k * (2 * u) == 2 * (k * u)) by (nonlinear_arith);
    vstd::arithmetic::div_mod::lemma_fundamental_div_mod_converse(
        n,
        2 * u,
        k,
        n - k * (2 * u),
    );
}

/// The nearest whole number keeps the order.
pub proof fn lemma_nearest_whole_monotone(x: int, y: int)
    requires
        0 <= x <= y,
    ensures
        0 <= nearest_whole(x) <= nearest_whole(y),
{
    lemma_pow2_pos(149);
    vstd::arithmetic::div_mod::lemma_div_is_ordered(
        2 * x + one(),
        2 * y + one(),
        2 * one() as int,
    );
    vstd::arithmetic::div_mod::lemma_div_pos_is_pos(2 * x + one(), 2 * one() as int);
}

/// A larger exponent makes a larger magnitude.
proof fn lemma_exponent_order(a: Binary32, b: Binary32)
    requires
        a.exponent() < b.exponent(),
    ensures
        a.magnitude() < b.magnitude(),
{
    lemma2_to64();
    let f = (b.exponent() - 1) as nat;
    lemma_pow2_pos(f);
    assert((0x80_0000 + b.fraction()) * pow2(f) >= 0x80_0000 * pow2(f)) by (nonlinear_arith);
    if a.exponent() > 0 {
        let e = (a.exponent() - 1) as nat;
        lemma_pow2_pos(e);
        lemma_pow2_unfold(f);
        if e < f - 1 {
            lemma_pow2_strictly_increases(e, (f - 1) as nat);
        }
        assert((0x80_0000 + a.fraction()) * pow2(e) < 0x100_0000 * pow2(e)) by (nonlinear_arith)
            requires
                a.fraction() < 0x80_0000,
                pow2(e) > 0,
        ;
    }
}

/// A number and its sign leave no choice of the bit pattern.
pub proof fn law_bits_determined(a: Binary32, b: Binary32)
    requires
        a.number() == b.number(),
        a.number() !is NotANumber,
        a.negative() == b.negative(),
    ensures
        a == b,
{
    if a.number() is Finite {
        if a.exponent() < b.exponent() {
            lemma_exponent_order(a, b);
        }
        if a.exponent() > b.exponent() {
            lemma_exponent_order(b, a);
        }
        assert(a.exponent() == b.exponent());
        if a.exponent() > 0 {
            let e = (a.exponent() - 1) as nat;
            lemma_pow2_pos(e);
            let x = 0x80_0000 + a.fraction();
            let y = 0x80_0000 + b.fraction();
            assert(x == y) by (nonlinear_arith)
                requires
                    x * pow2(e) == y * pow2(e),
                    pow2(e) > 0,
            ;
        }
    }
    assert(a.bits == b.bits);
}

/// From zero on, each pattern stands for the number one unit of its last place above the one
/// before, up to the largest number. Setting the sign changes the sign and nothing else.
pub proof fn law_single_steps(v: Binary32, next: Binary32, mirrored: Binary32)
    requires
        v.bits < 0x7f7f_ffff,
        next.bits == v.bits + 1,
        mirrored.bits == v.bits + 0x8000_0000,
    ensures
        v.number() is Finite,
        v.bits == 0 ==> v.number()->Finite_0 == 0,
        next.number() is Finite,
        v.bits < 0x100_0000 ==> next.number()->Finite_0 == v.number()->Finite_0 + 1,
        v.bits >= 0x100_0000 ==> next.number()->Finite_0 == v.number()->Finite_0 + pow2(
            (v.bits as nat / 0x80_0000 - 1) as nat,
        ),
        mirrored.number() == Number::Finite(-(v.number()->Finite_0)),
        !v.negative(),
        mirrored.negative(),
{
    lemma2_to64();
    let e = v.bits as nat / 0x80_0000;
    let f = v.bits as nat % 0x80_0000;
    assert(v.exponent() == e && v.fraction() == f);
    assert(mirrored.exponent() == e && mirrored.fraction() == f);
    if f < 0x7f_ffff {
        assert(next.exponent() == e && next.fraction() == f + 1);
        if e > 0 {
            let p = pow2((e - 1) as nat);
            assert((0x80_0000 + (f + 1)) * p == (0x80_0000 + f) * p + p) by (nonlinear_arith);
        }
    } else {
        assert(next.exponent() == e + 1 && next.fraction() == 0);
        if e > 0 {
            lemma_pow2_unfold(e);
            let p = pow2((e - 1) as nat);
            assert(0x80_0000 * (2 * p) == (0x80_0000 + 0x7f_ffff) * p + p) by (nonlinear_arith);
        }
    }
}

/// The patterns behind those of the numbers are the two infinities and what is not a number.
pub proof fn law_single_beyond(v: Binary32)
    ensures
        v.bits == 0x7f80_0000 ==> v.number() == (Number::Infinite { negative: false }),
        v.bits == 0xff80_0000 ==> v.number() == (Number::Infinite { negative: true }),
        0x7f80_0000 < v.bits < 0x8000_0000 ==> v.number() is NotANumber,
        v.bits > 0xff80_0000 ==> v.number() is NotANumber,
        v.number() is Finite <==> v.bits < 0x7f80_0000 || 0x8000_0000 <= v.bits < 0xff80_0000,
{
}

/// A number is at most and at least a whole number at once exactly where it is that number.
/// It is one of the two always, and it keeps to either as whole numbers grow or shrink.
pub proof fn law_compared_with_whole(n: Number, k: int, larger: int)
    requires
        k < larger,
    ensures
        n.at_most(k) && n.at_least(k) <==> n == Number::Finite(k * pow2(149)),
        n !is NotANumber <==> n.at_most(k) || n.at_least(k),
        n.at_most(k) ==> n.at_most(larger) && !n.at_least(larger),
        n.at_least(larger) ==> n.at_least(k) && !n.at_most(k),
        n == (Number::Infinite { negative: true }) ==> n.at_most(k),
        n == (Number::Infinite { negative: false }) ==> n.at_least(k),
        n matches Number::Finite(v) ==> {
            &&& v < k * pow2(149) ==> n.at_most(k)
            &&& v > k * pow2(149) ==> n.at_least(k)
        },
{
    lemma_powers();
    let u = one() as int;
    assert(k * u < larger * u) by (nonlinear_arith)
        requires
            k < larger,
            u > 0,
    ;
}

/// Numbers are ordered as their values are, between the two infinities. What is not a number
/// has no place in the order.
pub proof fn law_order_of_numbers(s: Number, t: Number)
    ensures
        s is Finite && t is Finite ==> (s.no_greater_than(t) <==> s->Finite_0 <= t->Finite_0),
        s is NotANumber || t is NotANumber ==> !s.no_greater_than(t),
        s is Infinite && s->negative && t !is NotANumber ==> s.no_greater_than(t),
        t is Infinite && !t->negative && s !is NotANumber ==> s.no_greater_than(t),
        s is Infinite && !s->negative && s.no_greater_than(t) ==> t == s,
        t is Infinite && t->negative && s.no_greater_than(t) ==> s == t,
{
}

/// Whole degrees of up to 24 bits are held exactly, larger ones to one part in 2^24.
pub proof fn law_whole_degrees(n: nat)
    ensures
        n <= 0x100_0000 ==> whole(n) == n * pow2(149),
        0x100_0000 * (whole(n) - n * pow2(149)) <= n * pow2(149),
        0x100_0000 * (n * pow2(149) - whole(n)) <= n * pow2(149),
{
    lemma_powers();
    lemma2_to64();
    let u = one() as int;
    let r = rounding::round24(n, 1) as int;
    rounding::lemma_round24_whole_error(n);
    assert(0x100_0000 * (r * u - n * u) <= n * u && 0x100_0000 * (n * u - r * u) <= n * u)
        by (nonlinear_arith)
        requires
            0x100_0000 * (r - n) <= n,
            0x100_0000 * (n - r) <= n,
            u > 0,
    ;
    if n <= 0x100_0000 {
        assert(n == n * pow2(0));
        assert(rounding::fits24(n));
        rounding::lemma_round24_exact(n, 1);
    }
}

/// A count of thousandths, of any size, is held to one part in 2^22.
pub proof fn law_thousandths_close(n: nat)
    ensures
        0x40_0000 * (1000 * thousandths(n) - n * pow2(149)) <= n * pow2(149),
        0x40_0000 * (n * pow2(149) - 1000 * thousandths(n)) <= n * pow2(149),
{
    lemma_powers();
    lemma2_to64();
    let u = one();
    let x = whole(n);
    law_whole_degrees(n);
    let t = thousandths(n);
    assert(0x100_0000 * (1000 * t - x) <= x && 0x100_0000 * (x - 1000 * t) <= x) by {
        if n == 0 {
            assert(0 * u == 0);
            assert(0 == 0 * pow2(0));
            rounding::lemma_round24_exact(0, 1);
            rounding::lemma_round24_exact(0, 1000);
        } else {
            let r = rounding::round24(n, 1);
            assert(1 == 1 * pow2(0));
            rounding::lemma_round24_exact(1, 1);
            rounding::lemma_round24_monotone(1, 1, n, 1);
            assert(x >= u) by (nonlinear_arith)
                requires
                    x == r * u,
                    r >= 1,
            ;
            let q = x / 1000;
            let k = rounding::excess_bits(q);
            rounding::lemma_round24_error(x, 1000);
            rounding::lemma_excess_bits_bounds(q);
            lemma_pow2_pos(k);
            if k == 0 {
                assert(u >= 0x1_0000_0000_0000_0000_0000_0000) by (nonlinear_arith)
                    requires
                        u == 0x1_0000_0000_0000_0000_0000_0000 * pow2(53),
                        pow2(53) >= 1,
                ;
                assert(q >= 0x100_0000);
                assert(false);
            }
        }
    }
}

/// No single-precision number is nearer to a whole number than the one that stands for it,
/// nor nearer to a thousandth of that one than the one that is read.
pub proof fn law_readings_nearest(n: nat, m: nat, k: nat)
    requires
        m <= 0x100_0000,
    ensures
        ({
            let exact = n * pow2(149);
            let other = m * pow2(k + 149);
            &&& other <= exact ==> exact - whole(n) <= exact - other && whole(n) - exact <= exact
                - other
            &&& other >= exact ==> exact - whole(n) <= other - exact && whole(n) - exact <= other
                - exact
        }),
        ({
            let read = 1000 * thousandths(n);
            let other = 1000 * (m * pow2(k));
            &&& other <= whole(n) ==> whole(n) - read <= whole(n) - other && read - whole(n)
                <= whole(n) - other
            &&& other >= whole(n) ==> whole(n) - read <= other - whole(n) && read - whole(n)
                <= other - whole(n)
        }),
{
    lemma_powers();
    let u = one() as int;
    let v = m * pow2(k);
    assert(rounding::fits24(v));
    rounding::law_round24_is_nearest(whole(n), 1000, v);
    rounding::law_round24_is_nearest(n, 1, v);
    lemma_pow2_adds(k, 149);
    let r = rounding::round24(n, 1) as int;
    let other = m * pow2(k + 149);
    assert(other == v * u) by (nonlinear_arith)
        requires
            other == m * pow2(k + 149),
            pow2(k + 149) == pow2(k) * u,
            v == m * pow2(k),
    ;
    if other <= n * u {
        assert(v <= n) by (nonlinear_arith)
            requires
                v * u <= n * u,
                u > 0,
        ;
        assert(n * u - r * u <= n * u - v * u && r * u - n * u <= n * u - v * u)
            by (nonlinear_arith)
            requires
                n - r <= n - v,
                r - n <= n - v,
                u > 0,
        ;
    }
    if other >= n * u {
        assert(v >= n) by (nonlinear_arith)
            requires
                v * u >= n * u,
                u > 0,
        ;
        assert(n * u - r * u <= v * u - n * u && r * u - n * u <= v * u - n * u)
            by (nonlinear_arith)
            requires
                n - r <= v - n,
                r - n <= v - n,
                u > 0,
        ;
    }
}

}
