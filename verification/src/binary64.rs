//! Double-precision numbers, held by their bit pattern.

use vstd::prelude::*;
use vstd::arithmetic::power2::*;
use crate::binary32::power_of_two;

verus! {

/// A double-precision number: sign, eleven bits of exponent, 52 bits of fraction.
#[derive(Clone, Copy, Debug, PartialEq, Eq, Structural)]
pub struct Binary64 {
    /// The bit pattern, sign first.
    pub bits: u64,
}

impl Binary64 {
    /// Whether the sign bit is set.
    pub open spec fn negative(self) -> bool {
        self.bits >= 0x8000_0000_0000_0000
    }

    /// The biased exponent.
    pub open spec fn exponent(self) -> nat {
        (self.bits as nat / 0x10_0000_0000_0000) % 2048
    }

    /// The bits behind the leading one.
    pub open spec fn fraction(self) -> nat {
        self.bits as nat % 0x10_0000_0000_0000
    }

    /// The absolute value of a pattern whose exponent is not the largest, as a multiple of
    /// the smallest positive number, two to the power -1074.
    pub open spec fn magnitude(self) -> nat {
        if self.exponent() == 0 {
            self.fraction()
        } else {
            (0x10_0000_0000_0000 + self.fraction()) * pow2((self.exponent() - 1) as nat)
        }
    }

    /// The whole part of the number, brought into the range from zero to `max`. What is
    /// not a number counts as zero.
    pub open spec fn whole_up_to(self, max: nat) -> nat {
        if self.exponent() == 2047 && self.fraction() > 0 {
            0
        } else if self.negative() {
            0
        } else if self.exponent() == 2047 || self.magnitude() / pow2(1074) > max {
            max
        } else {
            self.magnitude() / pow2(1074)
        }
    }

    /// The whole part of the number, brought into the range from zero to `max`.
    fn saturate(self, max: u16) -> (whole: u16)
        ensures
            whole == self.whole_up_to(max as nat),
    {
        let e: u64 = (self.bits / 0x10_0000_0000_0000) % 2048;
        let f: u64 = self.bits % 0x10_0000_0000_0000;
        if e == 2047 && f > 0 {
            return 0;
        }
        if self.bits >= 0x8000_0000_0000_0000 {
            return 0;
        }
        if e < 1023 {
            proof {
                self.lemma_below_one();
            }
            return 0;
        }
        if e >= 1039 {
            proof {
                if e < 2047 {
                    self.lemma_beyond();
                }
            }
            return max;
        }
        let m: u64 = 0x10_0000_0000_0000 + f;
        let p: u128 = power_of_two((1075 - e) as u32);
        proof {
            self.lemma_whole();
        }
        let whole: u128 = m as u128 / p;
        if whole > max as u128 {
            max
        } else {
            whole as u16
        }
    }

    /// An exponent below that of one leaves no whole part.
    proof fn lemma_below_one(self)
        requires
            self.exponent() < 1023,
        ensures
            self.magnitude() / pow2(1074) == 0,
    {
        lemma2_to64();
        lemma2_to64_rest();
        lemma_pow2_adds(53, 1021);
        lemma_pow2_pos(1021);
        let m = self.magnitude();
        let one = pow2(1074);
        assert(0x20_0000_0000_0000 * pow2(1021) == one);
        assert(m < one) by {
            if self.exponent() > 0 {
                let e = (self.exponent() - 1) as nat;
                if e < 1021 {
                    lemma_pow2_strictly_increases(e, 1021);
                }
                lemma_pow2_pos(e);
                assert((0x10_0000_0000_0000 + self.fraction()) * pow2(e) < 0x20_0000_0000_0000
                    * pow2(1021)) by (nonlinear_arith)
                    requires
                        self.fraction() < 0x10_0000_0000_0000,
                        0 < pow2(e) <= pow2(1021),
                ;
            } else {
                assert(0x20_0000_0000_0000 * pow2(1021) >= 0x20_0000_0000_0000)
                    by (nonlinear_arith)
                    requires
                        pow2(1021) >= 1,
                ;
            }
        }
        vstd::arithmetic::div_mod::lemma_basic_div(m as int, one as int);
    }

    /// An exponent above that of 65535 is beyond every bound here.
    proof fn lemma_beyond(self)
        requires
            1039 <= self.exponent() < 2047,
        ensures
            self.magnitude() / pow2(1074) >= 0x1_0000,
    {
        lemma2_to64();
        lemma2_to64_rest();
        lemma_pow2_adds(16, 1074);
        lemma_pow2_adds(52, 1038);
        lemma_pow2_pos(1074);
        let e = (self.exponent() - 1) as nat;
        if e > 1038 {
            lemma_pow2_strictly_increases(1038, e);
        }
        let m = self.magnitude();
        assert(m >= 0x10_0000_0000_0000 * pow2(1038)) by (nonlinear_arith)
            requires
                m == (0x10_0000_0000_0000 + self.fraction()) * pow2(e),
                pow2(e) >= pow2(1038),
        ;
        vstd::arithmetic::div_mod::lemma_div_is_ordered(
            (0x1_0000 * pow2(1074)) as int,
            m as int,
            pow2(1074) as int,
        );
        vstd::arithmetic::div_mod::lemma_div_multiples_vanish(0x1_0000, pow2(1074) as int);
    }

    /// In between, the whole part is what stands before the binary point.
    proof fn lemma_whole(self)
        requires
            1023 <= self.exponent() < 1039,
        ensures
            self.magnitude() / pow2(1074) == (0x10_0000_0000_0000 + self.fraction()) / pow2(
                (1075 - self.exponent()) as nat,
            ),
    {
        let e = (self.exponent() - 1) as nat;
        let r = (1075 - self.exponent()) as nat;
        let m = 0x10_0000_0000_0000 + self.fraction();
        lemma_pow2_adds(r, e);
        lemma_pow2_pos(r);
        lemma_pow2_pos(e);
        vstd::arithmetic::div_mod::lemma_div_denominator(
            (m * pow2(e)) as int,
            pow2(e) as int,
            pow2(r) as int,
        );
        assert(pow2(e) * pow2(r) == pow2(r) * pow2(e)) by (nonlinear_arith);
        vstd::arithmetic::div_mod::lemma_div_multiples_vanish(m as int, pow2(e) as int);
        assert(pow2(e) * m == m * pow2(e)) by (nonlinear_arith);
    }

    /// The whole part, between zero and 255.
    pub fn to_u8(self) -> (whole: u8)
        ensures
            whole == self.whole_up_to(255),
    {
        self.saturate(255) as u8
    }

    /// The whole part, between zero and 65535.
    pub fn to_u16(self) -> (whole: u16)
        ensures
            whole == self.whole_up_to(65535),
    {
        self.saturate(65535)
    }
}

/// From zero on, each pattern stands for the number one unit of its last place above the one
/// before, up to the largest number. The sign does not show in the magnitude.
pub proof fn law_double_steps(v: Binary64, next: Binary64, mirrored: Binary64)
    requires
        v.bits < 0x7fef_ffff_ffff_ffff,
        next.bits == v.bits + 1,
        mirrored.bits == v.bits + 0x8000_0000_0000_0000,
    ensures
        v.bits == 0 ==> v.magnitude() == 0,
        v.bits < 0x20_0000_0000_0000 ==> next.magnitude() == v.magnitude() + 1,
        v.bits >= 0x20_0000_0000_0000 ==> next.magnitude() == v.magnitude() + pow2(
            (v.bits as nat / 0x10_0000_0000_0000 - 1) as nat,
        ),
        mirrored.magnitude() == v.magnitude(),
{
    lemma2_to64();
    let e = v.bits as nat / 0x10_0000_0000_0000;
    let f = v.bits as nat % 0x10_0000_0000_0000;
    assert(v.exponent() == e && v.fraction() == f);
    assert(mirrored.exponent() == e && mirrored.fraction() == f);
    if f < 0xf_ffff_ffff_ffff {
        assert(next.exponent() == e && next.fraction() == f + 1);
        if e > 0 {
            let p = pow2((e - 1) as nat);
            assert((0x10_0000_0000_0000 + (f + 1)) * p == (0x10_0000_0000_0000 + f) * p + p)
                by (nonlinear_arith);
        }
    } else {
        assert(next.exponent() == e + 1 && next.fraction() == 0);
        if e > 0 {
            lemma_pow2_unfold(e);
            let p = pow2((e - 1) as nat);
            assert(0x10_0000_0000_0000 * (2 * p) == (0x10_0000_0000_0000 + 0xf_ffff_ffff_ffff) * p
                + p) by (nonlinear_arith);
        }
    }
}

/// The whole part of a number from zero on is the largest whole number that is no greater,
/// but no more than `max`. Below zero it is zero, and so it is for what is not a number;
/// without end it is `max`.
pub proof fn law_whole_part(v: Binary64, max: nat)
    ensures
        v.bits >= 0x8000_0000_0000_0000 ==> v.whole_up_to(max) == 0,
        0x7ff0_0000_0000_0000 < v.bits < 0x8000_0000_0000_0000 ==> v.whole_up_to(max) == 0,
        v.bits == 0x7ff0_0000_0000_0000 ==> v.whole_up_to(max) == max,
        v.bits < 0x7ff0_0000_0000_0000 ==> {
            let whole = v.whole_up_to(max);
            &&& whole <= max
            &&& whole * pow2(1074) <= v.magnitude()
            &&& whole < max ==> v.magnitude() < (whole + 1) * pow2(1074)
        },
{
    let one = pow2(1074) as int;
    lemma_pow2_pos(1074);
    let m = v.magnitude() as int;
    vstd::arithmetic::div_mod::lemma_fundamental_div_mod(m, one);
    vstd::arithmetic::div_mod::lemma_mod_bound(m, one);
    let q = m / one;
    assert(q * one <= m < (q + 1) * one) by (nonlinear_arith)
        requires
            m == one * q + m % one,
            0 <= m % one < one,
    ;
    if q > max {
        assert(max * one <= q * one) by (nonlinear_arith)
            requires
                max <= q,
                one > 0,
        ;
    }
}

/// A number between two neighbouring whole ones has the smaller as its whole part.
pub proof fn law_whole_part_found(v: Binary64, max: nat, whole: nat)
    requires
        v.bits < 0x7ff0_0000_0000_0000,
        whole * pow2(1074) <= v.magnitude() < (whole + 1) * pow2(1074),
    ensures
        v.whole_up_to(max) == if whole < max {
            whole
        } else {
            max
        },
{
    law_whole_part(v, max);
    let one = pow2(1074) as int;
    lemma_pow2_pos(1074);
    let found = v.whole_up_to(max);
    let m = v.magnitude() as int;
    assert(found <= whole) by (nonlinear_arith)
        requires
            found * one <= m,
            m < (whole + 1) * one,
            one > 0,
    ;
    if found < max {
        assert(whole <= found) by (nonlinear_arith)
            requires
                whole * one <= m,
                m < (found + 1) * one,
                one > 0,
        ;
    }
}

}
