//! Temperature sensors and the curves that turn their readings into fan speeds.

use vstd::prelude::*;
use vstd::arithmetic::power2::*;
use crate::binary32;
use crate::binary32::{Binary32, Number};
use crate::comms::CurvePoint;
use crate::curve_laws;
use crate::rounding;
use crate::text;

verus! {

/// `rpm` brought up to the lower bound of `clamp`, then down to the upper one.
pub open spec fn clip(rpm: int, clamp: (u16, u16)) -> int {
    let raised = if rpm < clamp.0 {
        clamp.0 as int
    } else {
        rpm
    };
    if raised > clamp.1 {
        clamp.1 as int
    } else {
        raised
    }
}

/// How far `temp` has come from the temperature of `a` to that of `b`, as a
/// single-precision number between zero and one.
pub open spec fn share(a: CurvePoint, b: CurvePoint, temp: int) -> int {
    let along = binary32::rounded(temp - a.temp_c * binary32::one());
    let quotient = binary32::quotient(along, (b.temp_c - a.temp_c) as nat);
    if quotient < 0 {
        0
    } else if quotient > binary32::one() {
        binary32::one() as int
    } else {
        quotient
    }
}

/// The speed on the line from `a` to `b` at `temp`, in single precision.
pub open spec fn speed_on_line(a: CurvePoint, b: CurvePoint, temp: int) -> int {
    let rise = binary32::rounded(share(a, b, temp) * (b.rpm - a.rpm));
    binary32::rounded(a.rpm * binary32::one() + rise)
}

/// The speed on the line from `a` to `b` at `temp`, to the nearest whole number.
pub open spec fn interpolated(a: CurvePoint, b: CurvePoint, temp: int) -> int {
    binary32::nearest_whole(speed_on_line(a, b, temp))
}

/// Whether `temp` lies between the temperatures of the points `i` and `i + 1`.
pub open spec fn brackets(curve: Seq<CurvePoint>, i: int, temp: Number) -> bool {
    temp.at_least(curve[i].temp_c as int) && temp.at_most(curve[i + 1].temp_c as int)
}

/// The first point from `i` on that brackets `temp` together with its successor;
/// the last point where there is none.
pub open spec fn first_bracket(curve: Seq<CurvePoint>, temp: Number, i: int) -> int
    decreases curve.len() - i,
{
    if i >= curve.len() - 1 {
        curve.len() - 1
    } else if brackets(curve, i, temp) {
        i
    } else {
        first_bracket(curve, temp, i + 1)
    }
}

/// The speed between two neighbouring points whose temperatures bracket `temp`.
pub open spec fn between(a: CurvePoint, b: CurvePoint, temp: Number) -> int {
    if b.temp_c <= a.temp_c {
        b.rpm as int
    } else {
        interpolated(a, b, temp->Finite_0)
    }
}

/// The speed that a curve with points gives at `temp`, before it is clipped.
pub open spec fn curve_speed(curve: Seq<CurvePoint>, temp: Number) -> int {
    let last = curve.len() - 1;
    if temp.at_most(curve[0].temp_c as int) {
        curve[0].rpm as int
    } else if temp.at_least(curve[last].temp_c as int) {
        curve[last].rpm as int
    } else {
        let i = first_bracket(curve, temp, 0);
        if i == last {
            curve[last].rpm as int
        } else {
            between(curve[i], curve[i + 1], temp)
        }
    }
}

/// The speed that `curve` asks for at `temp` within `clamp`.
pub open spec fn target_speed(curve: Seq<CurvePoint>, temp: Number, clamp: (u16, u16)) -> int {
    if curve.len() == 0 {
        clamp.0 as int
    } else {
        clip(curve_speed(curve, temp), clamp)
    }
}

/// Every step of the interpolation stays between what it gives at the two ends.
pub proof fn lemma_line_bounds(a: CurvePoint, b: CurvePoint, temp: int)
    requires
        a.temp_c < b.temp_c,
        a.temp_c * binary32::one() <= temp <= b.temp_c * binary32::one(),
    ensures
        0 <= binary32::rounded(temp - a.temp_c * binary32::one()) <= (b.temp_c - a.temp_c)
            * binary32::one(),
        0 <= share(a, b, temp) <= binary32::one(),
        share(a, b, temp) == binary32::quotient(
            binary32::rounded(temp - a.temp_c * binary32::one()),
            (b.temp_c - a.temp_c) as nat,
        ),
        a.rpm <= b.rpm ==> 0 <= binary32::rounded(share(a, b, temp) * (b.rpm - a.rpm)) <= (b.rpm
            - a.rpm) * binary32::one(),
        a.rpm >= b.rpm ==> (b.rpm - a.rpm) * binary32::one() <= binary32::rounded(
            share(a, b, temp) * (b.rpm - a.rpm),
        ) <= 0,
        a.rpm <= b.rpm ==> a.rpm * binary32::one() <= speed_on_line(a, b, temp) <= b.rpm
            * binary32::one(),
        a.rpm >= b.rpm ==> b.rpm * binary32::one() <= speed_on_line(a, b, temp) <= a.rpm
            * binary32::one(),
{
    let u = binary32::one() as int;
    lemma_pow2_pos(149);
    let dt = b.temp_c - a.temp_c;
    assert((b.temp_c - a.temp_c) * u == b.temp_c * u - a.temp_c * u) by (nonlinear_arith);
    assert(0 * u == 0);
    let x = temp - a.temp_c * u;
    let along = binary32::rounded(x);
    binary32::lemma_rounded_whole(0);
    binary32::lemma_rounded_whole(dt);
    binary32::lemma_rounded_monotone(0, x);
    binary32::lemma_rounded_monotone(x, dt * u);
    let s = binary32::quotient(along, dt as nat);
    assert(0 <= s <= u) by {
        lemma2_to64();
        assert(u == 1 * pow2(149));
        assert(rounding::fits24(u as nat));
        rounding::lemma_round24_exact(u as nat, dt as nat);
        assert((u as nat) * (dt as nat) == (dt * u) as nat) by (nonlinear_arith)
            requires
                u >= 0,
                dt >= 0,
        ;
        assert((along as nat) * (dt as nat) <= ((dt * u) as nat) * (dt as nat)) by (nonlinear_arith)
            requires
                0 <= along <= dt * u,
                dt >= 0,
        ;
        rounding::lemma_round24_monotone(along as nat, dt as nat, (dt * u) as nat, dt as nat);
    }
    let d = b.rpm - a.rpm;
    let rise = binary32::rounded(s * d);
    binary32::lemma_rounded_whole(d);
    binary32::lemma_rounded_whole(a.rpm as int);
    binary32::lemma_rounded_whole(b.rpm as int);
    assert(a.rpm * u + d * u == b.rpm * u) by (nonlinear_arith)
        requires
            d == b.rpm - a.rpm,
    ;
    if a.rpm <= b.rpm {
        assert(0 <= s * d <= d * u) by (nonlinear_arith)
            requires
                0 <= s <= u,
                0 <= d,
        ;
        binary32::lemma_rounded_monotone(0, s * d);
        binary32::lemma_rounded_monotone(s * d, d * u);
        binary32::lemma_rounded_monotone(a.rpm * u, a.rpm * u + rise);
        binary32::lemma_rounded_monotone(a.rpm * u + rise, b.rpm * u);
    }
    if a.rpm >= b.rpm {
        assert(d * u <= s * d <= 0) by (nonlinear_arith)
            requires
                0 <= s <= u,
                d <= 0,
        ;
        binary32::lemma_rounded_monotone(s * d, 0);
        binary32::lemma_rounded_monotone(d * u, s * d);
        binary32::lemma_rounded_monotone(b.rpm * u, a.rpm * u + rise);
        binary32::lemma_rounded_monotone(a.rpm * u + rise, a.rpm * u);
    }
}

/// The whole number nearest to a number of turns between two whole ones.
proof fn lemma_nearest_between(x: int, lo: int, hi: int)
    requires
        0 <= lo,
        lo * binary32::one() <= x <= hi * binary32::one(),
    ensures
        lo <= binary32::nearest_whole(x) <= hi,
{
    let u = binary32::one() as int;
    lemma_pow2_pos(149);
    lemma_pow2_pos(147);
    assert(lo * u >= 0) by (nonlinear_arith)
        requires
            lo >= 0,
            u >= 0,
    ;
    assert(hi >= 0) by (nonlinear_arith)
        requires
            0 <= hi * u,
            u > 0,
    ;
    binary32::lemma_nearest_whole_monotone(lo * u, x);
    binary32::lemma_nearest_whole_monotone(x, hi * u);
    binary32::lemma_nearest_whole_close(lo * u, lo);
    binary32::lemma_nearest_whole_close(hi * u, hi);
}

/// An interpolated speed lies between those of the two points.
pub proof fn lemma_interpolated_bounds(a: CurvePoint, b: CurvePoint, temp: int)
    requires
        a.temp_c < b.temp_c,
        a.temp_c * binary32::one() <= temp <= b.temp_c * binary32::one(),
    ensures
        a.rpm <= b.rpm ==> a.rpm <= interpolated(a, b, temp) <= b.rpm,
        a.rpm >= b.rpm ==> b.rpm <= interpolated(a, b, temp) <= a.rpm,
{
    lemma_line_bounds(a, b, temp);
    let x = speed_on_line(a, b, temp);
    if a.rpm <= b.rpm {
        lemma_nearest_between(x, a.rpm as int, b.rpm as int);
    }
    if a.rpm >= b.rpm {
        lemma_nearest_between(x, b.rpm as int, a.rpm as int);
    }
}

/// So close to the temperature of `a` nothing can be seen of the rise to `b`.
proof fn lemma_line_start(a: CurvePoint, b: CurvePoint, temp: int)
    requires
        a.temp_c < b.temp_c,
        a.temp_c * binary32::one() <= temp,
        0 <= temp <= pow2(119),
    ensures
        interpolated(a, b, temp) == a.rpm,
{
    let u = binary32::one() as int;
    let small = pow2(119) as int;
    lemma_pow2_strictly_increases(119, 149);
    lemma_pow2_pos(119);
    if a.temp_c >= 1 {
        assert(a.temp_c * u >= u) by (nonlinear_arith)
            requires
                a.temp_c >= 1,
                u >= 0,
        ;
    }
    assert(0 * u == 0);
    assert(b.temp_c * u >= u) by (nonlinear_arith)
        requires
            b.temp_c >= 1,
            u >= 0,
    ;
    lemma_line_bounds(a, b, temp);
    let dt = (b.temp_c - a.temp_c) as nat;
    let along = binary32::rounded(temp);
    assert(small == 1 * pow2(119));
    assert(rounding::fits24(small as nat));
    rounding::lemma_round24_exact(small as nat, 1);
    rounding::lemma_round24_exact(small as nat, dt);
    binary32::lemma_rounded_monotone(temp, small);
    assert((along as nat) * dt <= ((small as nat) * dt) * dt) by (nonlinear_arith)
        requires
            0 <= along <= small,
            dt >= 1,
    ;
    rounding::lemma_round24_monotone(along as nat, dt, (small as nat) * dt, dt);
    let s = share(a, b, temp);
    let d = b.rpm - a.rpm;
    lemma2_to64();
    lemma_pow2_adds(16, 119);
    lemma_pow2_strictly_increases(135, 147);
    let quarter = pow2(147) as int;
    assert(-quarter <= s * d <= quarter) by (nonlinear_arith)
        requires
            0 <= s <= small,
            -65536 <= d <= 65536,
            65536 * small <= quarter,
    ;
    binary32::lemma_rounded_quarters(1);
    binary32::lemma_rounded_quarters(-1);
    binary32::lemma_rounded_monotone(-quarter, s * d);
    binary32::lemma_rounded_monotone(s * d, quarter);
    let rise = binary32::rounded(s * d);
    let k = a.rpm as int;
    binary32::lemma_rounded_quarters(4 * k - 1);
    binary32::lemma_rounded_quarters(4 * k + 1);
    assert((4 * k - 1) * quarter == k * u - quarter) by (nonlinear_arith)
        requires
            u == 4 * quarter,
    ;
    assert((4 * k + 1) * quarter == k * u + quarter) by (nonlinear_arith)
        requires
            u == 4 * quarter,
    ;
    binary32::lemma_rounded_monotone(k * u - quarter, k * u + rise);
    binary32::lemma_rounded_monotone(k * u + rise, k * u + quarter);
    assert(b.rpm * u >= 0 && a.rpm * u >= 0) by (nonlinear_arith)
        requires
            a.rpm >= 0,
            b.rpm >= 0,
            u >= 0,
    ;
    binary32::lemma_nearest_whole_close(speed_on_line(a, b, temp), k);
}

/// The interpolation, step by step, in multiples of `2^-96`.
proof fn lemma_line_scaled(
    a: CurvePoint,
    b: CurvePoint,
    temp: Binary32,
    v: nat,
    along: nat,
    part: nat,
)
    requires
        97 <= temp.exponent() <= 134,
        !temp.negative(),
        v == (0x80_0000 + temp.fraction()) * pow2((temp.exponent() - 54) as nat),
        temp.magnitude() == v * pow2(53),
        a.temp_c < b.temp_c,
        a.temp_c * binary32::one() <= temp.magnitude() <= b.temp_c * binary32::one(),
        v == along + a.temp_c * 0x1_0000_0000_0000_0000_0000_0000,
        part == rounding::round24(along, (b.temp_c - a.temp_c) as nat),
    ensures
        share(a, b, temp.magnitude() as int) == part * pow2(53),
        part <= 0x1_0000_0000_0000_0000_0000_0000,
{
    binary32::lemma_powers();
    let u = binary32::one() as int;
    let c = pow2(53);
    let big: nat = 0x1_0000_0000_0000_0000_0000_0000;
    let t = temp.magnitude() as int;
    let dt = (b.temp_c - a.temp_c) as nat;
    let e = (temp.exponent() - 54) as nat;
    let m = 0x80_0000 + temp.fraction();
    lemma_line_bounds(a, b, t);
    assert(t - a.temp_c * u == along * c) by (nonlinear_arith)
        requires
            t == v * c,
            u == big * c,
            v == along + a.temp_c * big,
    ;
    // the difference is a multiple of the last place of the temperature
    lemma_pow2_adds(e, (96 - e) as nat);
    lemma_pow2_pos(e);
    let rest = pow2((96 - e) as nat);
    let k = m - a.temp_c * rest;
    assert(along == k * pow2(e)) by (nonlinear_arith)
        requires
            along == m * pow2(e) - a.temp_c * big,
            big == pow2(e) * rest,
            k == m - a.temp_c * rest,
    ;
    assert(0 <= k <= m) by (nonlinear_arith)
        requires
            k * pow2(e) >= 0,
            pow2(e) > 0,
            k == m - a.temp_c * rest,
            a.temp_c >= 0,
            rest >= 0,
    ;
    assert(along == (k as nat) * pow2(e));
    assert(rounding::fits24(along));
    rounding::lemma_round24_exact(along, 1);
    rounding::lemma_round24_scale(along, 1, 53);
    // the quotient fills the significand
    if along > 0 {
        assert(along >= pow2(e)) by (nonlinear_arith)
            requires
                along == k * pow2(e),
                along > 0,
                k >= 0,
                pow2(e) > 0,
        ;
        lemma2_to64();
        lemma2_to64_rest();
        if e > 43 {
            lemma_pow2_strictly_increases(43, e);
        }
        vstd::arithmetic::div_mod::lemma_div_is_ordered(
            0x7f80_0000int,
            along as int,
            dt as int,
        );
        vstd::arithmetic::div_mod::lemma_div_is_ordered_by_denominator(
            0x7f80_0000int,
            dt as int,
            255,
        );
        assert(along / dt >= 0x80_0000);
    } else {
        assert(along % dt == 0) by {
            vstd::arithmetic::div_mod::lemma_small_mod(0, dt);
        }
    }
    rounding::lemma_round24_scale(along, dt, 53);
    assert(part <= big) by (nonlinear_arith)
        requires
            part * c <= big * c,
            c > 0,
    ;
}

/// The speed on the line from `a` to `b` at `temp`, to the nearest whole number.
fn interpolate(a: CurvePoint, b: CurvePoint, temp: Binary32) -> (rpm: u16)
    requires
        a.temp_c < b.temp_c,
        temp.number().at_least(a.temp_c as int),
        temp.number().at_most(b.temp_c as int),
    ensures
        temp.number() is Finite,
        rpm == interpolated(a, b, temp.number()->Finite_0),
{
    let e: u32 = (temp.bits / 0x80_0000) % 256;
    let ghost u = binary32::one();
    let ghost t = temp.number()->Finite_0;
    proof {
        binary32::lemma_powers();
        temp.lemma_zero();
        assert(a.temp_c * u >= 0 && b.temp_c * u <= 255 * u) by (nonlinear_arith)
            requires
                0 <= a.temp_c,
                b.temp_c <= 255,
                u >= 0,
        ;
        if e > 134 {
            temp.lemma_large();
        }
    }
    if e < 97 {
        proof {
            temp.lemma_small();
            lemma_line_start(a, b, t);
        }
        return a.rpm;
    }
    proof {
        assert(t == temp.magnitude());
        lemma_line_bounds(a, b, t);
        lemma_interpolated_bounds(a, b, t);
    }
    let v: u128 = temp.scaled();
    let start: u128 = a.temp_c as u128 * 0x1_0000_0000_0000_0000_0000_0000;
    let ghost c = pow2(53);
    let ghost big: int = 0x1_0000_0000_0000_0000_0000_0000;
    proof {
        assert(start <= v) by (nonlinear_arith)
            requires
                start == a.temp_c * big,
                u == big * c,
                a.temp_c * u <= v * c,
                c > 0,
        ;
    }
    let along: u128 = v - start;
    let dt: u128 = (b.temp_c - a.temp_c) as u128;
    let part: u128 = rounding::round_to_24_bits(along, dt);
    proof {
        lemma_line_scaled(a, b, temp, v as nat, along as nat, part as nat);
    }
    let base: u128 = a.rpm as u128 * 0x1_0000_0000_0000_0000_0000_0000;
    let ghost s = share(a, b, t);
    let line: u128;
    if b.rpm >= a.rpm {
        let d: u128 = (b.rpm - a.rpm) as u128;
        proof {
            assert(part * d <= big * 65536) by (nonlinear_arith)
                requires
                    part <= big,
                    d <= 65536,
            ;
            rounding::lemma_round24_scale((part * d) as nat, 1, 53);
            assert((part * d) * c == s * d) by (nonlinear_arith)
                requires
                    s == part * c,
            ;
        }
        let rise: u128 = rounding::round_to_24_bits(part * d, 1);
        proof {
            assert(rise <= big * 65536) by (nonlinear_arith)
                requires
                    rise * c <= d * u,
                    u == big * c,
                    d <= 65536,
                    c > 0,
                    big > 0,
            ;
            rounding::lemma_round24_scale((base + rise) as nat, 1, 53);
            assert((base + rise) * c == a.rpm * u + rise * c) by (nonlinear_arith)
                requires
                    base == a.rpm * big,
                    u == big * c,
            ;
        }
        line = rounding::round_to_24_bits(base + rise, 1);
    } else {
        let d: u128 = (a.rpm - b.rpm) as u128;
        proof {
            assert(part * d <= big * 65536) by (nonlinear_arith)
                requires
                    part <= big,
                    d <= 65536,
            ;
            rounding::lemma_round24_scale((part * d) as nat, 1, 53);
            assert((part * d) * c == -(s * (b.rpm - a.rpm))) by (nonlinear_arith)
                requires
                    s == part * c,
                    d == a.rpm - b.rpm,
            ;
            assert((part * d) * c >= 0) by (nonlinear_arith)
                requires
                    part * d >= 0,
                    c >= 0,
            ;
            assert(0 * c == 0);
        }
        let fall: u128 = rounding::round_to_24_bits(part * d, 1);
        proof {
            lemma2_to64();
            if part * d == 0 {
                assert(0 == 0 * pow2(0));
                rounding::lemma_round24_exact(0, 1);
            }
            assert(binary32::rounded(s * (b.rpm - a.rpm)) == -(fall * c));
            assert(fall <= base) by (nonlinear_arith)
                requires
                    fall * c <= d * u,
                    u == big * c,
                    d <= a.rpm,
                    base == a.rpm * big,
                    c > 0,
                    big > 0,
            ;
            rounding::lemma_round24_scale((base - fall) as nat, 1, 53);
            assert((base - fall) * c == a.rpm * u - fall * c) by (nonlinear_arith)
                requires
                    base == a.rpm * big,
                    u == big * c,
            ;
        }
        line = rounding::round_to_24_bits(base - fall, 1);
    }
    proof {
        assert(speed_on_line(a, b, t) == line * c);
        assert(line <= big * 65536) by (nonlinear_arith)
            requires
                line * c <= 65536 * u,
                u == big * c,
                c > 0,
        ;
    }
    let nearest: u128 = (line + 0x8000_0000_0000_0000_0000_0000) / 0x1_0000_0000_0000_0000_0000_0000;
    proof {
        let n = line + 0x8000_0000_0000_0000_0000_0000;
        let q = n / big;
        let r = n % big;
        assert(2 * (line * c) + u == q * (2 * u) + 2 * r * c) by (nonlinear_arith)
            requires
                n == line + 0x8000_0000_0000_0000_0000_0000,
                big == 0x1_0000_0000_0000_0000_0000_0000,
                n == big * q + r,
                u == big * c,
        ;
        assert(2 * r * c < 2 * u) by (nonlinear_arith)
            requires
                r < big,
                u == big * c,
                c > 0,
        ;
        assert(0 <= 2 * r * c) by (nonlinear_arith)
            requires
                r >= 0,
        ;
        vstd::arithmetic::div_mod::lemma_fundamental_div_mod_converse(
            2 * (line * c) + u,
            2 * u as int,
            q,
            2 * r * c,
        );
    }
    nearest as u16
}

/// The search for a bracket goes on behind the points that are none.
proof fn lemma_first_bracket_skip(curve: Seq<CurvePoint>, temp: Number, i: int)
    requires
        0 <= i < curve.len(),
        forall|j: int| 0 <= j < i ==> !#[trigger] brackets(curve, j, temp),
    ensures
        first_bracket(curve, temp, 0) == first_bracket(curve, temp, i),
    decreases i,
{
    if i > 0 {
        lemma_first_bracket_skip(curve, temp, i - 1);
        assert(!brackets(curve, i - 1, temp));
    }
}

/// Evaluates a piecewise-linear curve. Returns the speed for the given temperature,
/// brought into the range `clamp` of the device.
///
/// Below the first point it is that point's speed, above the last point that one's.
/// An empty curve gives the lower bound of `clamp`.
pub fn eval(curve: &[CurvePoint], temp_c: Binary32, clamp: (u16, u16)) -> (rpm: u16)
    ensures
        rpm == target_speed(curve@, temp_c.number(), clamp),
{
    let n: usize = curve.len();
    if n == 0 {
        return clamp.0;
    }
    let first = curve[0];
    if temp_c.at_most(first.temp_c) {
        return clipped(first.rpm, clamp);
    }
    let last = curve[n - 1];
    if temp_c.at_least(last.temp_c) {
        return clipped(last.rpm, clamp);
    }
    let mut i: usize = 0;
    while i < n - 1
        invariant
            0 < n == curve@.len(),
            i <= n - 1,
            !temp_c.number().at_most(curve@[0].temp_c as int),
            !temp_c.number().at_least(curve@[n - 1].temp_c as int),
            forall|j: int| 0 <= j < i ==> !#[trigger] brackets(curve@, j, temp_c.number()),
        decreases n - i,
    {
        let a = curve[i];
        let b = curve[i + 1];
        if temp_c.at_least(a.temp_c) && temp_c.at_most(b.temp_c) {
            proof {
                lemma_first_bracket_skip(curve@, temp_c.number(), i as int);
            }
            if b.temp_c <= a.temp_c {
                return clipped(b.rpm, clamp);
            }
            return clipped(interpolate(a, b, temp_c), clamp);
        }
        assert(!brackets(curve@, i as int, temp_c.number()));
        i = i + 1;
    }
    proof {
        lemma_first_bracket_skip(curve@, temp_c.number(), i as int);
    }
    clipped(last.rpm, clamp)
}

/// `rpm` brought up to the lower bound of `clamp`, then down to the upper one.
fn clipped(rpm: u16, clamp: (u16, u16)) -> (clipped: u16)
    ensures
        clipped == clip(rpm as int, clamp),
{
    let raised: u16 = if rpm < clamp.0 {
        clamp.0
    } else {
        rpm
    };
    if raised > clamp.1 {
        clamp.1
    } else {
        raised
    }
}

/// The temperature in the text of a sensor file, which counts thousandths of a degree.
pub open spec fn is_hwmon_temp(text: Seq<char>, temp: Binary32) -> bool {
    match text::decimal_i32(text::trimmed(text)) {
        None => false,
        Some(milli) => {
            &&& temp.negative() == (milli < 0)
            &&& temp.number() == if milli >= 0 {
                Number::Finite(binary32::thousandths(milli as nat) as int)
            } else {
                Number::Finite(-(binary32::thousandths((-milli) as nat) as int))
            }
        },
    }
}

/// Reads the temperature from the text of a sensor file.
///
/// The text is a whole number of thousandths of a degree, with white space around it;
/// any other text gives nothing.
pub fn read_hwmon_temp(text: &str) -> (temp: Option<Binary32>)
    ensures
        match temp {
            Some(t) => is_hwmon_temp(text@, t),
            None => text::decimal_i32(text::trimmed(text@)) is None,
        },
{
    let chars = text::trim(text);
    match text::parse_i32(&chars) {
        Some(milli) => Some(Binary32::from_thousandths(milli)),
        None => None,
    }
}

/// A directory of the kernel's hardware monitors.
pub struct HwmonEntry {
    /// What its file `name` holds; nothing where that cannot be read.
    pub name: Option<String>,
    /// Whether it has a file `temp1_input`.
    pub has_temp: bool,
}

/// Whether a monitor of this name watches the processor.
pub open spec fn is_cpu_name(name: Seq<char>) -> bool {
    ||| name == "k10temp"@
    ||| name == "zenpower"@
    ||| name == "coretemp"@
    ||| name == "k8temp"@
}

/// Whether a monitor of this name watches the graphics processor.
pub open spec fn is_gpu_name(name: Seq<char>) -> bool {
    ||| name == "amdgpu"@
    ||| name == "i915"@
    ||| name == "xe"@
    ||| name == "nouveau"@
}

impl HwmonEntry {
    /// Whether a processor temperature can be read here.
    pub open spec fn is_cpu(self) -> bool {
        self.has_temp && (self.name matches Some(name) && is_cpu_name(text::trimmed(name@)))
    }

    /// Whether a temperature of the graphics processor can be read here.
    pub open spec fn is_gpu(self) -> bool {
        self.has_temp && (self.name matches Some(name) && is_gpu_name(text::trimmed(name@)))
    }
}

/// Whether the name `chars` is that of a processor's monitor.
fn names_cpu(chars: &Vec<char>) -> (answer: bool)
    ensures
        answer == is_cpu_name(chars@),
{
    text::spells(chars, "k10temp") || text::spells(chars, "zenpower") || text::spells(
        chars,
        "coretemp",
    ) || text::spells(chars, "k8temp")
}

/// Whether the name `chars` is that of a graphics processor's monitor.
fn names_gpu(chars: &Vec<char>) -> (answer: bool)
    ensures
        answer == is_gpu_name(chars@),
{
    text::spells(chars, "amdgpu") || text::spells(chars, "i915") || text::spells(chars, "xe")
        || text::spells(chars, "nouveau")
}

/// Where a temperature comes from.
#[derive(Clone, Copy, Debug, PartialEq, Eq, Structural)]
pub enum Source {
    /// It is known already.
    Known(Binary32),
    /// It stands in the file `temp1_input` of the monitor with this number.
    Monitor(usize),
    /// There is no sensor for it.
    Missing,
}

/// The sensors that were found, monitors by their place in the list.
#[derive(Clone, Copy, Debug, PartialEq, Eq, Structural)]
pub struct ThermalMonitor {
    pub cpu_hwmon: Option<usize>,
    pub gpu_hwmon: Option<usize>,
    /// Whether the driver of the graphics card can be asked.
    pub nvml: bool,
}

/// `found` is the first of `entries` that the processor's temperature can be read from.
pub open spec fn is_first_cpu(entries: Seq<HwmonEntry>, found: Option<usize>) -> bool {
    match found {
        Some(i) => i < entries.len() && entries[i as int].is_cpu() && forall|j: int|
            0 <= j < i ==> !(#[trigger] entries[j]).is_cpu(),
        None => forall|j: int| 0 <= j < entries.len() ==> !(#[trigger] entries[j]).is_cpu(),
    }
}

/// `found` is the first of `entries` that the graphics processor's temperature can be
/// read from.
pub open spec fn is_first_gpu(entries: Seq<HwmonEntry>, found: Option<usize>) -> bool {
    match found {
        Some(i) => i < entries.len() && entries[i as int].is_gpu() && forall|j: int|
            0 <= j < i ==> !(#[trigger] entries[j]).is_gpu(),
        None => forall|j: int| 0 <= j < entries.len() ==> !(#[trigger] entries[j]).is_gpu(),
    }
}

impl ThermalMonitor {
    /// Picks the sensors from the hardware monitors, in the order they are listed.
    pub fn probe(entries: &Vec<HwmonEntry>, nvml: bool) -> (monitor: ThermalMonitor)
        ensures
            is_first_cpu(entries@, monitor.cpu_hwmon),
            is_first_gpu(entries@, monitor.gpu_hwmon),
            monitor.nvml == nvml,
    {
        let mut cpu_hwmon: Option<usize> = None;
        let mut gpu_hwmon: Option<usize> = None;
        let n: usize = entries.len();
        let mut i: usize = 0;
        while i < n
            invariant
                i <= n,
                n == entries@.len(),
                is_first_cpu(entries@.subrange(0, i as int), cpu_hwmon),
                is_first_gpu(entries@.subrange(0, i as int), gpu_hwmon),
            decreases n - i,
        {
            let ghost seen = entries@.subrange(0, i as int);
            let ghost more = entries@.subrange(0, i + 1);
            let entry = &entries[i];
            proof {
                assert(more[i as int] == *entry);
                assert(forall|j: int| 0 <= j < i ==> #[trigger] more[j] == seen[j]);
            }
            if entry.has_temp {
                if let Some(name) = &entry.name {
                    let chars = text::trim(name.as_str());
                    if cpu_hwmon.is_none() && names_cpu(&chars) {
                        cpu_hwmon = Some(i);
                    }
                    if gpu_hwmon.is_none() && names_gpu(&chars) {
                        gpu_hwmon = Some(i);
                    }
                }
            }
            i = i + 1;
        }
        assert(entries@.subrange(0, n as int) =~= entries@);
        ThermalMonitor { cpu_hwmon, gpu_hwmon, nvml }
    }

    /// Where the processor's temperature is to be read.
    pub fn read_cpu(&self) -> (source: Source)
        ensures
            source == match self.cpu_hwmon {
                Some(i) => Source::Monitor(i),
                None => Source::Missing,
            },
    {
        match self.cpu_hwmon {
            Some(i) => Source::Monitor(i),
            None => Source::Missing,
        }
    }

    /// Where the temperature of the graphics processor is to be read, once its driver was
    /// asked for it. A driver that answers, in degrees, comes before the monitors.
    pub fn read_gpu(&self, reply: Option<u32>) -> (source: Source)
        ensures
            self.nvml && reply is Some ==> {
                &&& source matches Source::Known(temp)
                &&& !temp.negative()
                &&& temp.number() == Number::Finite(binary32::whole(reply->0 as nat) as int)
            },
            !(self.nvml && reply is Some) ==> source == match self.gpu_hwmon {
                Some(i) => Source::Monitor(i),
                None => Source::Missing,
            },
    {
        if self.nvml {
            if let Some(degrees) = reply {
                return Source::Known(Binary32::from_whole(degrees));
            }
        }
        match self.gpu_hwmon {
            Some(i) => Source::Monitor(i),
            None => Source::Missing,
        }
    }
}

/// A reading has the sign of the count in the text and is a thousandth of it to one part in
/// 2^22. Where the text holds no count, there is no reading.
pub proof fn law_sensor_text(text: Seq<char>, temp: Binary32)
    requires
        is_hwmon_temp(text, temp),
    ensures
        text::decimal_i32(text::trimmed(text)) matches Some(milli) && {
            let size = if milli < 0 {
                -milli
            } else {
                milli
            };
            &&& temp.negative() <==> milli < 0
            &&& temp.number() is Finite
            &&& 0x40_0000 * (1000 * temp.number()->Finite_0 - milli * pow2(149)) <= size * pow2(149)
            &&& 0x40_0000 * (milli * pow2(149) - 1000 * temp.number()->Finite_0) <= size * pow2(149)
        },
{
    let milli = text::decimal_i32(text::trimmed(text))->0;
    let u = pow2(149) as int;
    if milli < 0 {
        binary32::law_thousandths_close((-milli) as nat);
        assert((-milli) * u == -(milli * u)) by (nonlinear_arith);
    } else {
        binary32::law_thousandths_close(milli as nat);
    }
}

/// A larger count is no smaller a reading, and a count below zero is read as the one above
/// zero with the sign set.
pub proof fn law_sensor_texts_compared(
    text: Seq<char>,
    temp: Binary32,
    other: Seq<char>,
    other_temp: Binary32,
)
    requires
        is_hwmon_temp(text, temp),
        is_hwmon_temp(other, other_temp),
    ensures
        ({
            let milli = text::decimal_i32(text::trimmed(text))->0;
            let other_milli = text::decimal_i32(text::trimmed(other))->0;
            &&& milli <= other_milli ==> temp.number()->Finite_0 <= other_temp.number()->Finite_0
            &&& milli == other_milli ==> temp == other_temp
            &&& milli == -other_milli ==> temp.number()->Finite_0 == -(
            other_temp.number()->Finite_0)
        }),
{
    let n = text::decimal_i32(text::trimmed(text))->0;
    let m = text::decimal_i32(text::trimmed(other))->0;
    if n == 0 || m == 0 {
        binary32::law_thousandths_close(0);
        assert(0 * pow2(149) == 0);
    }
    if 0 <= n <= m {
        curve_laws::law_reading_order(n as nat, m as nat);
    }
    if n <= m < 0 {
        curve_laws::law_reading_order((-m) as nat, (-n) as nat);
    }
    if n == m {
        binary32::law_bits_determined(temp, other_temp);
    }
}

/// The monitors that are known, each by its exact name.
pub proof fn law_known_monitors(name: Seq<char>)
    ensures
        is_cpu_name(name) <==> name == "k10temp"@ || name == "zenpower"@ || name == "coretemp"@
            || name == "k8temp"@,
        is_gpu_name(name) <==> name == "amdgpu"@ || name == "i915"@ || name == "xe"@ || name
            == "nouveau"@,
{
}

/// What was found is a monitor with a temperature and a known name, white space aside, and
/// none before it is. Where nothing was found, there is none at all.
pub proof fn law_first_monitor(
    entries: Seq<HwmonEntry>,
    cpu: Option<usize>,
    gpu: Option<usize>,
    j: usize,
)
    requires
        is_first_cpu(entries, cpu),
        is_first_gpu(entries, gpu),
        j < entries.len(),
    ensures
        ({
            let fits_cpu = entries[j as int].has_temp && (entries[j as int].name matches Some(name)
                && is_cpu_name(text::trimmed(name@)));
            let fits_gpu = entries[j as int].has_temp && (entries[j as int].name matches Some(name)
                && is_gpu_name(text::trimmed(name@)));
            &&& cpu == Some(j) ==> fits_cpu
            &&& gpu == Some(j) ==> fits_gpu
            &&& fits_cpu ==> (cpu matches Some(i) && i <= j)
            &&& fits_gpu ==> (gpu matches Some(i) && i <= j)
        }),
        cpu matches Some(i) ==> i < entries.len(),
        gpu matches Some(i) ==> i < entries.len(),
{
}

}
