//! What holds of every fan curve.

use vstd::prelude::*;
use vstd::arithmetic::power2::*;
use crate::binary32;
use crate::binary32::{Binary32, Number};
use crate::comms::CurvePoint;
use crate::config;
use crate::fan_controller;
use crate::rounding;
use crate::thermal;

verus! {

/// The points stand in the order of their temperatures.
pub open spec fn sorted_by_temp(curve: Seq<CurvePoint>) -> bool {
    forall|i: int, j: int| 0 <= i <= j < curve.len() ==> curve[i].temp_c <= curve[j].temp_c
}

/// No two points have one temperature, and they stand in order.
pub open spec fn strictly_sorted_by_temp(curve: Seq<CurvePoint>) -> bool {
    forall|i: int, j: int| 0 <= i < j < curve.len() ==> curve[i].temp_c < curve[j].temp_c
}

/// A later point is never slower.
pub open spec fn sorted_by_rpm(curve: Seq<CurvePoint>) -> bool {
    forall|i: int, j: int| 0 <= i <= j < curve.len() ==> curve[i].rpm <= curve[j].rpm
}

/// A temperature in a bracket is a finite number between those of the two points.
proof fn lemma_bracket_finite(curve: Seq<CurvePoint>, i: int, temp: Number)
    requires
        0 <= i < curve.len() - 1,
        thermal::brackets(curve, i, temp),
    ensures
        temp is Finite,
        curve[i].temp_c * binary32::one() <= temp->Finite_0 <= curve[i + 1].temp_c
            * binary32::one(),
        curve[i].temp_c <= curve[i + 1].temp_c,
{
    binary32::lemma_powers();
    let u = binary32::one() as int;
    let x = curve[i].temp_c as int;
    let y = curve[i + 1].temp_c as int;
    assert(x <= y) by (nonlinear_arith)
        requires
            x * u <= y * u,
            u > 0,
    ;
}

/// Between the first and the last point there is a bracket for every number.
proof fn lemma_bracket_found(curve: Seq<CurvePoint>, temp: Number, i: int)
    requires
        0 <= i < curve.len(),
        temp.at_least(curve[i].temp_c as int),
        !temp.at_least(curve[curve.len() - 1].temp_c as int),
    ensures
        i <= thermal::first_bracket(curve, temp, i) < curve.len() - 1,
        thermal::brackets(curve, thermal::first_bracket(curve, temp, i), temp),
        forall|j: int|
            i <= j < thermal::first_bracket(curve, temp, i) ==> !#[trigger] thermal::brackets(
                curve,
                j,
                temp,
            ),
    decreases curve.len() - i,
{
    if !thermal::brackets(curve, i, temp) {
        lemma_bracket_found(curve, temp, i + 1);
    }
}

/// A curve never asks for less than its slowest or more than its fastest point, and
/// never for a speed outside the range of the device.
pub proof fn law_speed_bounded(
    curve: Seq<CurvePoint>,
    temp: Number,
    clamp: (u16, u16),
    slowest: u16,
    fastest: u16,
)
    requires
        curve.len() > 0,
        forall|i: int| 0 <= i < curve.len() ==> slowest <= (#[trigger] curve[i]).rpm <= fastest,
    ensures
        slowest <= thermal::curve_speed(curve, temp) <= fastest,
        clamp.0 <= clamp.1 ==> clamp.0 <= thermal::target_speed(curve, temp, clamp) <= clamp.1,
        clamp.0 <= slowest && fastest <= clamp.1 ==> thermal::target_speed(curve, temp, clamp)
            == thermal::curve_speed(curve, temp),
{
    let last = curve.len() - 1;
    assert(slowest <= curve[0].rpm <= fastest);
    assert(slowest <= curve[last].rpm <= fastest);
    lemma_first_bracket_range(curve, temp, 0);
    let i = thermal::first_bracket(curve, temp, 0);
    if i < last {
        assert(slowest <= curve[i].rpm <= fastest);
        assert(slowest <= curve[i + 1].rpm <= fastest);
        lemma_bracket_finite(curve, i, temp);
        if curve[i].temp_c < curve[i + 1].temp_c {
            thermal::lemma_interpolated_bounds(curve[i], curve[i + 1], temp->Finite_0);
        }
    }
}

/// The search ends at a bracket or at the last point.
proof fn lemma_first_bracket_range(curve: Seq<CurvePoint>, temp: Number, i: int)
    requires
        0 <= i < curve.len(),
    ensures
        i <= thermal::first_bracket(curve, temp, i) <= curve.len() - 1,
        thermal::first_bracket(curve, temp, i) < curve.len() - 1 ==> thermal::brackets(
            curve,
            thermal::first_bracket(curve, temp, i),
            temp,
        ),
    decreases curve.len() - i,
{
    if i < curve.len() - 1 && !thermal::brackets(curve, i, temp) {
        lemma_first_bracket_range(curve, temp, i + 1);
    }
}

/// An empty curve asks for the lower bound, whatever the temperature.
pub proof fn law_empty_curve(temp: Number, clamp: (u16, u16))
    ensures
        thermal::target_speed(Seq::empty(), temp, clamp) == clamp.0,
{
}

/// Up to its first point a curve stays at that point's speed, and from its last point on
/// at that one's, each brought into the range of the device.
pub proof fn law_flat_ends(curve: Seq<CurvePoint>, temp: Number, clamp: (u16, u16))
    requires
        curve.len() > 0,
    ensures
        temp.at_most(curve[0].temp_c as int) ==> thermal::target_speed(curve, temp, clamp)
            == thermal::clip(curve[0].rpm as int, clamp),
        !temp.at_most(curve[0].temp_c as int) && temp.at_least(curve.last().temp_c as int)
            ==> thermal::target_speed(curve, temp, clamp) == thermal::clip(
            curve.last().rpm as int,
            clamp,
        ),
{
}

/// On one line a higher temperature never gives a lower speed.
proof fn lemma_line_monotone(a: CurvePoint, b: CurvePoint, s: int, t: int)
    requires
        a.temp_c < b.temp_c,
        a.rpm <= b.rpm,
        a.temp_c * binary32::one() <= s <= t <= b.temp_c * binary32::one(),
    ensures
        thermal::interpolated(a, b, s) <= thermal::interpolated(a, b, t),
{
    let u = binary32::one() as int;
    binary32::lemma_powers();
    thermal::lemma_line_bounds(a, b, s);
    thermal::lemma_line_bounds(a, b, t);
    let x = s - a.temp_c * u;
    let y = t - a.temp_c * u;
    binary32::lemma_rounded_monotone(x, y);
    let dt = (b.temp_c - a.temp_c) as nat;
    let p = binary32::rounded(x) as nat;
    let q = binary32::rounded(y) as nat;
    assert(p * dt <= q * dt) by (nonlinear_arith)
        requires
            p <= q,
    ;
    rounding::lemma_round24_monotone(p, dt, q, dt);
    let d = b.rpm - a.rpm;
    let f = thermal::share(a, b, s);
    let g = thermal::share(a, b, t);
    assert(f * d <= g * d) by (nonlinear_arith)
        requires
            f <= g,
            d >= 0,
    ;
    binary32::lemma_rounded_monotone(f * d, g * d);
    binary32::lemma_rounded_monotone(
        a.rpm * u + binary32::rounded(f * d),
        a.rpm * u + binary32::rounded(g * d),
    );
    assert(a.rpm * u >= 0) by (nonlinear_arith)
        requires
            a.rpm >= 0,
            u >= 0,
    ;
    binary32::lemma_nearest_whole_monotone(
        thermal::speed_on_line(a, b, s),
        thermal::speed_on_line(a, b, t),
    );
}

/// A curve whose points are in order and never slow down asks for no lower speed at a
/// higher temperature.
pub proof fn law_hotter_is_no_slower(
    curve: Seq<CurvePoint>,
    s: Number,
    t: Number,
    clamp: (u16, u16),
)
    requires
        sorted_by_temp(curve),
        sorted_by_rpm(curve),
        s.no_greater_than(t),
    ensures
        thermal::target_speed(curve, s, clamp) <= thermal::target_speed(curve, t, clamp),
{
    if curve.len() > 0 {
        binary32::lemma_powers();
        let last = curve.len() - 1;
        law_speed_bounded(curve, s, clamp, curve[0].rpm, curve[last].rpm);
        law_speed_bounded(curve, t, clamp, curve[0].rpm, curve[last].rpm);
        lemma_order(s, t, curve[0].temp_c as int);
        lemma_order(s, t, curve[last].temp_c as int);
        let inner = !s.at_most(curve[0].temp_c as int) && !t.at_least(curve[last].temp_c as int);
        if inner {
            assert(s.at_least(curve[0].temp_c as int));
            assert(t.at_least(curve[0].temp_c as int));
            lemma_bracket_found(curve, s, 0);
            lemma_bracket_found(curve, t, 0);
            let i = thermal::first_bracket(curve, s, 0);
            let j = thermal::first_bracket(curve, t, 0);
            lemma_bracket_finite(curve, i, s);
            lemma_bracket_finite(curve, j, t);
            lemma_order(s, t, curve[j].temp_c as int);
            lemma_order(s, t, curve[j + 1].temp_c as int);
            if i > j {
                // s would have to lie below the point j and not below the later point i
                assert(!thermal::brackets(curve, j, s));
                assert(curve[j].temp_c <= curve[i].temp_c);
                lemma_between(s, curve[j].temp_c as int, curve[i].temp_c as int);
                assert(false);
            }
            lemma_between_bounds(curve, i, s);
            lemma_between_bounds(curve, j, t);
            if i < j {
                assert(curve[i + 1].rpm <= curve[j].rpm);
            } else if curve[i].temp_c < curve[i + 1].temp_c {
                lemma_line_monotone(curve[i], curve[i + 1], s->Finite_0, t->Finite_0);
            }
        }
    }
}

/// What is no greater than `t` is at most what `t` is at most.
proof fn lemma_order(s: Number, t: Number, k: int)
    requires
        s.no_greater_than(t),
    ensures
        t.at_most(k) ==> s.at_most(k),
        s.at_least(k) ==> t.at_least(k),
        s.at_most(k) || s.at_least(k),
        t.at_most(k) || t.at_least(k),
{
}

/// What is at least `k` is at least every smaller number.
proof fn lemma_between(s: Number, j: int, k: int)
    requires
        j <= k,
        s.at_least(k),
    ensures
        s.at_least(j),
{
    binary32::lemma_powers();
    let u = binary32::one() as int;
    assert(j * u <= k * u) by (nonlinear_arith)
        requires
            j <= k,
            u > 0,
    ;
}

/// Between two neighbours the speed lies between theirs.
proof fn lemma_between_bounds(curve: Seq<CurvePoint>, i: int, temp: Number)
    requires
        0 <= i < curve.len() - 1,
        thermal::brackets(curve, i, temp),
        curve[i].rpm <= curve[i + 1].rpm,
    ensures
        curve[i].rpm <= thermal::between(curve[i], curve[i + 1], temp) <= curve[i + 1].rpm,
{
    lemma_bracket_finite(curve, i, temp);
    if curve[i].temp_c < curve[i + 1].temp_c {
        thermal::lemma_interpolated_bounds(curve[i], curve[i + 1], temp->Finite_0);
    }
}

/// At the temperature of one of its points a curve asks for that point's speed.
pub proof fn law_through_points(curve: Seq<CurvePoint>, i: int, temp: Number)
    requires
        strictly_sorted_by_temp(curve),
        0 <= i < curve.len(),
        temp == Number::Finite(curve[i].temp_c * binary32::one()),
    ensures
        thermal::curve_speed(curve, temp) == curve[i].rpm,
{
    binary32::lemma_powers();
    let u = binary32::one() as int;
    let k = curve[i].temp_c as int;
    let last = curve.len() - 1;
    assert forall|j: int| 0 <= j < curve.len() implies {
        &&& temp.at_most(#[trigger] curve[j].temp_c as int) == (i <= j)
        &&& temp.at_least(curve[j].temp_c as int) == (i >= j)
    } by {
        let c = curve[j].temp_c as int;
        assert(k * u <= c * u <==> k <= c) by (nonlinear_arith)
            requires
                u > 0,
        ;
        assert(k * u >= c * u <==> k >= c) by (nonlinear_arith)
            requires
                u > 0,
        ;
    }
    assert(curve[0] == curve[0] && curve[last] == curve[last]);
    if 0 < i < last {
        lemma_bracket_found(curve, temp, 0);
        let j = thermal::first_bracket(curve, temp, 0);
        assert(curve[j] == curve[j] && curve[j + 1] == curve[j + 1]);
        if j > i - 1 {
            assert(thermal::brackets(curve, i - 1, temp)) by {
                assert(curve[i - 1] == curve[i - 1]);
            }
            assert(false);
        }
        assert(j == i - 1);
        lemma_line_end(curve[j], curve[i]);
    }
}

/// A line ends at the speed of its second point.
proof fn lemma_line_end(a: CurvePoint, b: CurvePoint)
    requires
        a.temp_c < b.temp_c,
    ensures
        thermal::interpolated(a, b, b.temp_c * binary32::one()) == b.rpm,
{
    binary32::lemma_powers();
    let u = binary32::one() as int;
    let t = b.temp_c * u;
    let dt = b.temp_c - a.temp_c;
    assert(a.temp_c * u <= t) by (nonlinear_arith)
        requires
            a.temp_c < b.temp_c,
            t == b.temp_c * u,
            u > 0,
    ;
    thermal::lemma_line_bounds(a, b, t);
    assert(t - a.temp_c * u == dt * u) by (nonlinear_arith)
        requires
            t == b.temp_c * u,
            dt == b.temp_c - a.temp_c,
    ;
    binary32::lemma_rounded_whole(dt);
    assert(u == 1 * pow2(149));
    assert(rounding::fits24(u as nat));
    rounding::lemma_round24_exact(u as nat, dt as nat);
    assert((u as nat) * (dt as nat) == dt * u) by (nonlinear_arith)
        requires
            u >= 0,
            dt >= 0,
    ;
    assert(thermal::share(a, b, t) == u);
    let d = b.rpm - a.rpm;
    assert(u * d == d * u) by (nonlinear_arith);
    binary32::lemma_rounded_whole(d);
    assert(a.rpm * u + d * u == b.rpm * u) by (nonlinear_arith)
        requires
            d == b.rpm - a.rpm,
    ;
    binary32::lemma_rounded_whole(b.rpm as int);
    assert(b.rpm * u >= 0) by (nonlinear_arith)
        requires
            b.rpm >= 0,
            u >= 0,
    ;
    binary32::lemma_nearest_whole_close(b.rpm * u, b.rpm as int);
}

/// The difference of a single-precision number and a smaller whole number is exact.
proof fn lemma_difference_exact(temp: Binary32, k: u8)
    requires
        temp.exponent() < 150,
        k * binary32::one() <= temp.magnitude(),
    ensures
        binary32::rounded(temp.magnitude() - k * binary32::one()) == temp.magnitude() - k
            * binary32::one(),
{
    let u = binary32::one() as int;
    let (m, g): (int, nat) = if temp.exponent() == 0 {
        (temp.fraction() as int, 0)
    } else {
        (0x80_0000 + temp.fraction() as int, (temp.exponent() - 1) as nat)
    };
    lemma2_to64();
    assert(temp.fraction() < 0x80_0000);
    lemma_pow2_pos(g);
    assert(temp.magnitude() == m * pow2(g)) by (nonlinear_arith)
        requires
            temp.exponent() == 0 ==> temp.magnitude() == m && pow2(g) == 1,
            temp.exponent() != 0 ==> temp.magnitude() == m * pow2(g),
    ;
    lemma_pow2_adds(g, (149 - g) as nat);
    let rest = pow2((149 - g) as nat) as int;
    let j = m - k * rest;
    let x = temp.magnitude() - k * u;
    assert(x == j * pow2(g)) by (nonlinear_arith)
        requires
            x == m * pow2(g) - k * u,
            u == pow2(g) * rest,
            j == m - k * rest,
    ;
    assert(0 <= j <= m) by (nonlinear_arith)
        requires
            j * pow2(g) >= 0,
            pow2(g) > 0,
            j == m - k * rest,
            k >= 0,
            rest >= 0,
    ;
    assert(x as nat == (j as nat) * pow2(g));
    assert(rounding::fits24(x as nat));
    rounding::lemma_round24_exact(x as nat, 1);
}

/// Rounding a number below 65536 moves it by at most one part in 512.
proof fn lemma_rounded_error(x: int)
    requires
        -65535 * binary32::one() <= x <= 65535 * binary32::one(),
    ensures
        512 * (binary32::rounded(x) - x) <= binary32::one(),
        512 * (x - binary32::rounded(x)) <= binary32::one(),
{
    let y: nat = if x >= 0 {
        x as nat
    } else {
        (-x) as nat
    };
    lemma2_to64();
    lemma_pow2_adds(8, 141);
    lemma_pow2_pos(141);
    let p = pow2(141);
    let top = (0x100_0000 * p - 1) as nat;
    assert(y <= top);
    rounding::lemma_excess_bits_unique(top, 141);
    rounding::lemma_excess_bits_monotone(y, top);
    rounding::lemma_round24_error(y, 1);
    assert(y / 1 == y);
    let k = rounding::excess_bits(y);
    if k < 141 {
        lemma_pow2_strictly_increases(k, 141);
    }
    assert(1 * pow2(k) <= p);
}

/// `rpm` is within 65/128 of the straight line from `a` to `b` at `temp`.
pub open spec fn near_line(a: CurvePoint, b: CurvePoint, temp: int, rpm: int) -> bool {
    let run = (b.temp_c - a.temp_c) * binary32::one();
    let line = a.rpm * run + (temp - a.temp_c * binary32::one()) * (b.rpm - a.rpm);
    &&& 128 * (rpm * run - line) <= 65 * run
    &&& 128 * (line - rpm * run) <= 65 * run
}

/// An interpolated speed is close to the straight line.
proof fn lemma_near_line(a: CurvePoint, b: CurvePoint, temp: Binary32)
    requires
        a.temp_c < b.temp_c,
        temp.exponent() < 150,
        a.temp_c * binary32::one() <= temp.magnitude() <= b.temp_c * binary32::one(),
    ensures
        near_line(
            a,
            b,
            temp.magnitude() as int,
            thermal::interpolated(a, b, temp.magnitude() as int),
        ),
{
    binary32::lemma_powers();
    let u = binary32::one() as int;
    let t = temp.magnitude() as int;
    let dt = b.temp_c - a.temp_c;
    let d = b.rpm - a.rpm;
    let x = t - a.temp_c * u;
    thermal::lemma_line_bounds(a, b, t);
    lemma_difference_exact(temp, a.temp_c);
    let s = thermal::share(a, b, t);
    let p = binary32::rounded(s * d);
    let v = thermal::speed_on_line(a, b, t);
    let w = thermal::interpolated(a, b, t);
    // the share
    assert(0x100_0000 * (s * dt - x) <= dt * u && 0x100_0000 * (x - s * dt) <= dt * u) by {
        lemma2_to64();
        lemma_pow2_adds(23, 126);
        lemma_pow2_pos(126);
        rounding::lemma_excess_bits_unique(u as nat, 126);
        let q = x as nat / dt as nat;
        vstd::arithmetic::div_mod::lemma_div_is_ordered(x, dt * u, dt);
        vstd::arithmetic::div_mod::lemma_div_multiples_vanish(u, dt);
        assert(q <= u);
        rounding::lemma_excess_bits_monotone(q, u as nat);
        let k = rounding::excess_bits(q);
        if k < 126 {
            lemma_pow2_strictly_increases(k, 126);
        }
        rounding::lemma_round24_error(x as nat, dt as nat);
        let e = dt * pow2(k);
        assert(0x80_0000 * e <= dt * u) by (nonlinear_arith)
            requires
                e == dt * pow2(k),
                pow2(k) <= pow2(126),
                u == 0x80_0000 * pow2(126),
                dt >= 0,
        ;
        assert(2 * (s * dt) <= 2 * x + e && 2 * x <= 2 * (s * dt) + e);
    }
    // the rise and the sum
    assert(-65535 * u <= s * d <= 65535 * u) by (nonlinear_arith)
        requires
            0 <= s <= u,
            -65535 <= d <= 65535,
    ;
    lemma_rounded_error(s * d);
    assert(0 <= a.rpm * u + p <= 65535 * u) by {
        assert(0 <= a.rpm * u <= 65535 * u && 0 <= b.rpm * u <= 65535 * u) by (nonlinear_arith)
            requires
                0 <= a.rpm <= 65535,
                0 <= b.rpm <= 65535,
                u > 0,
        ;
        assert(a.rpm * u + d * u == b.rpm * u) by (nonlinear_arith)
            requires
                d == b.rpm - a.rpm,
        ;
    }
    lemma_rounded_error(a.rpm * u + p);
    // the nearest whole number
    assert(2 * (w * u - v) <= u && 2 * (v - w * u) <= u) by {
        assert(a.rpm * u >= 0 && b.rpm * u >= 0) by (nonlinear_arith)
            requires
                a.rpm >= 0,
                b.rpm >= 0,
                u >= 0,
        ;
        vstd::arithmetic::div_mod::lemma_fundamental_div_mod(2 * v + u, 2 * u);
        vstd::arithmetic::div_mod::lemma_mod_bound(2 * v + u, 2 * u);
        assert((2 * u) * w == 2 * (w * u)) by (nonlinear_arith);
    }
    let run = dt * u;
    let line = a.rpm * run + x * d;
    let e1 = w * u - v;
    let e2 = v - (a.rpm * u + p);
    let e3 = p - s * d;
    let e4 = s * dt - x;
    assert(w * run - line == dt * (e1 + e2 + e3) + d * e4) by (nonlinear_arith)
        requires
            run == dt * u,
            line == a.rpm * run + x * d,
            e1 == w * u - v,
            e2 == v - (a.rpm * u + p),
            e3 == p - s * d,
            e4 == s * dt - x,
    ;
    let sum = e1 + e2 + e3;
    assert(-(258 * u) <= 512 * sum <= 258 * u);
    assert(-(258 * run) <= 512 * (dt * sum) <= 258 * run) by (nonlinear_arith)
        requires
            run == dt * u,
            -(258 * u) <= 512 * sum <= 258 * u,
            dt >= 0,
    ;
    assert(-run <= 256 * (d * e4) <= run) by (nonlinear_arith)
        requires
            -run <= 0x100_0000 * e4 <= run,
            -65536 <= d <= 65536,
    ;
}

/// A curve is linear between its points: inside it, the speed is within 65/128 of the
/// straight line between two neighbouring points around the temperature. Of a curve in
/// order these two differ in temperature.
pub proof fn law_piecewise_linear(curve: Seq<CurvePoint>, temp: Binary32)
    requires
        curve.len() > 0,
        temp.number() !is NotANumber,
        !temp.number().at_most(curve[0].temp_c as int),
        !temp.number().at_least(curve.last().temp_c as int),
    ensures
        exists|i: int|
            0 <= i < curve.len() - 1 && #[trigger] thermal::brackets(curve, i, temp.number())
                && near_line(
                curve[i],
                curve[i + 1],
                temp.number()->Finite_0,
                thermal::curve_speed(curve, temp.number()),
            ) && (sorted_by_temp(curve) ==> curve[i].temp_c < curve[i + 1].temp_c),
{
    binary32::lemma_powers();
    let u = binary32::one() as int;
    let t = temp.number();
    lemma_bracket_found(curve, t, 0);
    let i = thermal::first_bracket(curve, t, 0);
    lemma_bracket_finite(curve, i, t);
    let a = curve[i];
    let b = curve[i + 1];
    temp.lemma_zero();
    assert(0 <= a.temp_c * u && b.temp_c * u <= 255 * u) by (nonlinear_arith)
        requires
            0 <= a.temp_c,
            b.temp_c <= 255,
            u >= 0,
    ;
    assert(t->Finite_0 == temp.magnitude());
    if temp.exponent() >= 150 {
        temp.lemma_large();
    }
    if a.temp_c < b.temp_c {
        lemma_near_line(a, b, temp);
    } else {
        assert(near_line(a, b, t->Finite_0, b.rpm as int)) by {
            let d = b.rpm - a.rpm;
            assert(0 * u == 0 && 0 * d == 0 && a.rpm * 0 == 0 && b.rpm * 0 == 0);
        }
        if sorted_by_temp(curve) {
            // the two points before would bracket the temperature as well
            assert(i > 0);
            assert(curve[i - 1].temp_c <= curve[i].temp_c);
            lemma_between(t, curve[i - 1].temp_c as int, curve[i].temp_c as int);
            assert(thermal::brackets(curve, i - 1, t));
            assert(false);
        }
    }
    assert(thermal::brackets(curve, i, t));
}

/// The default curves are in order and speed up with the temperature.
pub proof fn law_default_curves_in_order()
    ensures
        strictly_sorted_by_temp(config::default_cpu_points()),
        sorted_by_temp(config::default_cpu_points()),
        sorted_by_rpm(config::default_cpu_points()),
        strictly_sorted_by_temp(config::default_gpu_points()),
        sorted_by_temp(config::default_gpu_points()),
        sorted_by_rpm(config::default_gpu_points()),
{
}

/// A larger number of thousandths is no smaller a reading.
pub proof fn law_reading_order(n: nat, m: nat)
    requires
        n <= m,
    ensures
        binary32::thousandths(n) <= binary32::thousandths(m),
{
    binary32::lemma_powers();
    rounding::lemma_round24_monotone(n, 1, m, 1);
    let a = rounding::round24(n, 1);
    let b = rounding::round24(m, 1);
    let u = binary32::one();
    assert((a * u) * 1000 <= (b * u) * 1000) by (nonlinear_arith)
        requires
            a <= b,
    ;
    rounding::lemma_round24_monotone(a * u, 1000, b * u, 1000);
}

/// A reading is off by at most one part in 2^24 of what the sensor counts in thousandths.
pub proof fn law_reading_is_close(n: nat)
    requires
        n <= 0x100_0000,
    ensures
        0x100_0000 * (1000 * binary32::thousandths(n) - n * binary32::one()) <= n
            * binary32::one(),
        0x100_0000 * (n * binary32::one() - 1000 * binary32::thousandths(n)) <= n
            * binary32::one(),
{
    binary32::lemma_powers();
    lemma2_to64();
    let u = binary32::one();
    assert(n == n * pow2(0));
    assert(rounding::fits24(n));
    rounding::lemma_round24_exact(n, 1);
    let x = n * u;
    assert(binary32::whole(n) == x);
    if n == 0 {
        assert(0 * u == 0);
        assert(0 == 0 * pow2(0));
        rounding::lemma_round24_exact(0, 1000);
    } else {
        assert(x >= u) by (nonlinear_arith)
            requires
                x == n * u,
                n >= 1,
        ;
        let q = x / 1000;
        let k = rounding::excess_bits(q);
        rounding::lemma_round24_error(x, 1000);
        rounding::lemma_excess_bits_bounds(q);
        lemma_pow2_pos(k);
        if k == 0 {
            assert(u >= 0x1_0000_0000_0000_0000_0000_0000) by (nonlinear_arith)
                requires
                    u == 0x1_0000_0000_0000_0000_0000_0000 * pow2(53),
                    pow2(53) >= 1,
            ;
            assert(q >= 0x100_0000);
            assert(false);
        }
    }
}

/// Where both curves are in order and never slow down, hotter readings never make for a
/// slower target.
pub proof fn law_hotter_joint_target(
    curve: config::FanCurve,
    cooler: (Binary32, Binary32),
    hotter: (Binary32, Binary32),
    fan_range: (u16, u16),
)
    requires
        sorted_by_temp(curve.cpu@),
        sorted_by_rpm(curve.cpu@),
        sorted_by_temp(curve.gpu@),
        sorted_by_rpm(curve.gpu@),
        cooler.0.number().no_greater_than(hotter.0.number()),
        cooler.1.number().no_greater_than(hotter.1.number()),
    ensures
        fan_controller::joint_target(curve, Some(cooler.0), Some(cooler.1), fan_range)
            <= fan_controller::joint_target(curve, Some(hotter.0), Some(hotter.1), fan_range),
{
    law_hotter_is_no_slower(curve.cpu@, cooler.0.number(), hotter.0.number(), fan_range);
    law_hotter_is_no_slower(curve.gpu@, cooler.1.number(), hotter.1.number(), fan_range);
}

/// The range of the device is applied last: what a curve asks for within a range is what it
/// asks for without one, raised to the lower bound and then lowered to the upper one.
pub proof fn law_range_applied_last(curve: Seq<CurvePoint>, temp: Number, clamp: (u16, u16))
    requires
        curve.len() > 0,
    ensures
        ({
            let free = thermal::target_speed(curve, temp, (0u16, 65535u16));
            let within = thermal::target_speed(curve, temp, clamp);
            &&& 0 <= free <= 65535
            &&& clamp.1 <= clamp.0 ==> within == clamp.1
            &&& clamp.0 <= clamp.1 && free <= clamp.0 ==> within == clamp.0
            &&& clamp.0 <= free <= clamp.1 ==> within == free
            &&& clamp.0 <= clamp.1 <= free ==> within == clamp.1
        }),
{
    law_speed_bounded(curve, temp, clamp, 0, 65535);
    law_speed_bounded(curve, temp, (0u16, 65535u16), 0, 65535);
}

/// Up to its first point a curve without a range asks for that point's speed, and from its
/// last point on for that one's; so it does for what is not a number.
pub proof fn law_speed_at_ends(curve: Seq<CurvePoint>, temp: Number)
    requires
        curve.len() > 0,
    ensures
        ({
            let free = thermal::target_speed(curve, temp, (0u16, 65535u16));
            let first = curve[0];
            let last = curve[curve.len() - 1];
            &&& temp is NotANumber ==> free == last.rpm
            &&& temp is Infinite && temp->negative ==> free == first.rpm
            &&& temp is Infinite && !temp->negative ==> free == last.rpm
            &&& temp is Finite && temp->Finite_0 <= first.temp_c * pow2(149) ==> free == first.rpm
            &&& temp is Finite && temp->Finite_0 > first.temp_c * pow2(149) && temp->Finite_0
                >= last.temp_c * pow2(149) ==> free == last.rpm
        }),
{
    lemma_first_bracket_range(curve, temp, 0);
}

/// The first pair of neighbours around a temperature is the one that is found.
proof fn lemma_first_bracket_is(curve: Seq<CurvePoint>, t: int, i: int)
    requires
        0 <= i < curve.len() - 1,
        curve[0].temp_c * pow2(149) < t < curve[curve.len() - 1].temp_c * pow2(149),
        curve[i].temp_c * pow2(149) <= t <= curve[i + 1].temp_c * pow2(149),
        forall|j: int|
            0 <= j < i ==> !((#[trigger] curve[j]).temp_c * pow2(149) <= t <= curve[j + 1].temp_c
                * pow2(149)),
    ensures
        thermal::first_bracket(curve, Number::Finite(t), 0) == i,
        thermal::target_speed(curve, Number::Finite(t), (0u16, 65535u16)) == thermal::between(
            curve[i],
            curve[i + 1],
            Number::Finite(t),
        ),
{
    let temp = Number::Finite(t);
    lemma_bracket_found(curve, temp, 0);
    let f = thermal::first_bracket(curve, temp, 0);
    if f < i {
        assert(!(curve[f].temp_c * pow2(149) <= t <= curve[f + 1].temp_c * pow2(149)));
    }
    if i < f {
        assert(!thermal::brackets(curve, i, temp));
    }
    law_speed_bounded(curve, temp, (0u16, 65535u16), 0, 65535);
}

/// Inside a curve there are neighbours around every temperature.
pub proof fn law_neighbours_exist(curve: Seq<CurvePoint>, t: int)
    requires
        curve.len() > 0,
        curve[0].temp_c * pow2(149) < t < curve[curve.len() - 1].temp_c * pow2(149),
    ensures
        exists|i: int|
            {
                &&& 0 <= i < curve.len() - 1
                &&& (#[trigger] curve[i]).temp_c * pow2(149) <= t <= curve[i + 1].temp_c * pow2(
                    149,
                )
                &&& forall|j: int|
                    0 <= j < i ==> !((#[trigger] curve[j]).temp_c * pow2(149) <= t
                        <= curve[j + 1].temp_c * pow2(149))
            },
{
    let temp = Number::Finite(t);
    lemma_bracket_found(curve, temp, 0);
    let i = thermal::first_bracket(curve, temp, 0);
    assert forall|j: int| 0 <= j < i implies !((#[trigger] curve[j]).temp_c * pow2(149) <= t
        <= curve[j + 1].temp_c * pow2(149)) by {
        assert(!thermal::brackets(curve, j, temp));
    }
    assert(curve[i].temp_c * pow2(149) <= t <= curve[i + 1].temp_c * pow2(149));
}

/// What a curve asks for between two neighbours is what these two would ask for alone.
pub proof fn law_neighbours_decide(
    curve: Seq<CurvePoint>,
    t: int,
    i: int,
    clamp: (u16, u16),
)
    requires
        0 <= i < curve.len() - 1,
        curve[0].temp_c * pow2(149) < t < curve[curve.len() - 1].temp_c * pow2(149),
        curve[i].temp_c * pow2(149) <= t <= curve[i + 1].temp_c * pow2(149),
        forall|j: int|
            0 <= j < i ==> !((#[trigger] curve[j]).temp_c * pow2(149) <= t <= curve[j + 1].temp_c
                * pow2(149)),
    ensures
        curve[i].temp_c < curve[i + 1].temp_c ==> thermal::target_speed(
            curve,
            Number::Finite(t),
            clamp,
        ) == thermal::target_speed(seq![curve[i], curve[i + 1]], Number::Finite(t), clamp),
        curve[i].temp_c == curve[i + 1].temp_c ==> thermal::target_speed(
            curve,
            Number::Finite(t),
            clamp,
        ) == thermal::target_speed(seq![curve[i + 1]], Number::Finite(t), clamp),
{
    let temp = Number::Finite(t);
    let a = curve[i];
    let b = curve[i + 1];
    lemma_first_bracket_is(curve, t, i);
    law_range_applied_last(curve, temp, clamp);
    if a.temp_c < b.temp_c {
        let pair = seq![a, b];
        law_range_applied_last(pair, temp, clamp);
        law_speed_at_ends(pair, temp);
        if t == a.temp_c * pow2(149) {
            lemma_line_begin(a, b);
        } else if t == b.temp_c * pow2(149) {
            lemma_line_end(a, b);
        } else {
            lemma_first_bracket_is(pair, t, 0);
        }
    } else {
        let single = seq![b];
        law_range_applied_last(single, temp, clamp);
        law_speed_at_ends(single, temp);
    }
}

/// A line begins at the speed of its first point.
proof fn lemma_line_begin(a: CurvePoint, b: CurvePoint)
    requires
        a.temp_c < b.temp_c,
    ensures
        thermal::interpolated(a, b, a.temp_c * binary32::one()) == a.rpm,
{
    binary32::lemma_powers();
    lemma_exact_part(a, b, a.temp_c * binary32::one(), 0);
    let r = thermal::interpolated(a, b, a.temp_c * binary32::one());
    assert(512 * r <= 512 * a.rpm + 256 < 512 * (r + 1));
}

/// At whole 256th parts of the way from `a` to `b` no bit is lost.
proof fn lemma_exact_part(a: CurvePoint, b: CurvePoint, t: int, k: int)
    requires
        a.temp_c < b.temp_c,
        0 <= k <= 256,
        256 * (t - a.temp_c * pow2(149)) == k * ((b.temp_c - a.temp_c) * pow2(149)),
    ensures
        ({
            let r = thermal::interpolated(a, b, t);
            let line = 256 * a.rpm + k * (b.rpm - a.rpm);
            512 * r <= 2 * line + 256 < 512 * (r + 1)
        }),
{
    let u = binary32::one() as int;
    let p = pow2(141) as int;
    lemma2_to64();
    lemma_pow2_adds(8, 141);
    lemma_pow2_pos(141);
    let dt = b.temp_c - a.temp_c;
    let d = b.rpm - a.rpm;
    let x = t - a.temp_c * u;
    let kd = k * dt;
    assert(x == kd * p) by (nonlinear_arith)
        requires
            256 * x == k * (dt * u),
            u == 256 * p,
            kd == k * dt,
    ;
    assert(0 <= kd <= 65280) by (nonlinear_arith)
        requires
            kd == k * dt,
            0 <= k <= 256,
            0 <= dt <= 255,
    ;
    lemma_rounded_141(kd);
    // the share
    let s = k * p;
    assert(s == (k as nat) * pow2(141));
    assert(rounding::fits24((k as nat) * pow2(141)));
    rounding::lemma_round24_exact((k as nat) * pow2(141), dt as nat);
    assert(((k as nat) * pow2(141)) * (dt as nat) == x) by (nonlinear_arith)
        requires
            x == kd * p,
            kd == k * dt,
            p == pow2(141),
            k >= 0,
            dt >= 0,
    ;
    assert(0 <= x) by (nonlinear_arith)
        requires
            x == kd * p,
            kd >= 0,
            p > 0,
    ;
    assert(0 <= s <= u) by (nonlinear_arith)
        requires
            s == k * p,
            0 <= k <= 256,
            u == 256 * p,
            p > 0,
    ;
    assert(thermal::share(a, b, t) == s);
    // the rise and the sum
    let w = k * d;
    assert(s * d == w * p) by (nonlinear_arith)
        requires
            s == k * p,
            w == k * d,
    ;
    assert(-256 * 65535 <= w <= 256 * 65535) by (nonlinear_arith)
        requires
            w == k * d,
            0 <= k <= 256,
            -65535 <= d <= 65535,
    ;
    lemma_rounded_141(w);
    let line = 256 * a.rpm + w;
    assert(a.rpm * u + w * p == line * p) by (nonlinear_arith)
        requires
            u == 256 * p,
            line == 256 * a.rpm + w,
    ;
    assert(0 <= line <= 256 * 65535) by (nonlinear_arith)
        requires
            line == 256 * a.rpm + k * (b.rpm - a.rpm),
            0 <= k <= 256,
            0 <= a.rpm <= 65535,
            0 <= b.rpm <= 65535,
    ;
    lemma_rounded_141(line);
    let v = thermal::speed_on_line(a, b, t);
    assert(v == line * p);
    assert(v >= 0) by (nonlinear_arith)
        requires
            v == line * p,
            line >= 0,
            p > 0,
    ;
    let r = binary32::nearest_whole(v);
    vstd::arithmetic::div_mod::lemma_fundamental_div_mod(2 * v + u, 2 * u);
    vstd::arithmetic::div_mod::lemma_mod_bound(2 * v + u, 2 * u);
    let m = (2 * v + u) % (2 * u);
    assert(512 * r <= 2 * line + 256 < 512 * (r + 1)) by (nonlinear_arith)
        requires
            2 * v + u == (2 * u) * r + m,
            0 <= m < 2 * u,
            v == line * p,
            u == 256 * p,
            p > 0,
    ;
}

/// Whole 256th parts of up to 24 bits are single-precision numbers.
proof fn lemma_rounded_141(k: int)
    requires
        -0x100_0000 <= k <= 0x100_0000,
    ensures
        binary32::rounded(k * pow2(141)) == k * pow2(141),
{
    let p = pow2(141);
    lemma_pow2_pos(141);
    if k >= 0 {
        assert(k * p >= 0) by (nonlinear_arith)
            requires
                k >= 0,
        ;
        assert((k * p) as nat == (k as nat) * pow2(141));
        assert(rounding::fits24((k as nat) * pow2(141)));
        rounding::lemma_round24_exact((k * p) as nat, 1);
    } else {
        assert(-(k * p) == (-k) * p) by (nonlinear_arith);
        assert((-k) * p > 0) by (nonlinear_arith)
            requires
                k < 0,
                p > 0,
        ;
        assert(((-k) * p) as nat == ((-k) as nat) * pow2(141));
        assert(rounding::fits24(((-k) as nat) * pow2(141)));
        rounding::lemma_round24_exact(((-k) * p) as nat, 1);
    }
}

/// Where a temperature is a whole number of 256ths of the way between two neighbours, the
/// speed is exactly the nearest whole number to the straight line, halves rounded up.
pub proof fn law_exact_parts(curve: Seq<CurvePoint>, t: int, i: int, k: int)
    requires
        0 <= i < curve.len() - 1,
        curve[0].temp_c * pow2(149) < t < curve[curve.len() - 1].temp_c * pow2(149),
        curve[i].temp_c * pow2(149) <= t <= curve[i + 1].temp_c * pow2(149),
        forall|j: int|
            0 <= j < i ==> !((#[trigger] curve[j]).temp_c * pow2(149) <= t <= curve[j + 1].temp_c
                * pow2(149)),
        curve[i].temp_c < curve[i + 1].temp_c,
        0 <= k <= 256,
        256 * (t - curve[i].temp_c * pow2(149)) == k * ((curve[i + 1].temp_c - curve[i].temp_c)
            * pow2(149)),
    ensures
        ({
            let free = thermal::target_speed(curve, Number::Finite(t), (0u16, 65535u16));
            let line = 256 * curve[i].rpm + k * (curve[i + 1].rpm - curve[i].rpm);
            512 * free <= 2 * line + 256 < 512 * (free + 1)
        }),
{
    lemma_first_bracket_is(curve, t, i);
    lemma_exact_part(curve[i], curve[i + 1], t, k);
}

/// Between two neighbours a curve follows the straight line from the one to the other, as
/// they stand, and the range of the device bears on the result alone. Where the line is at or
/// below the range, the speed is the lower bound; where it is at or above it, the upper one;
/// in between it is within 65/128 of the line. Neighbours of one temperature give the
/// speed of the second.
pub proof fn law_follows_line(
    curve: Seq<CurvePoint>,
    temp: Binary32,
    i: int,
    clamp: (u16, u16),
)
    requires
        temp.number() is Finite,
        0 <= i < curve.len() - 1,
        curve[0].temp_c * pow2(149) < temp.number()->Finite_0 < curve[curve.len() - 1].temp_c
            * pow2(149),
        curve[i].temp_c * pow2(149) <= temp.number()->Finite_0 <= curve[i + 1].temp_c * pow2(149),
        forall|j: int|
            0 <= j < i ==> !((#[trigger] curve[j]).temp_c * pow2(149) <= temp.number()->Finite_0
                <= curve[j + 1].temp_c * pow2(149)),
        clamp.0 <= clamp.1,
    ensures
        ({
            let a = curve[i];
            let b = curve[i + 1];
            let speed = thermal::target_speed(curve, temp.number(), clamp);
            let run = (b.temp_c - a.temp_c) * pow2(149);
            let line = a.rpm * run + (temp.number()->Finite_0 - a.temp_c * pow2(149)) * (b.rpm
                - a.rpm);
            &&& a.temp_c == b.temp_c ==> {
                &&& b.rpm <= clamp.0 ==> speed == clamp.0
                &&& b.rpm >= clamp.1 ==> speed == clamp.1
                &&& clamp.0 <= b.rpm <= clamp.1 ==> speed == b.rpm
            }
            &&& a.temp_c < b.temp_c ==> {
                &&& line <= clamp.0 * run ==> speed == clamp.0
                &&& line >= clamp.1 * run ==> speed == clamp.1
                &&& clamp.0 * run <= line <= clamp.1 * run ==> {
                    &&& 128 * (speed * run - line) <= 65 * run
                    &&& 128 * (line - speed * run) <= 65 * run
                }
            }
            &&& a.temp_c <= b.temp_c
        }),
{
    binary32::lemma_powers();
    let u = binary32::one() as int;
    let t = temp.number()->Finite_0;
    let a = curve[i];
    let b = curve[i + 1];
    let lo = clamp.0 as int;
    let hi = clamp.1 as int;
    lemma_first_bracket_is(curve, t, i);
    lemma_bracket_finite(curve, i, Number::Finite(t));
    law_range_applied_last(curve, temp.number(), clamp);
    if a.temp_c < b.temp_c {
        temp.lemma_zero();
        assert(0 <= a.temp_c * u && b.temp_c * u <= 255 * u) by (nonlinear_arith)
            requires
                0 <= a.temp_c,
                b.temp_c <= 255,
                u >= 0,
        ;
        assert(t == temp.magnitude());
        if temp.exponent() >= 150 {
            temp.lemma_large();
        }
        lemma_near_line(a, b, temp);
        let r = thermal::interpolated(a, b, t);
        let run = (b.temp_c - a.temp_c) * u;
        let line = a.rpm * run + (t - a.temp_c * u) * (b.rpm - a.rpm);
        assert(run > 0) by (nonlinear_arith)
            requires
                run == (b.temp_c - a.temp_c) * u,
                a.temp_c < b.temp_c,
                u > 0,
        ;
        lemma_side_of_line(r, line, run, lo);
        lemma_side_of_line(r, line, run, hi);
    }
}

/// A whole number near a line is on the same side of a whole bound, or at the bound.
proof fn lemma_side_of_line(r: int, line: int, run: int, bound: int)
    requires
        run > 0,
        128 * (r * run - line) <= 65 * run,
        128 * (line - r * run) <= 65 * run,
    ensures
        line <= bound * run ==> r <= bound,
        line >= bound * run ==> r >= bound,
{
    if line <= bound * run && r > bound {
        assert(r * run >= bound * run + run) by (nonlinear_arith)
            requires
                r >= bound + 1,
                run > 0,
        ;
    }
    if line >= bound * run && r < bound {
        assert(r * run <= bound * run - run) by (nonlinear_arith)
            requires
                r <= bound - 1,
                run > 0,
        ;
    }
}

/// On a line each of the three operations gives the nearest number of 24 bits, and the speed
/// is the whole number nearest to the last of them, halves rounded up.
pub proof fn law_line_in_single_precision(curve: Seq<CurvePoint>, temp: Binary32, i: int)
    requires
        temp.number() is Finite,
        0 <= i < curve.len() - 1,
        curve[0].temp_c * pow2(149) < temp.number()->Finite_0 < curve[curve.len() - 1].temp_c
            * pow2(149),
        curve[i].temp_c * pow2(149) <= temp.number()->Finite_0 <= curve[i + 1].temp_c * pow2(149),
        forall|j: int|
            0 <= j < i ==> !((#[trigger] curve[j]).temp_c * pow2(149) <= temp.number()->Finite_0
                <= curve[j + 1].temp_c * pow2(149)),
        curve[i].temp_c < curve[i + 1].temp_c,
    ensures
        ({
            let a = curve[i];
            let b = curve[i + 1];
            let free = thermal::target_speed(curve, temp.number(), (0u16, 65535u16));
            let along = (temp.number()->Finite_0 - a.temp_c * pow2(149)) as nat;
            let part = rounding::round24(along, (b.temp_c - a.temp_c) as nat);
            let line = if b.rpm >= a.rpm {
                let rise = rounding::round24(part * ((b.rpm - a.rpm) as nat), 1);
                rounding::round24((a.rpm * pow2(149) + rise) as nat, 1)
            } else {
                let fall = rounding::round24(part * ((a.rpm - b.rpm) as nat), 1);
                rounding::round24((a.rpm * pow2(149) - fall) as nat, 1)
            };
            (2 * free - 1) * pow2(149) <= 2 * line < (2 * free + 1) * pow2(149)
        }),
{
    binary32::lemma_powers();
    let u = binary32::one() as int;
    let t = temp.number()->Finite_0;
    let a = curve[i];
    let b = curve[i + 1];
    lemma_first_bracket_is(curve, t, i);
    temp.lemma_zero();
    assert(0 <= a.temp_c * u && b.temp_c * u <= 255 * u) by (nonlinear_arith)
        requires
            0 <= a.temp_c,
            b.temp_c <= 255,
            u >= 0,
    ;
    assert(t == temp.magnitude());
    if temp.exponent() >= 150 {
        temp.lemma_large();
    }
    thermal::lemma_line_bounds(a, b, t);
    lemma_difference_exact(temp, a.temp_c);
    let s = thermal::share(a, b, t);
    let part = s as nat;
    let d = b.rpm - a.rpm;
    let v = thermal::speed_on_line(a, b, t);
    assert(0 <= a.rpm * u && 0 <= b.rpm * u) by (nonlinear_arith)
        requires
            0 <= a.rpm,
            0 <= b.rpm,
            u > 0,
    ;
    if d >= 0 {
        assert(s * d >= 0) by (nonlinear_arith)
            requires
                s >= 0,
                d >= 0,
        ;
        assert((s * d) as nat == part * (d as nat));
    } else {
        let f = (-d) as nat;
        assert(part * f == -(s * d)) by (nonlinear_arith)
            requires
                part == s,
                f == -d,
        ;
        assert(part * f >= 0);
        if part * f == 0 {
            lemma2_to64();
            assert(0 == 0 * pow2(0));
            rounding::lemma_round24_exact(0, 1);
        }
        assert(a.rpm * u + d * u == b.rpm * u) by (nonlinear_arith)
            requires
                d == b.rpm - a.rpm,
        ;
    }
    let r = binary32::nearest_whole(v);
    vstd::arithmetic::div_mod::lemma_fundamental_div_mod(2 * v + u, 2 * u);
    vstd::arithmetic::div_mod::lemma_mod_bound(2 * v + u, 2 * u);
    let m = (2 * v + u) % (2 * u);
    assert((2 * r - 1) * u <= 2 * v < (2 * r + 1) * u) by (nonlinear_arith)
        requires
            2 * v + u == (2 * u) * r + m,
            0 <= m < 2 * u,
    ;
}

}
