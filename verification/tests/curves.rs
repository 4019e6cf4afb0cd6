use razer_control::binary32::Binary32;
use razer_control::comms::CurvePoint;
use razer_control::config::{default_cpu_curve, default_gpu_curve};
use razer_control::thermal::eval;

fn pt(t: u8, r: u16) -> CurvePoint {
    CurvePoint { temp_c: t, rpm: r }
}

fn deg(t: f32) -> Binary32 {
    Binary32 { bits: t.to_bits() }
}

/// The same evaluation with the floating-point unit.
fn float_eval(curve: &[CurvePoint], temp_c: f32, clamp: (u16, u16)) -> u16 {
    let clip = |r: u16| -> u16 { r.max(clamp.0).min(clamp.1) };
    if curve.is_empty() {
        return clamp.0;
    }
    let last = curve[curve.len() - 1];
    if temp_c <= curve[0].temp_c as f32 {
        return clip(curve[0].rpm);
    }
    if temp_c >= last.temp_c as f32 {
        return clip(last.rpm);
    }
    for i in 1..curve.len() {
        let (a, b) = (curve[i - 1], curve[i]);
        if a.temp_c as f32 <= temp_c && temp_c <= b.temp_c as f32 {
            let dt = b.temp_c as f32 - a.temp_c as f32;
            if dt <= 0.0 {
                return clip(b.rpm);
            }
            let t = ((temp_c - a.temp_c as f32) / dt).clamp(0.0, 1.0);
            let rpm = a.rpm as f32 + t * (b.rpm as f32 - a.rpm as f32);
            return clip(rpm.round() as u16);
        }
    }
    clip(last.rpm)
}

fn next(state: &mut u64) -> u64 {
    *state = state.wrapping_mul(6364136223846793005).wrapping_add(1442695040888963407);
    *state >> 24
}

#[test]
fn empty_curve_returns_min_clamp() {
    assert_eq!(eval(&[], deg(50.0), (3500, 5000)), 3500);
}

#[test]
fn below_first_point_returns_first_rpm() {
    let curve = vec![pt(50, 3500), pt(80, 5000)];
    assert_eq!(eval(&curve, deg(30.0), (3500, 5000)), 3500);
}

#[test]
fn above_last_point_returns_last_rpm() {
    let curve = vec![pt(50, 3500), pt(80, 5000)];
    assert_eq!(eval(&curve, deg(90.0), (3500, 5000)), 5000);
}

#[test]
fn midpoint_interpolates_linearly() {
    let curve = vec![pt(50, 3500), pt(80, 5000)];
    // Halfway between 50 and 80 -> 3500 + 0.5*(5000-3500) = 4250
    assert_eq!(eval(&curve, deg(65.0), (3500, 5000)), 4250);
}

#[test]
fn multi_segment_picks_correct_bracket() {
    let curve = vec![pt(40, 3500), pt(55, 3800), pt(70, 4400), pt(85, 5000)];
    // Between 55 (3800) and 70 (4400). At 62.5: halfway -> 4100
    assert_eq!(eval(&curve, deg(62.5), (3500, 5000)), 4100);
}

#[test]
fn clamp_caps_high_rpm_from_curve() {
    let curve = vec![pt(50, 3500), pt(80, 9000)];
    assert_eq!(eval(&curve, deg(80.0), (3500, 5000)), 5000);
}

#[test]
fn clamp_lifts_low_rpm_from_curve() {
    let curve = vec![pt(50, 1000), pt(80, 5000)];
    assert_eq!(eval(&curve, deg(50.0), (3500, 5000)), 3500);
}

#[test]
fn single_point_curve_returns_that_rpm() {
    let curve = vec![pt(60, 4000)];
    assert_eq!(eval(&curve, deg(30.0), (3500, 5000)), 4000);
    assert_eq!(eval(&curve, deg(90.0), (3500, 5000)), 4000);
}

#[test]
fn numbers_beyond_the_scale() {
    let curve = vec![pt(50, 3500), pt(80, 5000)];
    assert_eq!(eval(&curve, deg(f32::NAN), (0, 65535)), 5000);
    assert_eq!(eval(&curve, deg(f32::INFINITY), (0, 65535)), 5000);
    assert_eq!(eval(&curve, deg(f32::NEG_INFINITY), (0, 65535)), 3500);
    assert_eq!(eval(&curve, deg(-0.0), (0, 65535)), 3500);
    assert_eq!(eval(&curve, deg(-40.0), (0, 65535)), 3500);
    assert_eq!(eval(&curve, deg(1.0e30), (0, 65535)), 5000);
    let from_zero = vec![pt(0, 1000), pt(100, 5000)];
    assert_eq!(eval(&from_zero, deg(1.0e-40), (0, 65535)), 1000);
    assert_eq!(eval(&from_zero, deg(-0.0), (0, 65535)), 1000);
}

#[test]
fn an_inverted_range_yields_its_upper_bound() {
    let curve = vec![pt(50, 3500), pt(80, 5000)];
    assert_eq!(eval(&curve, deg(65.0), (6000, 2000)), 2000);
    assert_eq!(eval(&[], deg(65.0), (6000, 2000)), 6000);
}

#[test]
fn a_curve_may_go_down_and_may_jump() {
    let down = vec![pt(40, 5000), pt(80, 1000)];
    assert_eq!(eval(&down, deg(50.0), (0, 65535)), 4000);
    let jump = vec![pt(40, 1000), pt(60, 2000), pt(60, 4000), pt(80, 5000)];
    assert_eq!(eval(&jump, deg(60.0), (0, 65535)), 2000);
    assert_eq!(eval(&jump, deg(60.001), (0, 65535)), 4000);
    let unordered = vec![pt(40, 1000), pt(30, 2000), pt(35, 2500), pt(90, 3000)];
    assert_eq!(eval(&unordered, deg(62.5), (0, 65535)), 2750);
}

#[test]
fn halves_are_rounded_up() {
    let curve = vec![pt(0, 0), pt(2, 1)];
    assert_eq!(eval(&curve, deg(1.0), (0, 65535)), 1);
    assert_eq!(eval(&curve, deg(0.99), (0, 65535)), 0);
}

#[test]
fn a_curve_goes_through_its_points() {
    for curve in [default_cpu_curve(), default_gpu_curve()] {
        for p in curve.iter() {
            assert_eq!(eval(&curve, deg(p.temp_c as f32), (0, 65535)), p.rpm);
        }
    }
}

#[test]
fn hotter_is_never_slower() {
    let curve = default_cpu_curve();
    let mut before: u16 = 0;
    for milli in 0..120_000 {
        let rpm = eval(&curve, deg(milli as f32 / 1000.0), (3500, 5000));
        assert!(rpm >= before);
        assert!((3500..=5000).contains(&rpm));
        before = rpm;
    }
    assert_eq!(before, 5000);
}

#[test]
fn speeds_are_close_to_the_straight_line() {
    let curve = vec![pt(3, 100), pt(250, 65535)];
    for milli in 3001..250_000 {
        let t = milli as f32 / 1000.0;
        let line = 100.0 + (t as f64 - 3.0) * 65435.0 / 247.0;
        let rpm = eval(&curve, deg(t), (0, 65535)) as f64;
        assert!((rpm - line).abs() <= 65.0 / 128.0);
    }
}

#[test]
fn results_are_those_of_the_floating_point_unit() {
    let mut seed: u64 = 7;
    for round in 0..40_000 {
        let points = (next(&mut seed) % 5) as usize;
        let mut curve: Vec<CurvePoint> = Vec::new();
        for _ in 0..points {
            curve.push(pt(next(&mut seed) as u8, next(&mut seed) as u16));
        }
        if round % 4 != 0 {
            curve.sort_by_key(|p| p.temp_c);
        }
        let clamp = (next(&mut seed) as u16, next(&mut seed) as u16);
        for clamp in [clamp, (0, 65535)] {
            for _ in 0..4 {
                let milli = (next(&mut seed) % 260_000) as i32 - 2_000;
                let t = milli as f32 / 1000.0;
                assert_eq!(eval(&curve, deg(t), clamp), float_eval(&curve, t, clamp));
                let bits = next(&mut seed) as u32;
                let t = f32::from_bits(bits);
                assert_eq!(eval(&curve, deg(t), clamp), float_eval(&curve, t, clamp));
            }
        }
    }
}

#[test]
fn small_temperatures_are_those_of_the_floating_point_unit() {
    let mut seed: u64 = 11;
    for _ in 0..100_000 {
        let exponent = (next(&mut seed) % 136) as u32;
        let bits = exponent * 0x80_0000 + (next(&mut seed) % 0x80_0000) as u32;
        let curve = [
            pt((next(&mut seed) % 3) as u8, next(&mut seed) as u16),
            pt(3 + (next(&mut seed) % 253) as u8, next(&mut seed) as u16),
        ];
        let t = f32::from_bits(bits);
        assert_eq!(
            eval(&curve, Binary32 { bits }, (0, 65535)),
            float_eval(&curve, t, (0, 65535))
        );
    }
}
