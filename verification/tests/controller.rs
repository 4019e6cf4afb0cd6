use razer_control::binary32::Binary32;
use razer_control::comms::{CurvePoint, FanMode};
use razer_control::config::{default_cpu_curve, default_gpu_curve, FanCurve};
use razer_control::fan_controller::{
    bucket, compute_target, ramp_limit, snapshot_state, DeviceState, FanController, Phase,
    Readings, StateSnapshot, TempSnapshot, TickAction, TickEvent,
};
use razer_control::rounding::round_to_24_bits;

fn deg(t: f32) -> Option<Binary32> {
    Some(Binary32 { bits: t.to_bits() })
}

fn curves() -> FanCurve {
    FanCurve { cpu: default_cpu_curve(), gpu: default_gpu_curve() }
}

fn state(mode: FanMode) -> StateSnapshot {
    StateSnapshot { mode, curve: curves(), fan_range: (3500, 5000) }
}

fn readings(cpu: Option<Binary32>, gpu: Option<Binary32>) -> Readings {
    Readings {
        cpu,
        gpu,
        pkg_watts: deg(35.5),
        gpu_watts: None,
        pkg_pl1_w: Some(45),
        pkg_pl2_w: Some(90),
        gpu_tgp_w: Some(115),
    }
}

fn step(controller: &mut FanController, event: TickEvent) -> TickAction {
    assert!(controller.is_acceptable(&event));
    controller.tick(event)
}

/// One tick of a device that takes every speed; returns what was written.
fn whole_tick(controller: &mut FanController, mode: FanMode, seen: Readings) -> Option<u16> {
    assert_eq!(step(controller, TickEvent::Timer), TickAction::AskState);
    let event = TickEvent::State(Some(state(mode)));
    assert_eq!(step(controller, event), TickAction::ReadSensors);
    let event = TickEvent::Sensors(Some(seen));
    assert_eq!(step(controller, event), TickAction::ReserveDevice);
    let mut written: Option<u16> = None;
    let mut action = step(controller, TickEvent::Reserved(true));
    if action == TickAction::CheckMode {
        action = step(controller, TickEvent::Mode(Some(mode)));
    }
    if let TickAction::WriteRpm(rpm) = action {
        written = Some(rpm);
        action = step(controller, TickEvent::Written(true));
    }
    assert_eq!(action, TickAction::SampleRpm);
    assert_eq!(step(controller, TickEvent::Sampled(Some(4100))), TickAction::Wait);
    written
}

#[test]
fn bucket_rounds_to_nearest_hundred() {
    assert_eq!(bucket(0), 0);
    assert_eq!(bucket(49), 0);
    assert_eq!(bucket(50), 100);
    assert_eq!(bucket(3549), 3500);
    assert_eq!(bucket(3550), 3600);
    assert_eq!(bucket(4499), 4500);
}

#[test]
fn bucket_at_its_limit() {
    assert_eq!(bucket(65485), 65500);
    assert_eq!(bucket(bucket(4449)), 4400);
}

#[test]
fn a_ramp_is_limited_both_ways() {
    assert_eq!(ramp_limit(None, 5000), 5000);
    assert_eq!(ramp_limit(Some(3500), 5000), 3800);
    assert_eq!(ramp_limit(Some(3500), 3800), 3800);
    assert_eq!(ramp_limit(Some(3500), 3600), 3600);
    assert_eq!(ramp_limit(Some(5000), 3500), 4700);
    assert_eq!(ramp_limit(Some(5000), 4900), 4900);
    assert_eq!(ramp_limit(Some(100), 0), 0);
    assert_eq!(ramp_limit(Some(400), 0), 100);
    assert_eq!(ramp_limit(Some(65500), 65535), 65535);
}

#[test]
fn the_faster_sensor_wins() {
    let range = (3500, 5000);
    assert_eq!(compute_target(&curves(), None, None, range), 3500);
    assert_eq!(compute_target(&curves(), deg(70.0), None, range), 4400);
    assert_eq!(compute_target(&curves(), None, deg(75.0), range), 4400);
    assert_eq!(compute_target(&curves(), deg(62.5), deg(80.0), range), 4700);
    assert_eq!(compute_target(&curves(), deg(62.5), deg(40.0), range), 4100);
}

#[test]
fn a_snapshot_needs_a_device_and_its_range() {
    assert!(snapshot_state(None).is_none());
    let device = |fan_range| DeviceState {
        mode: FanMode::Auto,
        cpu: vec![CurvePoint { temp_c: 1, rpm: 2 }],
        gpu: Vec::new(),
        fan_range,
    };
    assert!(snapshot_state(Some(device(None))).is_none());
    let snapshot = snapshot_state(Some(device(Some((10, 20))))).unwrap();
    assert_eq!(snapshot.mode, FanMode::Auto);
    assert_eq!(snapshot.fan_range, (10, 20));
    assert_eq!(snapshot.curve.cpu, vec![CurvePoint { temp_c: 1, rpm: 2 }]);
    assert!(snapshot.curve.gpu.is_empty());
}

#[test]
fn a_tick_writes_and_keeps_what_it_saw() {
    let mut controller = FanController::new();
    assert_eq!(controller.cache, TempSnapshot::default());
    let seen = readings(deg(62.5), None);
    assert_eq!(whole_tick(&mut controller, FanMode::Curve, seen), Some(4100));
    assert_eq!(controller.last_written, Some(4100));
    assert_eq!(
        controller.cache,
        TempSnapshot {
            cpu: deg(62.5),
            gpu: None,
            target_rpm: 4100,
            current_rpm: Some(4100),
            pkg_watts: deg(35.5),
            gpu_watts: None,
            pkg_pl1_w: Some(45),
            pkg_pl2_w: Some(90),
            gpu_tgp_w: Some(115),
        }
    );
    assert!(matches!(controller.phase, Phase::Waiting));
}

#[test]
fn ticks_climb_in_steps_and_then_rest() {
    let mut controller = FanController::new();
    let cool = readings(deg(30.0), deg(30.0));
    let hot = readings(deg(95.0), deg(30.0));
    assert_eq!(whole_tick(&mut controller, FanMode::Curve, cool), Some(3500));
    for rpm in [3800, 4100, 4400, 4700, 5000] {
        assert_eq!(whole_tick(&mut controller, FanMode::Curve, hot), Some(rpm));
    }
    assert_eq!(whole_tick(&mut controller, FanMode::Curve, hot), None);
    for rpm in [4700, 4400, 4100, 3800, 3500] {
        assert_eq!(whole_tick(&mut controller, FanMode::Curve, cool), Some(rpm));
    }
    assert_eq!(whole_tick(&mut controller, FanMode::Curve, cool), None);
}

#[test]
fn a_steady_target_is_reached_in_time_and_kept() {
    let seen = readings(deg(62.5), None);
    for start in [3500u16, 3700, 3800, 4000, 4100, 4300, 4400, 4500, 5000, 0, 65500] {
        let mut controller = FanController::new();
        controller.last_written = Some(start);
        let ticks = start.abs_diff(4100).div_ceil(300).max(1);
        for _ in 0..ticks {
            whole_tick(&mut controller, FanMode::Curve, seen);
        }
        assert_eq!(controller.last_written, Some(4100));
        for _ in 0..3 {
            assert_eq!(whole_tick(&mut controller, FanMode::Curve, seen), None);
            assert_eq!(controller.last_written, Some(4100));
        }
    }
}

#[test]
fn a_target_between_hundreds_is_rounded_and_kept() {
    let seen = readings(deg(61.0), None);
    let target = compute_target(&curves(), deg(61.0), None, (3500, 5000));
    assert_eq!(target, 4040);
    let mut controller = FanController::new();
    controller.last_written = Some(3500);
    assert_eq!(whole_tick(&mut controller, FanMode::Curve, seen), Some(3800));
    assert_eq!(whole_tick(&mut controller, FanMode::Curve, seen), Some(4000));
    assert_eq!(whole_tick(&mut controller, FanMode::Curve, seen), None);
    assert_eq!(controller.last_written, Some(4000));
}

#[test]
fn other_modes_only_look() {
    let mut controller = FanController::new();
    let seen = readings(deg(62.5), deg(70.0));
    for mode in [FanMode::Auto, FanMode::Manual] {
        assert_eq!(whole_tick(&mut controller, mode, seen), None);
        assert_eq!(controller.last_written, None);
        assert_eq!(controller.cache.target_rpm, 0);
        assert_eq!(controller.cache.cpu, deg(62.5));
        assert_eq!(controller.cache.current_rpm, Some(4100));
    }
}

#[test]
fn a_tick_is_given_up_where_something_is_missing() {
    let mut controller = FanController::new();
    step(&mut controller, TickEvent::Timer);
    assert_eq!(step(&mut controller, TickEvent::State(None)), TickAction::Wait);
    step(&mut controller, TickEvent::Timer);
    step(&mut controller, TickEvent::State(Some(state(FanMode::Curve))));
    assert_eq!(step(&mut controller, TickEvent::Sensors(None)), TickAction::Wait);
    step(&mut controller, TickEvent::Timer);
    step(&mut controller, TickEvent::State(Some(state(FanMode::Curve))));
    step(&mut controller, TickEvent::Sensors(Some(readings(deg(70.0), None))));
    assert_eq!(step(&mut controller, TickEvent::Reserved(false)), TickAction::Wait);
    assert_eq!(controller.last_written, None);
    assert_eq!(controller.cache.target_rpm, 4400);
}

#[test]
fn a_changed_mode_or_a_refusal_keeps_the_last_speed() {
    let mut controller = FanController::new();
    for now in [Some(FanMode::Manual), None] {
        step(&mut controller, TickEvent::Timer);
        step(&mut controller, TickEvent::State(Some(state(FanMode::Curve))));
        step(&mut controller, TickEvent::Sensors(Some(readings(deg(70.0), None))));
        step(&mut controller, TickEvent::Reserved(true));
        assert_eq!(step(&mut controller, TickEvent::Mode(now)), TickAction::SampleRpm);
        step(&mut controller, TickEvent::Sampled(None));
    }
    step(&mut controller, TickEvent::Timer);
    step(&mut controller, TickEvent::State(Some(state(FanMode::Curve))));
    step(&mut controller, TickEvent::Sensors(Some(readings(deg(70.0), None))));
    step(&mut controller, TickEvent::Reserved(true));
    let action = step(&mut controller, TickEvent::Mode(Some(FanMode::Curve)));
    assert_eq!(action, TickAction::WriteRpm(4400));
    assert_eq!(step(&mut controller, TickEvent::Written(false)), TickAction::SampleRpm);
    assert_eq!(controller.last_written, None);
    step(&mut controller, TickEvent::Sampled(Some(-1)));
    assert_eq!(controller.cache.current_rpm, None);
}

#[test]
fn samples_keep_their_low_bits() {
    let mut controller = FanController::new();
    controller.phase = Phase::Sampling;
    step(&mut controller, TickEvent::Sampled(Some(70_000)));
    assert_eq!(controller.cache.current_rpm, Some(70_000i32 as u16));
    controller.phase = Phase::Sampling;
    step(&mut controller, TickEvent::Sampled(Some(0)));
    assert_eq!(controller.cache.current_rpm, Some(0));
    controller.phase = Phase::Sampling;
    step(&mut controller, TickEvent::Sampled(None));
    assert_eq!(controller.cache.current_rpm, Some(0));
}

#[test]
fn events_out_of_turn_are_not_acceptable() {
    let controller = FanController::new();
    assert!(!controller.is_acceptable(&TickEvent::Written(true)));
    assert!(!controller.is_acceptable(&TickEvent::Sampled(None)));
    assert!(controller.is_acceptable(&TickEvent::Timer));
}

#[test]
fn speeds_beyond_the_hundreds_are_not_acceptable() {
    let mut controller = FanController::new();
    let fast = |rpm| StateSnapshot {
        mode: FanMode::Curve,
        curve: FanCurve::default(),
        fan_range: (rpm, rpm),
    };
    controller.phase = Phase::Sensing(fast(65486));
    let event = TickEvent::Sensors(Some(readings(None, None)));
    assert!(!controller.is_acceptable(&event));
    controller.phase = Phase::Sensing(fast(65485));
    assert!(controller.is_acceptable(&event));
    controller.phase = Phase::Sensing(fast(65486));
    controller.last_written = Some(3500);
    assert!(controller.is_acceptable(&event));
}

#[test]
fn rounding_keeps_24_bits_and_goes_to_even() {
    assert_eq!(round_to_24_bits(0, 7), 0);
    assert_eq!(round_to_24_bits(16_777_215, 1), 16_777_215);
    assert_eq!(round_to_24_bits(16_777_217, 1), 16_777_216);
    assert_eq!(round_to_24_bits(16_777_219, 1), 16_777_220);
    assert_eq!(round_to_24_bits(33_554_431, 1), 33_554_432);
    assert_eq!(round_to_24_bits(7, 2), 4);
    assert_eq!(round_to_24_bits(5, 2), 2);
    assert_eq!(round_to_24_bits(1u128 << 126, 1), 1u128 << 126);
}

#[test]
fn no_24_bit_neighbour_is_nearer() {
    for n in [16_777_217u128, 50_000_001, 123_456_789_012, 999_999_999_999_999] {
        let r = round_to_24_bits(n, 1);
        let mut step: u128 = 1;
        while r / step >= 1 << 24 {
            step *= 2;
        }
        assert_eq!(r % step, 0);
        assert!(r.abs_diff(n) <= (r + step).abs_diff(n));
        assert!(r.abs_diff(n) <= (r - step).abs_diff(n));
    }
}

#[test]
fn hotter_sensors_never_slow_the_fans() {
    let range = (3500, 5000);
    let mut before: u16 = 0;
    for t in 0..110 {
        let target = compute_target(&curves(), deg(t as f32), deg(t as f32 / 2.0), range);
        assert!(target >= before);
        before = target;
    }
    assert_eq!(before, 5000);
}
