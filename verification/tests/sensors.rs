use razer_control::binary32::Binary32;
use razer_control::binary64::Binary64;
use razer_control::text::{is_white_space, parse_i32, spells, trim};
use razer_control::thermal::{read_hwmon_temp, HwmonEntry, Source, ThermalMonitor};

fn entry(name: &str, has_temp: bool) -> HwmonEntry {
    HwmonEntry { name: Some(name.to_string()), has_temp }
}

fn chars(text: &str) -> Vec<char> {
    text.chars().collect()
}

fn next(state: &mut u64) -> u64 {
    *state = state.wrapping_mul(6364136223846793005).wrapping_add(1442695040888963407);
    *state ^ (*state >> 29)
}

fn temp(text: &str) -> Option<f32> {
    read_hwmon_temp(text).map(|t| f32::from_bits(t.bits))
}

#[test]
fn sensor_text_counts_thousandths() {
    assert_eq!(temp("45250\n"), Some(45.25));
    assert_eq!(temp("0\n"), Some(0.0));
    assert_eq!(temp("-5500\n"), Some(-5.5));
    assert_eq!(temp(" +1\t"), Some(0.001));
    assert_eq!(temp("2147483647"), Some(2147483.75));
    assert_eq!(temp("-2147483648"), Some(-2147483.75));
}

#[test]
fn other_sensor_text_gives_nothing() {
    for text in [
        "", " \n", "+", "-", "4 5", "45.2", "4a", "--1", "0x10", "2147483648", "-2147483649",
        "99999999999999999999",
    ] {
        assert_eq!(read_hwmon_temp(text), None);
    }
}

#[test]
fn readings_are_those_of_the_floating_point_unit() {
    let mut seed: u64 = 3;
    for i in 0..60_000 {
        let milli = if i % 2 == 0 { next(&mut seed) as i32 } else { i - 30_000 };
        let text = format!("{}\n", milli);
        assert_eq!(temp(&text).unwrap().to_bits(), (milli as f32 / 1000.0).to_bits());
        let whole = (next(&mut seed) >> (i % 40)) as u32;
        assert_eq!(Binary32::from_whole(whole).bits, (whole as f32).to_bits());
    }
    assert_eq!(Binary32::from_whole(0).bits, 0);
    assert_eq!(Binary32::from_whole(u32::MAX).bits, (u32::MAX as f32).to_bits());
}

#[test]
fn a_larger_count_is_no_smaller_a_reading() {
    let mut before: f32 = -1.0;
    for milli in 0..50_000 {
        let t = temp(&format!("{}", milli)).unwrap();
        assert!(t >= before);
        assert!((t as f64 * 1000.0 - milli as f64).abs() <= milli as f64 / 16777216.0);
        before = t;
    }
}

#[test]
fn comparisons_are_those_of_the_floating_point_unit() {
    let mut seed: u64 = 5;
    for i in 0..200_000 {
        let k = next(&mut seed) as u8;
        let bits = match i % 3 {
            0 => next(&mut seed) as u32,
            1 => (k as f32).to_bits().wrapping_add((next(&mut seed) % 3) as u32).wrapping_sub(1),
            _ => (next(&mut seed) as u32) % 0x4400_0000,
        };
        let t = f32::from_bits(bits);
        assert_eq!(Binary32 { bits }.at_most(k), t <= k as f32);
        assert_eq!(Binary32 { bits }.at_least(k), t >= k as f32);
    }
}

#[test]
fn white_space_is_that_of_unicode() {
    for code in 0..=0x10ffffu32 {
        if let Some(c) = char::from_u32(code) {
            assert_eq!(is_white_space(c), c.is_whitespace());
        }
    }
}

#[test]
fn trimming_and_parsing_agree_with_the_standard_library() {
    for text in [
        "", " ", "a", " a ", "\u{3000}x y\u{a0}", "\n12\r\n", "1\u{200b}", "+0", "-0", "007",
        "\u{0661}", "-2147483648", "2147483647", "2147483648", "00000000000000000000012", "1_0",
    ] {
        let trimmed = trim(text);
        assert_eq!(trimmed, chars(text.trim()));
        assert_eq!(parse_i32(&trimmed), text.trim().parse::<i32>().ok());
        assert_eq!(parse_i32(&chars(text)), text.parse::<i32>().ok());
    }
}

#[test]
fn words_are_compared_whole() {
    assert!(spells(&chars("xe"), "xe"));
    assert!(!spells(&chars("xe"), "x"));
    assert!(!spells(&chars("x"), "xe"));
    assert!(!spells(&chars("xE"), "xe"));
    assert!(spells(&chars(""), ""));
}

#[test]
fn the_first_fitting_monitors_are_picked() {
    let entries = vec![
        entry("nvme\n", true),
        entry("k10temp\n", false),
        HwmonEntry { name: None, has_temp: true },
        entry("amdgpu\n", true),
        entry(" coretemp \n", true),
        entry("zenpower\n", true),
        entry("i915\n", true),
    ];
    let monitor = ThermalMonitor::probe(&entries, false);
    assert_eq!(monitor, ThermalMonitor { cpu_hwmon: Some(4), gpu_hwmon: Some(3), nvml: false });
    assert_eq!(monitor.read_cpu(), Source::Monitor(4));
    assert_eq!(monitor.read_gpu(None), Source::Monitor(3));
}

#[test]
fn every_known_name_is_found() {
    for name in ["k10temp", "zenpower", "coretemp", "k8temp"] {
        let monitor = ThermalMonitor::probe(&vec![entry(name, true)], false);
        assert_eq!(monitor.cpu_hwmon, Some(0));
        assert_eq!(monitor.gpu_hwmon, None);
    }
    for name in ["amdgpu", "i915", "xe", "nouveau"] {
        let monitor = ThermalMonitor::probe(&vec![entry(name, true)], false);
        assert_eq!(monitor.cpu_hwmon, None);
        assert_eq!(monitor.gpu_hwmon, Some(0));
    }
}

#[test]
fn no_monitor_means_no_reading() {
    let monitor = ThermalMonitor::probe(&Vec::new(), false);
    assert_eq!(monitor.read_cpu(), Source::Missing);
    assert_eq!(monitor.read_gpu(None), Source::Missing);
    assert_eq!(monitor.read_gpu(Some(50)), Source::Missing);
}

#[test]
fn the_driver_comes_before_the_monitors() {
    let monitor = ThermalMonitor::probe(&vec![entry("nouveau", true)], true);
    let known = Source::Known(Binary32 { bits: 61f32.to_bits() });
    assert_eq!(monitor.read_gpu(Some(61)), known);
    assert_eq!(monitor.read_gpu(None), Source::Monitor(0));
}

#[test]
fn whole_parts_are_those_of_the_floating_point_unit() {
    let mut values: Vec<f64> = vec![
        0.0, -0.0, 0.999, 1.0, 1.5, 110.0, 254.99, 255.0, 255.5, 256.0, 65534.9, 65535.0, 65535.9,
        65536.0, 1.0e300, -1.0, f64::NAN, f64::INFINITY, f64::NEG_INFINITY, 5.0e-324,
    ];
    let mut seed: u64 = 9;
    for i in 0..100_000 {
        values.push(f64::from_bits(next(&mut seed)));
        values.push((next(&mut seed) % 70_000_000) as f64 / 1000.0);
        values.push((next(&mut seed) >> (i % 60)) as f64 / 8.0);
    }
    for v in values {
        let number = Binary64 { bits: v.to_bits() };
        assert_eq!(number.to_u8(), v.clamp(0.0, 255.0) as u8);
        assert_eq!(number.to_u16(), v.clamp(0.0, 65535.0) as u16);
        assert_eq!(number.to_u8(), v as u8);
        assert_eq!(number.to_u16(), v as u16);
    }
}
