use razer_control::binary64::Binary64;
use razer_control::comms::{CurvePoint, FanMode};
use razer_control::config::{
    default_cpu_curve, default_gpu_curve, effects_file, settings_file, Configuration, FanCurve,
    PowerConfig, StoreError,
};
use serde_json::Value;

fn pt(t: u8, r: u16) -> CurvePoint {
    CurvePoint { temp_c: t, rpm: r }
}

#[test]
fn default_curves() {
    assert_eq!(default_cpu_curve(), vec![pt(40, 3500), pt(55, 3800), pt(70, 4400), pt(85, 5000)]);
    assert_eq!(default_gpu_curve(), vec![pt(45, 3500), pt(60, 3800), pt(75, 4400), pt(85, 5000)]);
    let empty = FanCurve::default();
    assert!(empty.cpu.is_empty() && empty.gpu.is_empty());
}

#[test]
fn settings_of_a_first_start() {
    let config = Configuration::new();
    for power in config.power.iter() {
        assert_eq!(power.power_mode, 0);
        assert_eq!(power.cpu_boost, 1);
        assert_eq!(power.gpu_boost, 0);
        assert_eq!(power.fan_rpm, 0);
        assert_eq!(power.brightness, 128);
        assert_eq!(power.logo_state, 0);
        assert!(!power.screensaver);
        assert_eq!(power.idle, 0);
        assert_eq!(power.fan_mode, FanMode::Curve);
        assert_eq!(power.fan_curve.cpu, default_cpu_curve());
        assert_eq!(power.fan_curve.gpu, default_gpu_curve());
    }
    assert!(!config.sync);
    assert_eq!(config.no_light.bits, 0f64.to_bits());
    assert_eq!(config.standard_effect, 0);
    assert!(config.standard_effect_params.is_empty());
}

#[test]
fn missing_curves_are_filled_in() {
    let mut read = Configuration::new();
    read.power[0].fan_curve = FanCurve { cpu: Vec::new(), gpu: vec![pt(10, 2000)] };
    read.power[0].fan_mode = FanMode::Manual;
    read.power[0].fan_rpm = 4200;
    read.power[1].fan_curve = FanCurve { cpu: vec![pt(20, 3000)], gpu: Vec::new() };
    read.sync = true;
    read.no_light = Binary64 { bits: 12.5f64.to_bits() };
    read.standard_effect = 3;
    read.standard_effect_params = vec![1, 2, 3];
    let config = Configuration::read_from_config(read);
    assert_eq!(config.power[0].fan_curve.cpu, default_cpu_curve());
    assert_eq!(config.power[0].fan_curve.gpu, vec![pt(10, 2000)]);
    assert_eq!(config.power[0].fan_mode, FanMode::Manual);
    assert_eq!(config.power[0].fan_rpm, 4200);
    assert_eq!(config.power[1].fan_curve.cpu, vec![pt(20, 3000)]);
    assert_eq!(config.power[1].fan_curve.gpu, default_gpu_curve());
    assert!(config.sync);
    assert_eq!(config.no_light.bits, 12.5f64.to_bits());
    assert_eq!(config.standard_effect, 3);
    assert_eq!(config.standard_effect_params, vec![1, 2, 3]);
    let again = Configuration::read_from_config(config);
    assert_eq!(again.power[0].fan_curve.gpu, vec![pt(10, 2000)]);
    assert_eq!(again.power[1].fan_curve.gpu, default_gpu_curve());
}

#[test]
fn settings_can_be_copied() {
    let mut power = PowerConfig::new();
    power.idle = 17;
    power.fan_curve.cpu.push(pt(99, 5300));
    let copy = power.clone();
    assert_eq!(copy.idle, 17);
    assert_eq!(copy.brightness, 128);
    assert_eq!(copy.fan_curve.cpu, power.fan_curve.cpu);
}

#[test]
fn files_stand_below_the_home_directory() {
    assert_eq!(settings_file("/home/a"), "/home/a/.local/share/razercontrol/daemon.json");
    assert_eq!(effects_file("/root"), "/root/.local/share/razercontrol/effects.json");
}

#[test]
fn effects_are_saved_indented() {
    let mut layer = serde_json::Map::new();
    layer.insert("name".to_string(), Value::String("wave".to_string()));
    layer.insert("args".to_string(), Value::Array(vec![Value::from(1), Value::Bool(true)]));
    let json = Value::Object(layer);
    let text = Configuration::write_effects_save(&json).unwrap();
    assert_eq!(text, "{\n  \"args\": [\n    1,\n    true\n  ],\n  \"name\": \"wave\"\n}");
    assert_eq!(Configuration::read_effects_file(&text).unwrap(), json);
}

#[test]
fn effects_that_are_not_json_are_refused() {
    for text in ["", "{", "[1,]", "nul", "1 2"] {
        let result = Configuration::read_effects_file(text);
        assert!(matches!(result, Err(StoreError::Json(_))));
    }
    assert_eq!(Configuration::read_effects_file(" null\n").unwrap(), Value::Null);
}

#[test]
fn default_curves_are_in_order() {
    for curve in [default_cpu_curve(), default_gpu_curve()] {
        for i in 1..curve.len() {
            assert!(curve[i - 1].temp_c < curve[i].temp_c);
            assert!(curve[i - 1].rpm <= curve[i].rpm);
        }
    }
}

#[test]
fn settings_of_a_first_start_are_complete() {
    let config = Configuration::read_from_config(Configuration::new());
    assert_eq!(config.power[0].fan_curve.cpu, default_cpu_curve());
    assert_eq!(config.power[1].fan_curve.gpu, default_gpu_curve());
    assert_eq!(config.power[0].brightness, 128);
}
