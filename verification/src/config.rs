//! The settings that the daemon keeps.

use vstd::prelude::*;
use crate::binary64::Binary64;
use crate::comms::{CurvePoint, FanMode};

verus! {

/// The points of the curve that the processor starts out with.
pub open spec fn default_cpu_points() -> Seq<CurvePoint> {
    seq![
        CurvePoint { temp_c: 40, rpm: 3500 },
        CurvePoint { temp_c: 55, rpm: 3800 },
        CurvePoint { temp_c: 70, rpm: 4400 },
        CurvePoint { temp_c: 85, rpm: 5000 },
    ]
}

/// The points of the curve that the graphics processor starts out with.
pub open spec fn default_gpu_points() -> Seq<CurvePoint> {
    seq![
        CurvePoint { temp_c: 45, rpm: 3500 },
        CurvePoint { temp_c: 60, rpm: 3800 },
        CurvePoint { temp_c: 75, rpm: 4400 },
        CurvePoint { temp_c: 85, rpm: 5000 },
    ]
}

/// The curve that the processor starts out with.
pub fn default_cpu_curve() -> (curve: Vec<CurvePoint>)
    ensures
        curve@ == default_cpu_points(),
{
    let curve = vec![
        CurvePoint { temp_c: 40, rpm: 3500 },
        CurvePoint { temp_c: 55, rpm: 3800 },
        CurvePoint { temp_c: 70, rpm: 4400 },
        CurvePoint { temp_c: 85, rpm: 5000 },
    ];
    assert(curve@ =~= default_cpu_points());
    curve
}

/// The curve that the graphics processor starts out with.
pub fn default_gpu_curve() -> (curve: Vec<CurvePoint>)
    ensures
        curve@ == default_gpu_points(),
{
    let curve = vec![
        CurvePoint { temp_c: 45, rpm: 3500 },
        CurvePoint { temp_c: 60, rpm: 3800 },
        CurvePoint { temp_c: 75, rpm: 4400 },
        CurvePoint { temp_c: 85, rpm: 5000 },
    ];
    assert(curve@ =~= default_gpu_points());
    curve
}

/// The fan curves of the two sensors.
#[derive(Debug)]
pub struct FanCurve {
    pub cpu: Vec<CurvePoint>,
    pub gpu: Vec<CurvePoint>,
}

impl Default for FanCurve {
    /// Two curves without points.
    fn default() -> (curve: FanCurve)
        ensures
            curve.cpu@.len() == 0,
            curve.gpu@.len() == 0,
    {
        FanCurve { cpu: Vec::new(), gpu: Vec::new() }
    }
}

impl Clone for FanCurve {
    fn clone(&self) -> (copy: FanCurve)
        ensures
            copy.cpu@ == self.cpu@,
            copy.gpu@ == self.gpu@,
    {
        let copy = FanCurve { cpu: self.cpu.clone(), gpu: self.gpu.clone() };
        assert(copy.cpu@ =~= self.cpu@);
        assert(copy.gpu@ =~= self.gpu@);
        copy
    }
}

/// The settings for one source of power.
#[derive(Debug)]
pub struct PowerConfig {
    pub power_mode: u8,
    pub cpu_boost: u8,
    pub gpu_boost: u8,
    pub fan_rpm: i32,
    pub brightness: u8,
    pub logo_state: u8,
    /// Turns the keyboard light off while the screen is blank.
    pub screensaver: bool,
    pub idle: u32,
    pub fan_mode: FanMode,
    pub fan_curve: FanCurve,
}

impl PowerConfig {
    /// The settings that a source of power starts out with.
    pub open spec fn is_initial(self) -> bool {
        &&& self.power_mode == 0
        &&& self.cpu_boost == 1
        &&& self.gpu_boost == 0
        &&& self.fan_rpm == 0
        &&& self.brightness == 128
        &&& self.logo_state == 0
        &&& !self.screensaver
        &&& self.idle == 0
        &&& self.fan_mode == FanMode::Curve
        &&& self.fan_curve.cpu@ == default_cpu_points()
        &&& self.fan_curve.gpu@ == default_gpu_points()
    }

    /// The settings that a source of power starts out with.
    pub fn new() -> (config: PowerConfig)
        ensures
            config.is_initial(),
    {
        PowerConfig {
            power_mode: 0,
            cpu_boost: 1,
            gpu_boost: 0,
            fan_rpm: 0,
            brightness: 128,
            logo_state: 0,
            screensaver: false,
            idle: 0,
            fan_mode: FanMode::Curve,
            fan_curve: FanCurve { cpu: default_cpu_curve(), gpu: default_gpu_curve() },
        }
    }

    /// `self` is `read` with each curve that has no points replaced by the default one.
    pub open spec fn completes(self, read: PowerConfig) -> bool {
        &&& self.power_mode == read.power_mode
        &&& self.cpu_boost == read.cpu_boost
        &&& self.gpu_boost == read.gpu_boost
        &&& self.fan_rpm == read.fan_rpm
        &&& self.brightness == read.brightness
        &&& self.logo_state == read.logo_state
        &&& self.screensaver == read.screensaver
        &&& self.idle == read.idle
        &&& self.fan_mode == read.fan_mode
        &&& self.fan_curve.cpu@ == if read.fan_curve.cpu@.len() == 0 {
            default_cpu_points()
        } else {
            read.fan_curve.cpu@
        }
        &&& self.fan_curve.gpu@ == if read.fan_curve.gpu@.len() == 0 {
            default_gpu_points()
        } else {
            read.fan_curve.gpu@
        }
    }
}

impl Clone for PowerConfig {
    fn clone(&self) -> (copy: PowerConfig)
        ensures
            copy.power_mode == self.power_mode,
            copy.cpu_boost == self.cpu_boost,
            copy.gpu_boost == self.gpu_boost,
            copy.fan_rpm == self.fan_rpm,
            copy.brightness == self.brightness,
            copy.logo_state == self.logo_state,
            copy.screensaver == self.screensaver,
            copy.idle == self.idle,
            copy.fan_mode == self.fan_mode,
            copy.fan_curve.cpu@ == self.fan_curve.cpu@,
            copy.fan_curve.gpu@ == self.fan_curve.gpu@,
    {
        PowerConfig {
            power_mode: self.power_mode,
            cpu_boost: self.cpu_boost,
            gpu_boost: self.gpu_boost,
            fan_rpm: self.fan_rpm,
            brightness: self.brightness,
            logo_state: self.logo_state,
            screensaver: self.screensaver,
            idle: self.idle,
            fan_mode: self.fan_mode,
            fan_curve: self.fan_curve.clone(),
        }
    }
}

/// All settings.
#[derive(Debug)]
pub struct Configuration {
    /// One set for each source of power.
    pub power: [PowerConfig; 2],
    /// Keeps the light settings of both sources of power the same.
    pub sync: bool,
    /// No light below this percentage of battery.
    pub no_light: Binary64,
    pub standard_effect: u8,
    pub standard_effect_params: Vec<u8>,
}

impl Configuration {
    /// The settings of a first start.
    pub fn new() -> (config: Configuration)
        ensures
            config.power@[0].is_initial(),
            config.power@[1].is_initial(),
            !config.sync,
            config.no_light == (Binary64 { bits: 0 }),
            config.standard_effect == 0,
            config.standard_effect_params@.len() == 0,
    {
        Configuration {
            power: [PowerConfig::new(), PowerConfig::new()],
            sync: false,
            no_light: Binary64 { bits: 0 },
            standard_effect: 0,
            standard_effect_params: Vec::new(),
        }
    }

    /// Completes the settings that a file held: a curve without points is replaced by the
    /// default one.
    pub fn read_from_config(read: Configuration) -> (config: Configuration)
        ensures
            config.power@[0].completes(read.power@[0]),
            config.power@[1].completes(read.power@[1]),
            config.sync == read.sync,
            config.no_light == read.no_light,
            config.standard_effect == read.standard_effect,
            config.standard_effect_params@ == read.standard_effect_params@,
    {
        let mut config = read;
        let mut i: usize = 0;
        while i < 2
            invariant
                i <= 2,
                forall|j: int| 0 <= j < i ==> config.power@[j].completes(#[trigger] read.power@[j]),
                forall|j: int| i <= j < 2 ==> config.power@[j] == #[trigger] read.power@[j],
                config.sync == read.sync,
                config.no_light == read.no_light,
                config.standard_effect == read.standard_effect,
                config.standard_effect_params@ == read.standard_effect_params@,
            decreases 2 - i,
        {
            if config.power[i].fan_curve.cpu.len() == 0 {
                config.power[i].fan_curve.cpu = default_cpu_curve();
            }
            if config.power[i].fan_curve.gpu.len() == 0 {
                config.power[i].fan_curve.gpu = default_gpu_curve();
            }
            i = i + 1;
        }
        config
    }
}

/// A JSON value, of which nothing is known here but that it is carried from one call to
/// the next.
#[verifier::external_type_specification]
#[verifier::external_body]
pub struct ExValue(serde_json::Value);

/// What was wrong with a JSON text or value.
#[verifier::external_type_specification]
#[verifier::external_body]
pub struct ExJsonError(serde_json::Error);

/// The indented JSON text of a value, where it has one.
pub uninterp spec fn pretty_json(value: serde_json::Value) -> Option<Seq<char>>;

/// The value of a JSON text; none where the text is not JSON.
pub uninterp spec fn json_value(text: Seq<char>) -> Option<serde_json::Value>;

/// Calls `serde_json::to_string_pretty` on a `serde_json::Value`. Claimed of it: whether it
/// succeeds, and the text it then returns, depend on the value alone. The value is walked
/// by recursion, so one nested too deep for the stack is beyond it.
#[verifier::external_body]
fn to_string_pretty(value: &serde_json::Value) -> (text: Result<String, serde_json::Error>)
    ensures
        match text {
            Ok(t) => pretty_json(*value) == Some(t@),
            Err(_) => pretty_json(*value) is None,
        },
{
    serde_json::to_string_pretty(value)
}

/// Calls `serde_json::from_str` for a `serde_json::Value`. Claimed of it: whether it
/// succeeds, and the value it then returns, depend on the text alone.
#[verifier::external_body]
fn from_str(text: &str) -> (value: Result<serde_json::Value, serde_json::Error>)
    ensures
        match value {
            Ok(v) => json_value(text@) == Some(v),
            Err(_) => json_value(text@) is None,
        },
{
    serde_json::from_str(text)
}

/// Why settings or effects could not be stored or read back.
#[derive(Debug)]
pub enum StoreError {
    /// The JSON library refused the value or the text.
    Json(serde_json::Error),
}

impl Configuration {
    /// The text to be saved for the keyboard effects `json`.
    pub fn write_effects_save(json: &serde_json::Value) -> (text: Result<String, StoreError>)
        ensures
            match text {
                Ok(t) => pretty_json(*json) == Some(t@),
                Err(_) => pretty_json(*json) is None,
            },
    {
        match to_string_pretty(json) {
            Ok(text) => Ok(text),
            Err(error) => Err(StoreError::Json(error)),
        }
    }

    /// The keyboard effects in a text that was saved.
    pub fn read_effects_file(text: &str) -> (json: Result<serde_json::Value, StoreError>)
        ensures
            match json {
                Ok(v) => json_value(text@) == Some(v),
                Err(_) => json_value(text@) is None,
            },
    {
        match from_str(text) {
            Ok(value) => Ok(value),
            Err(error) => Err(StoreError::Json(error)),
        }
    }
}

/// The file that holds the settings of the user whose home directory is `home`.
pub fn settings_file(home: &str) -> (path: String)
    ensures
        path@ == home@ + "/.local/share/razercontrol/daemon.json"@,
{
    let mut path = home.to_owned();
    path.append("/.local/share/razercontrol/daemon.json");
    path
}

/// The file that holds the keyboard effects of the user whose home directory is `home`.
pub fn effects_file(home: &str) -> (path: String)
    ensures
        path@ == home@ + "/.local/share/razercontrol/effects.json"@,
{
    let mut path = home.to_owned();
    path.append("/.local/share/razercontrol/effects.json");
    path
}

/// Completing settings a second time changes nothing, and leaves no curve without points.
pub proof fn law_completed_once(read: PowerConfig, once: PowerConfig, twice: PowerConfig)
    requires
        once.completes(read),
        twice.completes(once),
    ensures
        once.fan_curve.cpu@.len() > 0,
        once.fan_curve.gpu@.len() > 0,
        twice.fan_curve.cpu@ == once.fan_curve.cpu@,
        twice.fan_curve.gpu@ == once.fan_curve.gpu@,
        once.completes(once),
{
}

/// The settings of a first start need no completing.
pub proof fn law_initial_is_complete(config: PowerConfig)
    requires
        config.is_initial(),
    ensures
        config.completes(config),
{
}

/// A curve that was read without points becomes the default one of its own sensor, whatever
/// the curve of the other sensor; a curve with points stays as it was read.
pub proof fn law_missing_curves_filled(read: PowerConfig, config: PowerConfig)
    requires
        config.completes(read),
    ensures
        read.fan_curve.cpu@.len() == 0 ==> config.fan_curve.cpu@ == default_cpu_points(),
        read.fan_curve.gpu@.len() == 0 ==> config.fan_curve.gpu@ == default_gpu_points(),
        read.fan_curve.cpu@.len() > 0 ==> config.fan_curve.cpu@ == read.fan_curve.cpu@,
        read.fan_curve.gpu@.len() > 0 ==> config.fan_curve.gpu@ == read.fan_curve.gpu@,
{
}

/// Each curve that is loaded depends on the one that was read for the same sensor alone.
pub proof fn law_curves_loaded_apart(
    read: PowerConfig,
    config: PowerConfig,
    other_read: PowerConfig,
    other_config: PowerConfig,
)
    requires
        config.completes(read),
        other_config.completes(other_read),
    ensures
        read.fan_curve.cpu@ == other_read.fan_curve.cpu@ ==> config.fan_curve.cpu@
            == other_config.fan_curve.cpu@,
        read.fan_curve.gpu@ == other_read.fan_curve.gpu@ ==> config.fan_curve.gpu@
            == other_config.fan_curve.gpu@,
{
}

/// Loading leaves everything but the curves as it was read.
pub proof fn law_other_settings_kept(read: PowerConfig, config: PowerConfig)
    requires
        config.completes(read),
    ensures
        config.power_mode == read.power_mode,
        config.cpu_boost == read.cpu_boost,
        config.gpu_boost == read.gpu_boost,
        config.fan_rpm == read.fan_rpm,
        config.brightness == read.brightness,
        config.logo_state == read.logo_state,
        config.screensaver == read.screensaver,
        config.idle == read.idle,
        config.fan_mode == read.fan_mode,
{
}

/// Settings that were saved without curves, and are those of a first start otherwise, load
/// as the settings of a first start.
pub proof fn law_first_start_loads(read: PowerConfig, config: PowerConfig, first: PowerConfig)
    requires
        first.is_initial(),
        config.completes(read),
        read.power_mode == first.power_mode,
        read.cpu_boost == first.cpu_boost,
        read.gpu_boost == first.gpu_boost,
        read.fan_rpm == first.fan_rpm,
        read.brightness == first.brightness,
        read.logo_state == first.logo_state,
        read.screensaver == first.screensaver,
        read.idle == first.idle,
        read.fan_mode == first.fan_mode,
        read.fan_curve.cpu@.len() == 0,
        read.fan_curve.gpu@.len() == 0,
    ensures
        config.is_initial(),
        config.fan_curve.cpu@ == first.fan_curve.cpu@,
        config.fan_curve.gpu@ == first.fan_curve.gpu@,
{
}

/// Both default curves lead in four points from 3500 turns to 5000 at 85 degrees. The
/// graphics processor's is never the faster one: it gets to a speed at the same temperature
/// or five degrees later.
pub proof fn law_default_curves_compared(i: int)
    requires
        0 <= i < 4,
    ensures
        default_cpu_points().len() == 4,
        default_gpu_points().len() == 4,
        default_cpu_points()[0] == (CurvePoint { temp_c: 40, rpm: 3500 }),
        default_cpu_points()[3] == (CurvePoint { temp_c: 85, rpm: 5000 }),
        default_gpu_points()[i].rpm == default_cpu_points()[i].rpm,
        default_gpu_points()[i].temp_c == default_cpu_points()[i].temp_c + if i < 3 {
            5int
        } else {
            0
        },
        i < 3 ==> default_cpu_points()[i + 1].temp_c == default_cpu_points()[i].temp_c + 15,
        1 <= i < 3 ==> default_cpu_points()[i + 1].rpm == default_cpu_points()[i].rpm + 600,
{
}

}
