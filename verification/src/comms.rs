//! What the daemon and its clients tell each other about the fans.

use vstd::prelude::*;

verus! {

/// One knot of a fan curve: at `temp_c` degrees the fan turns `rpm` times a minute.
#[derive(Clone, Copy, Debug, PartialEq, Eq, Structural)]
pub struct CurvePoint {
    pub temp_c: u8,
    pub rpm: u16,
}

/// Who decides how fast the fans turn.
#[derive(Clone, Copy, Debug, PartialEq, Eq, Structural)]
pub enum FanMode {
    /// The firmware.
    Auto,
    /// A fixed speed.
    Manual,
    /// The fan curves.
    Curve,
}

/// A source of temperatures that has a fan curve.
#[derive(Clone, Copy, Debug, PartialEq, Eq, Structural)]
pub enum Sensor {
    Cpu,
    Gpu,
}

}
