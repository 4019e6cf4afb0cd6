//! The loop that turns temperatures into fan speeds, one tick at a time.

use vstd::prelude::*;
use crate::binary32::Binary32;
use crate::comms::{CurvePoint, FanMode};
use crate::config::FanCurve;
use crate::thermal;

verus! {

/// How often the curves are evaluated, in milliseconds.
pub const TICK_MILLIS: u64 = 1000;

/// The hardware takes whole hundreds only.
pub const RPM_BUCKET: u16 = 100;

/// The most that a speed may change in one tick, so that the fans do not jolt.
pub const RAMP_LIMIT: u16 = 300;

/// The largest speed that can be rounded to a whole hundred.
pub const MAX_BUCKETED: u16 = 65485;

/// The latest readings, for clients that ask for them.
#[derive(Clone, Copy, Debug, PartialEq, Eq, Structural)]
pub struct TempSnapshot {
    pub cpu: Option<Binary32>,
    pub gpu: Option<Binary32>,
    pub target_rpm: u16,
    /// The speed that the embedded controller reports; nothing before the first report.
    pub current_rpm: Option<u16>,
    /// Power of the processor package in watts.
    pub pkg_watts: Option<Binary32>,
    /// Power of the graphics processor in watts.
    pub gpu_watts: Option<Binary32>,
    /// Lasting power limit of the processor in watts.
    pub pkg_pl1_w: Option<u32>,
    /// Short-time power limit of the processor in watts.
    pub pkg_pl2_w: Option<u32>,
    /// Power limit of the graphics processor in watts.
    pub gpu_tgp_w: Option<u32>,
}

impl Default for TempSnapshot {
    /// No reading yet.
    fn default() -> (snapshot: TempSnapshot)
        ensures
            snapshot == (TempSnapshot {
                cpu: None,
                gpu: None,
                target_rpm: 0,
                current_rpm: None,
                pkg_watts: None,
                gpu_watts: None,
                pkg_pl1_w: None,
                pkg_pl2_w: None,
                gpu_tgp_w: None,
            }),
    {
        TempSnapshot {
            cpu: None,
            gpu: None,
            target_rpm: 0,
            current_rpm: None,
            pkg_watts: None,
            gpu_watts: None,
            pkg_pl1_w: None,
            pkg_pl2_w: None,
            gpu_tgp_w: None,
        }
    }
}

/// What the sensors say in one tick.
#[derive(Clone, Copy, Debug, PartialEq, Eq, Structural)]
pub struct Readings {
    pub cpu: Option<Binary32>,
    pub gpu: Option<Binary32>,
    pub pkg_watts: Option<Binary32>,
    pub gpu_watts: Option<Binary32>,
    pub pkg_pl1_w: Option<u32>,
    pub pkg_pl2_w: Option<u32>,
    pub gpu_tgp_w: Option<u32>,
}

/// What the device manager knows for the source of power in use.
#[derive(Debug)]
pub struct DeviceState {
    pub mode: FanMode,
    pub cpu: Vec<CurvePoint>,
    pub gpu: Vec<CurvePoint>,
    /// The speeds of the device, where it is known.
    pub fan_range: Option<(u16, u16)>,
}

/// What a tick works with.
#[derive(Debug)]
pub struct StateSnapshot {
    pub mode: FanMode,
    pub curve: FanCurve,
    pub fan_range: (u16, u16),
}

/// What a tick works with: nothing where no source of power is in use or the device does
/// not say how fast its fans can turn.
pub fn snapshot_state(device: Option<DeviceState>) -> (snapshot: Option<StateSnapshot>)
    ensures
        match (device, snapshot) {
            (Some(d), Some(s)) => {
                &&& s.mode == d.mode
                &&& s.curve.cpu@ == d.cpu@
                &&& s.curve.gpu@ == d.gpu@
                &&& d.fan_range == Some(s.fan_range)
            },
            (Some(d), None) => d.fan_range is None,
            (None, s) => s is None,
        },
{
    match device {
        Some(device) => match device.fan_range {
            Some(fan_range) => Some(
                StateSnapshot {
                    mode: device.mode,
                    curve: FanCurve { cpu: device.cpu, gpu: device.gpu },
                    fan_range,
                },
            ),
            None => None,
        },
        None => None,
    }
}

/// What one sensor asks for: the slowest speed where it does not say anything.
pub open spec fn sensor_target(
    curve: Seq<CurvePoint>,
    temp: Option<Binary32>,
    fan_range: (u16, u16),
) -> int {
    match temp {
        Some(t) => thermal::target_speed(curve, t.number(), fan_range),
        None => fan_range.0 as int,
    }
}

/// What the two sensors ask for together: the faster of the two speeds.
pub open spec fn joint_target(
    curve: FanCurve,
    cpu_temp: Option<Binary32>,
    gpu_temp: Option<Binary32>,
    fan_range: (u16, u16),
) -> int {
    let cpu = sensor_target(curve.cpu@, cpu_temp, fan_range);
    let gpu = sensor_target(curve.gpu@, gpu_temp, fan_range);
    if cpu >= gpu {
        cpu
    } else {
        gpu
    }
}

/// The speed that the curves ask for: the faster of what the two sensors ask for. A sensor
/// without a reading asks for the slowest speed of the device.
pub fn compute_target(
    curve: &FanCurve,
    cpu_temp: Option<Binary32>,
    gpu_temp: Option<Binary32>,
    fan_range: (u16, u16),
) -> (target: u16)
    ensures
        target == joint_target(*curve, cpu_temp, gpu_temp, fan_range),
{
    let cpu: u16 = match cpu_temp {
        Some(t) => thermal::eval(curve.cpu.as_slice(), t, fan_range),
        None => fan_range.0,
    };
    let gpu: u16 = match gpu_temp {
        Some(t) => thermal::eval(curve.gpu.as_slice(), t, fan_range),
        None => fan_range.0,
    };
    if cpu >= gpu {
        cpu
    } else {
        gpu
    }
}

/// `target`, but no farther than the ramp limit from the speed that was written last.
pub open spec fn ramped(last: Option<u16>, target: int) -> int {
    match last {
        None => target,
        Some(prev) => if target > prev + RAMP_LIMIT {
            prev + RAMP_LIMIT
        } else if target < prev - RAMP_LIMIT {
            prev - RAMP_LIMIT
        } else {
            target
        },
    }
}

/// Brings `target` to within the ramp limit of the speed that was written last.
pub fn ramp_limit(last: Option<u16>, target: u16) -> (rpm: u16)
    ensures
        rpm == ramped(last, target as int),
{
    match last {
        None => target,
        Some(prev) => if target > prev {
            let most: u16 = prev.saturating_add(RAMP_LIMIT);
            if target < most {
                target
            } else {
                most
            }
        } else {
            let least: u16 = prev.saturating_sub(RAMP_LIMIT);
            if target > least {
                target
            } else {
                least
            }
        },
    }
}

/// The whole hundred nearest to `rpm`; of two equally near ones, the larger.
pub open spec fn nearest_hundred(rpm: int) -> int {
    (rpm + 50) / 100 * 100
}

/// Rounds a speed to what the hardware can be told.
pub fn bucket(rpm: u16) -> (bucketed: u16)
    requires
        rpm <= MAX_BUCKETED,
    ensures
        bucketed == nearest_hundred(rpm as int),
{
    ((rpm + RPM_BUCKET / 2) / RPM_BUCKET) * RPM_BUCKET
}

/// How far a tick has come.
#[derive(Debug)]
pub enum Phase {
    /// Between two ticks.
    Waiting,
    /// The state of the device was asked for.
    Asking,
    /// The sensors are being read.
    Sensing(StateSnapshot),
    /// The device is being reserved, to be told the speed if there is one.
    Reserving(Option<u16>),
    /// The mode of the fans is being looked up again, in case a client has changed it.
    Checking(u16),
    /// The device is being told the speed.
    Writing(u16),
    /// The speed of the fans is being sampled.
    Sampling,
}

/// What happens to the controller.
#[derive(Debug)]
pub enum TickEvent {
    /// It is time for a tick.
    Timer,
    /// The state of the device, or that there is none.
    State(Option<StateSnapshot>),
    /// What the sensors say, or that they cannot be used.
    Sensors(Option<Readings>),
    /// Whether the device could be reserved.
    Reserved(bool),
    /// The mode of the fans, or that no source of power is in use.
    Mode(Option<FanMode>),
    /// Whether the device has taken the speed.
    Written(bool),
    /// The speed that the device reports, or that no source of power is in use.
    Sampled(Option<i32>),
}

/// What the controller wants done next.
#[derive(Clone, Copy, Debug, PartialEq, Eq, Structural)]
pub enum TickAction {
    /// Nothing before the next tick.
    Wait,
    /// Ask for the state of the device.
    AskState,
    /// Read the sensors.
    ReadSensors,
    /// Publish the readings and reserve the device.
    ReserveDevice,
    /// Look the mode of the fans up.
    CheckMode,
    /// Tell the device this speed.
    WriteRpm(u16),
    /// Sample the speed of the fans.
    SampleRpm,
}

/// The state of the fan controller.
#[derive(Debug)]
pub struct FanController {
    /// The latest readings.
    pub cache: TempSnapshot,
    /// The speed that the device has taken last.
    pub last_written: Option<u16>,
    pub phase: Phase,
}

/// A speed that may follow on `last`: a whole hundred within the ramp limit.
pub open spec fn may_follow(last: Option<u16>, rpm: u16) -> bool {
    &&& rpm % RPM_BUCKET == 0
    &&& last matches Some(prev) ==> prev - RAMP_LIMIT <= rpm <= prev + RAMP_LIMIT
}

/// The speed that the curves ask for; zero where they are not in charge.
pub open spec fn tick_target(state: StateSnapshot, readings: Readings) -> int {
    if state.mode == FanMode::Curve {
        joint_target(state.curve, readings.cpu, readings.gpu, state.fan_range)
    } else {
        0
    }
}

/// `after` holds the new readings and target, and what the fans were last seen to do.
pub open spec fn refreshed(
    after: TempSnapshot,
    before: TempSnapshot,
    readings: Readings,
    target: int,
) -> bool {
    &&& after.cpu == readings.cpu
    &&& after.gpu == readings.gpu
    &&& after.target_rpm == target
    &&& after.current_rpm == before.current_rpm
    &&& after.pkg_watts == readings.pkg_watts
    &&& after.gpu_watts == readings.gpu_watts
    &&& after.pkg_pl1_w == readings.pkg_pl1_w
    &&& after.pkg_pl2_w == readings.pkg_pl2_w
    &&& after.gpu_tgp_w == readings.gpu_tgp_w
}

/// `after` is `before` but for the speed that the fans were seen to have.
pub open spec fn sampled(after: TempSnapshot, before: TempSnapshot, rpm: Option<u16>) -> bool {
    after == (TempSnapshot { current_rpm: rpm, ..before })
}

impl FanController {
    /// What was written, or is about to be, is a whole hundred; what is about to be written
    /// is within the ramp limit of what was.
    pub open spec fn wf(self) -> bool {
        &&& self.last_written matches Some(rpm) ==> rpm % RPM_BUCKET == 0
        &&& match self.phase {
            Phase::Reserving(Some(rpm)) => may_follow(self.last_written, rpm),
            Phase::Checking(rpm) => may_follow(self.last_written, rpm),
            Phase::Writing(rpm) => may_follow(self.last_written, rpm) && self.last_written != Some(
                rpm,
            ),
            _ => true,
        }
    }

    /// Whether `event` is what the phase waits for, and the speed that follows from it can
    /// be rounded to a whole hundred.
    pub open spec fn accepts(self, event: TickEvent) -> bool {
        match (self.phase, event) {
            (Phase::Waiting, TickEvent::Timer) => true,
            (Phase::Asking, TickEvent::State(_)) => true,
            (Phase::Sensing(state), TickEvent::Sensors(readings)) => {
                state.mode == FanMode::Curve && readings is Some ==> ramped(
                    self.last_written,
                    tick_target(state, readings->0),
                ) <= MAX_BUCKETED
            },
            (Phase::Reserving(_), TickEvent::Reserved(_)) => true,
            (Phase::Checking(_), TickEvent::Mode(_)) => true,
            (Phase::Writing(_), TickEvent::Written(_)) => true,
            (Phase::Sampling, TickEvent::Sampled(_)) => true,
            _ => false,
        }
    }

    /// `after` and `action` are what `event` leads to.
    pub open spec fn leads_to(
        self,
        event: TickEvent,
        after: FanController,
        action: TickAction,
    ) -> bool {
        match (self.phase, event) {
            (Phase::Waiting, TickEvent::Timer) => {
                &&& action == TickAction::AskState
                &&& after == (FanController { phase: Phase::Asking, ..self })
            },
            (Phase::Asking, TickEvent::State(None)) => {
                &&& action == TickAction::Wait
                &&& after == (FanController { phase: Phase::Waiting, ..self })
            },
            (Phase::Asking, TickEvent::State(Some(state))) => {
                &&& action == TickAction::ReadSensors
                &&& after == (FanController { phase: Phase::Sensing(state), ..self })
            },
            (Phase::Sensing(_), TickEvent::Sensors(None)) => {
                &&& action == TickAction::Wait
                &&& after == (FanController { phase: Phase::Waiting, ..self })
            },
            (Phase::Sensing(state), TickEvent::Sensors(Some(readings))) => {
                let target = tick_target(state, readings);
                &&& action == TickAction::ReserveDevice
                &&& after.last_written == self.last_written
                &&& refreshed(after.cache, self.cache, readings, target)
                &&& if state.mode == FanMode::Curve {
                    &&& after.phase matches Phase::Reserving(Some(rpm))
                    &&& rpm == nearest_hundred(ramped(self.last_written, target))
                } else {
                    after.phase == Phase::Reserving(None)
                }
            },
            (Phase::Reserving(_), TickEvent::Reserved(false)) => {
                &&& action == TickAction::Wait
                &&& after == (FanController { phase: Phase::Waiting, ..self })
            },
            (Phase::Reserving(Some(rpm)), TickEvent::Reserved(true)) => {
                &&& action == TickAction::CheckMode
                &&& after == (FanController { phase: Phase::Checking(rpm), ..self })
            },
            (Phase::Reserving(None), TickEvent::Reserved(true)) => {
                &&& action == TickAction::SampleRpm
                &&& after == (FanController { phase: Phase::Sampling, ..self })
            },
            (Phase::Checking(rpm), TickEvent::Mode(mode)) => {
                if mode == Some(FanMode::Curve) && self.last_written != Some(rpm) {
                    &&& action == TickAction::WriteRpm(rpm)
                    &&& after == (FanController { phase: Phase::Writing(rpm), ..self })
                } else {
                    &&& action == TickAction::SampleRpm
                    &&& after == (FanController { phase: Phase::Sampling, ..self })
                }
            },
            (Phase::Writing(rpm), TickEvent::Written(taken)) => {
                &&& action == TickAction::SampleRpm
                &&& after.phase == Phase::Sampling
                &&& after.cache == self.cache
                &&& after.last_written == if taken {
                    Some(rpm)
                } else {
                    self.last_written
                }
            },
            (Phase::Sampling, TickEvent::Sampled(rpm)) => {
                &&& action == TickAction::Wait
                &&& after.phase == Phase::Waiting
                &&& after.last_written == self.last_written
                &&& match rpm {
                    None => after.cache == self.cache,
                    Some(r) => sampled(
                        after.cache,
                        self.cache,
                        if r >= 0 {
                            Some((r % 65536) as u16)
                        } else {
                            None
                        },
                    ),
                }
            },
            _ => false,
        }
    }
}

/// Ramping from a whole hundred and rounding keeps within the ramp limit.
proof fn lemma_may_follow(last: Option<u16>, target: int, rpm: u16)
    requires
        last matches Some(prev) ==> prev % RPM_BUCKET == 0,
        target >= 0,
        rpm == nearest_hundred(ramped(last, target)),
    ensures
        may_follow(last, rpm),
{
    assert(rpm % 100 == 0);
}

impl FanController {
    /// A controller that has seen and written nothing yet.
    pub fn new() -> (controller: FanController)
        ensures
            controller.wf(),
            controller.phase == Phase::Waiting,
            controller.last_written is None,
            controller.cache == (TempSnapshot {
                cpu: None,
                gpu: None,
                target_rpm: 0,
                current_rpm: None,
                pkg_watts: None,
                gpu_watts: None,
                pkg_pl1_w: None,
                pkg_pl2_w: None,
                gpu_tgp_w: None,
            }),
    {
        FanController {
            cache: TempSnapshot::default(),
            last_written: None,
            phase: Phase::Waiting,
        }
    }

    /// The speed that the curves ask for; zero where they are not in charge.
    fn target(state: &StateSnapshot, readings: &Readings) -> (target: u16)
        ensures
            target == tick_target(*state, *readings),
    {
        if state.mode == FanMode::Curve {
            compute_target(&state.curve, readings.cpu, readings.gpu, state.fan_range)
        } else {
            0
        }
    }

    /// Whether `event` is what the phase waits for, and the speed that follows from it can
    /// be rounded to a whole hundred.
    pub fn is_acceptable(&self, event: &TickEvent) -> (answer: bool)
        ensures
            answer == self.accepts(*event),
    {
        match (&self.phase, event) {
            (Phase::Waiting, TickEvent::Timer) => true,
            (Phase::Asking, TickEvent::State(_)) => true,
            (Phase::Sensing(state), TickEvent::Sensors(readings)) => match readings {
                Some(readings) => {
                    state.mode != FanMode::Curve || ramp_limit(
                        self.last_written,
                        Self::target(state, readings),
                    ) <= MAX_BUCKETED
                },
                None => true,
            },
            (Phase::Reserving(_), TickEvent::Reserved(_)) => true,
            (Phase::Checking(_), TickEvent::Mode(_)) => true,
            (Phase::Writing(_), TickEvent::Written(_)) => true,
            (Phase::Sampling, TickEvent::Sampled(_)) => true,
            _ => false,
        }
    }

    /// Takes the controller through a tick, one event at a time.
    pub fn tick(&mut self, event: TickEvent) -> (action: TickAction)
        requires
            old(self).wf(),
            old(self).accepts(event),
        ensures
            final(self).wf(),
            old(self).leads_to(event, *final(self), action),
            action matches TickAction::WriteRpm(rpm) ==> may_follow(old(self).last_written, rpm)
                && old(self).last_written != Some(rpm),
    {
        match event {
            TickEvent::Timer => {
                self.phase = Phase::Asking;
                TickAction::AskState
            },
            TickEvent::State(state) => match state {
                Some(state) => {
                    self.phase = Phase::Sensing(state);
                    TickAction::ReadSensors
                },
                None => {
                    self.phase = Phase::Waiting;
                    TickAction::Wait
                },
            },
            TickEvent::Sensors(readings) => match readings {
                Some(readings) => self.evaluate(readings),
                None => {
                    self.phase = Phase::Waiting;
                    TickAction::Wait
                },
            },
            TickEvent::Reserved(reserved) => {
                let speed: Option<u16> = match &self.phase {
                    Phase::Reserving(speed) => *speed,
                    _ => None,
                };
                if !reserved {
                    self.phase = Phase::Waiting;
                    TickAction::Wait
                } else if let Some(rpm) = speed {
                    self.phase = Phase::Checking(rpm);
                    TickAction::CheckMode
                } else {
                    self.phase = Phase::Sampling;
                    TickAction::SampleRpm
                }
            },
            TickEvent::Mode(mode) => {
                let speed: Option<u16> = match &self.phase {
                    Phase::Checking(rpm) => Some(*rpm),
                    _ => None,
                };
                let in_charge: bool = match mode {
                    Some(mode) => mode == FanMode::Curve,
                    None => false,
                };
                if let Some(rpm) = speed {
                    let known: bool = match self.last_written {
                        Some(last) => last == rpm,
                        None => false,
                    };
                    if in_charge && !known {
                        self.phase = Phase::Writing(rpm);
                        return TickAction::WriteRpm(rpm);
                    }
                }
                self.phase = Phase::Sampling;
                TickAction::SampleRpm
            },
            TickEvent::Written(taken) => {
                if taken {
                    if let Phase::Writing(rpm) = &self.phase {
                        self.last_written = Some(*rpm);
                    }
                }
                self.phase = Phase::Sampling;
                TickAction::SampleRpm
            },
            TickEvent::Sampled(rpm) => {
                if let Some(rpm) = rpm {
                    self.cache.current_rpm = if rpm >= 0 {
                        Some((rpm % 65536) as u16)
                    } else {
                        None
                    };
                }
                self.phase = Phase::Waiting;
                TickAction::Wait
            },
        }
    }

    /// Decides on a speed from what the sensors say, and keeps the readings.
    fn evaluate(&mut self, readings: Readings) -> (action: TickAction)
        requires
            old(self).wf(),
            old(self).phase is Sensing,
            old(self).accepts(TickEvent::Sensors(Some(readings))),
        ensures
            final(self).wf(),
            old(self).leads_to(TickEvent::Sensors(Some(readings)), *final(self), action),
            action == TickAction::ReserveDevice,
    {
        let (target, in_charge): (u16, bool) = match &self.phase {
            Phase::Sensing(state) => (
                Self::target(state, &readings),
                state.mode == FanMode::Curve,
            ),
            _ => (0, false),
        };
        self.cache = TempSnapshot {
            cpu: readings.cpu,
            gpu: readings.gpu,
            target_rpm: target,
            current_rpm: self.cache.current_rpm,
            pkg_watts: readings.pkg_watts,
            gpu_watts: readings.gpu_watts,
            pkg_pl1_w: readings.pkg_pl1_w,
            pkg_pl2_w: readings.pkg_pl2_w,
            gpu_tgp_w: readings.gpu_tgp_w,
        };
        let speed: Option<u16> = if in_charge {
            let rpm: u16 = bucket(ramp_limit(self.last_written, target));
            proof {
                lemma_may_follow(self.last_written, target as int, rpm);
            }
            Some(rpm)
        } else {
            None
        };
        self.phase = Phase::Reserving(speed);
        TickAction::ReserveDevice
    }
}

/// Rounding to a whole hundred moves a speed by at most fifty, upwards where two hundreds
/// are equally near; it keeps whole hundreds and the order of speeds.
pub proof fn law_bucket_is_nearest(rpm: int, faster: int)
    requires
        0 <= rpm <= faster,
    ensures
        nearest_hundred(rpm) % 100 == 0,
        rpm - 50 < nearest_hundred(rpm) <= rpm + 50,
        nearest_hundred(nearest_hundred(rpm)) == nearest_hundred(rpm),
        nearest_hundred(rpm) <= nearest_hundred(faster),
{
}

/// A ramp goes from the last speed towards the target and not past it; it reaches the target,
/// or what is left to go shrinks by the ramp limit.
pub proof fn law_ramp_approaches(prev: u16, target: u16)
    ensures
        ({
            let rpm = ramped(Some(prev), target as int);
            &&& prev - RAMP_LIMIT <= rpm <= prev + RAMP_LIMIT
            &&& prev <= target ==> prev <= rpm <= target
            &&& prev >= target ==> prev >= rpm >= target
            &&& rpm == target || target - rpm == target - prev - RAMP_LIMIT || rpm - target == prev
                - target - RAMP_LIMIT
            &&& 0 <= rpm <= u16::MAX
        }),
{
}

/// Once the target is reached, a tick with the same target finds the speed written already.
pub proof fn law_ramp_settles(target: u16, written: u16)
    requires
        written == nearest_hundred(target as int),
    ensures
        nearest_hundred(ramped(Some(written), target as int)) == written,
{
}

/// The curves never ask for less than either sensor does, and never leave the range of the
/// device.
pub proof fn law_joint_target_bounds(
    curve: FanCurve,
    cpu_temp: Option<Binary32>,
    gpu_temp: Option<Binary32>,
    fan_range: (u16, u16),
)
    requires
        fan_range.0 <= fan_range.1,
    ensures
        joint_target(curve, cpu_temp, gpu_temp, fan_range) >= sensor_target(
            curve.cpu@,
            cpu_temp,
            fan_range,
        ),
        joint_target(curve, cpu_temp, gpu_temp, fan_range) >= sensor_target(
            curve.gpu@,
            gpu_temp,
            fan_range,
        ),
        fan_range.0 <= joint_target(curve, cpu_temp, gpu_temp, fan_range) <= fan_range.1,
{
}

/// How many events of a tick lie behind a phase.
pub open spec fn progress(phase: Phase) -> int {
    match phase {
        Phase::Waiting => 0,
        Phase::Asking => 1,
        Phase::Sensing(_) => 2,
        Phase::Reserving(_) => 3,
        Phase::Checking(_) => 4,
        Phase::Writing(_) => 5,
        Phase::Sampling => 6,
    }
}

/// Every event brings a tick forward or ends it, and the controller waits exactly when it
/// has ended. A tick therefore takes at most seven events.
pub proof fn law_tick_ends(
    before: FanController,
    event: TickEvent,
    after: FanController,
    action: TickAction,
)
    requires
        before.leads_to(event, after, action),
    ensures
        after.phase is Waiting || progress(after.phase) > progress(before.phase),
        after.phase is Waiting <==> action == TickAction::Wait,
{
}

/// The device is told a speed only right after the curves were found to be in charge. What
/// was written last changes only when the device takes a speed, and then to that speed. The
/// readings change only when sensors were read or the fans were sampled.
pub proof fn law_tick_discipline(
    before: FanController,
    event: TickEvent,
    after: FanController,
    action: TickAction,
)
    requires
        before.leads_to(event, after, action),
    ensures
        action is WriteRpm ==> event == TickEvent::Mode(Some(FanMode::Curve)),
        after.last_written != before.last_written ==> event == TickEvent::Written(true)
            && before.phase == Phase::Writing(after.last_written->0),
        after.cache != before.cache ==> event is Sensors || event is Sampled,
{
}

/// Two speeds that the device takes one after the other differ by no more than the ramp
/// limit, and both are whole hundreds.
pub proof fn law_no_jolt(
    before: FanController,
    event: TickEvent,
    after: FanController,
    action: TickAction,
)
    requires
        before.wf(),
        before.leads_to(event, after, action),
    ensures
        after.last_written matches Some(new) ==> new % RPM_BUCKET == 0,
        before.last_written matches Some(old_rpm) ==> {
            &&& after.last_written matches Some(new)
            &&& old_rpm - RAMP_LIMIT <= new <= old_rpm + RAMP_LIMIT
        },
{
}

/// A tick in which the curves are in charge and everything goes well ends with the device
/// at the ramped and rounded target; the readings are those of the tick.
pub proof fn law_tick_in_charge(
    start: FanController,
    state: StateSnapshot,
    readings: Readings,
    sensed: FanController,
    reserved: FanController,
    checked: FanController,
    action: TickAction,
    written: FanController,
    last: TickAction,
)
    requires
        start.phase == Phase::Sensing(state),
        state.mode == FanMode::Curve,
        start.leads_to(TickEvent::Sensors(Some(readings)), sensed, TickAction::ReserveDevice),
        sensed.leads_to(TickEvent::Reserved(true), reserved, TickAction::CheckMode),
        reserved.leads_to(TickEvent::Mode(Some(FanMode::Curve)), checked, action),
        action is WriteRpm ==> checked.leads_to(TickEvent::Written(true), written, last),
        !(action is WriteRpm) ==> written == checked,
    ensures
        written.last_written == Some(
            nearest_hundred(ramped(start.last_written, tick_target(state, readings))) as u16,
        ),
        action is WriteRpm <==> start.last_written != written.last_written,
        refreshed(written.cache, start.cache, readings, tick_target(state, readings)),
        written.phase is Sampling,
{
}

/// A tick in which the curves are not in charge keeps the readings, with a target of zero,
/// and tells the device nothing.
pub proof fn law_tick_not_in_charge(
    start: FanController,
    state: StateSnapshot,
    readings: Readings,
    sensed: FanController,
    reserved: FanController,
    action: TickAction,
)
    requires
        start.phase == Phase::Sensing(state),
        state.mode != FanMode::Curve,
        start.leads_to(TickEvent::Sensors(Some(readings)), sensed, TickAction::ReserveDevice),
        sensed.leads_to(TickEvent::Reserved(true), reserved, action),
    ensures
        action == TickAction::SampleRpm,
        reserved.last_written == start.last_written,
        refreshed(reserved.cache, start.cache, readings, 0),
{
}

/// The speed that is written after `n` ticks with one target, from `written` on.
pub open spec fn after_ticks(written: u16, target: u16, n: nat) -> u16
    decreases n,
{
    if n == 0 {
        written
    } else {
        after_ticks(
            nearest_hundred(ramped(Some(written), target as int)) as u16,
            target,
            (n - 1) as nat,
        )
    }
}

/// Ticks with one target reach the rounded target, one tick for each ramp limit of the way.
pub proof fn law_ramp_converges(written: u16, target: u16, n: nat)
    requires
        written % RPM_BUCKET == 0,
        target <= MAX_BUCKETED,
        n >= 1,
        target - written <= RAMP_LIMIT * n,
        written - target <= RAMP_LIMIT * n,
    ensures
        after_ticks(written, target, n) == nearest_hundred(target as int),
    decreases n,
{
    let next = nearest_hundred(ramped(Some(written), target as int)) as u16;
    if n == 1 {
        assert(after_ticks(next, target, 0) == next);
    } else {
        assert(next % 100 == 0);
        law_ramp_converges(next, target, (n - 1) as nat);
    }
}

/// One tick more is a step from where the ticks before it have come.
proof fn lemma_after_ticks_step(written: u16, target: u16, n: nat)
    ensures
        after_ticks(written, target, n + 1) == nearest_hundred(
            ramped(Some(after_ticks(written, target, n)), target as int),
        ) as u16,
    decreases n,
{
    let next = nearest_hundred(ramped(Some(written), target as int)) as u16;
    if n == 0 {
        assert(after_ticks(next, target, 0) == next);
    } else {
        lemma_after_ticks_step(next, target, (n - 1) as nat);
    }
}

/// A tick in which the curves are in charge and nothing fails: the states of the controller
/// one after the other, and what it was told.
pub struct SmoothTick {
    pub start: FanController,
    pub asked: FanController,
    pub state: StateSnapshot,
    pub sensing: FanController,
    pub readings: Readings,
    pub sensed: FanController,
    pub checking: FanController,
    /// Where the controller stands once it knows whether to write.
    pub decided: FanController,
    /// What it wants done then.
    pub action: TickAction,
    pub sampling: FanController,
    pub sample: Option<i32>,
    pub end: FanController,
}

impl SmoothTick {
    /// The controller goes through the states, and the device takes what it is told.
    pub open spec fn happens(self) -> bool {
        &&& self.state.mode == FanMode::Curve
        &&& self.start.phase is Waiting
        &&& self.start.leads_to(TickEvent::Timer, self.asked, TickAction::AskState)
        &&& self.asked.leads_to(
            TickEvent::State(Some(self.state)),
            self.sensing,
            TickAction::ReadSensors,
        )
        &&& self.sensing.leads_to(
            TickEvent::Sensors(Some(self.readings)),
            self.sensed,
            TickAction::ReserveDevice,
        )
        &&& self.sensed.leads_to(TickEvent::Reserved(true), self.checking, TickAction::CheckMode)
        &&& self.checking.leads_to(
            TickEvent::Mode(Some(FanMode::Curve)),
            self.decided,
            self.action,
        )
        &&& if self.action is WriteRpm {
            self.decided.leads_to(TickEvent::Written(true), self.sampling, TickAction::SampleRpm)
        } else {
            self.sampling == self.decided
        }
        &&& self.sampling.leads_to(TickEvent::Sampled(self.sample), self.end, TickAction::Wait)
    }

    /// The speed that the curves ask for in this tick.
    pub open spec fn target(self) -> int {
        tick_target(self.state, self.readings)
    }
}

/// Ticks that follow on each other, all with one target.
pub open spec fn steady(ticks: Seq<SmoothTick>, target: u16) -> bool {
    &&& forall|i: int|
        0 <= i < ticks.len() ==> (#[trigger] ticks[i]).happens() && ticks[i].target() == target
    &&& forall|i: int, j: int|
        0 <= i && j == i + 1 && j < ticks.len() ==> (#[trigger] ticks[i]).end == (
        #[trigger] ticks[j]).start
}

/// A tick leaves the ramped and rounded target written, and writes only what is new.
proof fn lemma_smooth_tick(tick: SmoothTick)
    requires
        tick.happens(),
    ensures
        tick.end.last_written == Some(
            nearest_hundred(ramped(tick.start.last_written, tick.target())) as u16,
        ),
        tick.action is WriteRpm <==> tick.end.last_written != tick.start.last_written,
{
}

/// After `i` ticks with one target the ramp has come as far as `after_ticks` says.
proof fn lemma_steady(ticks: Seq<SmoothTick>, target: u16, written: u16, i: int)
    requires
        steady(ticks, target),
        0 <= i < ticks.len(),
        ticks[0].start.last_written == Some(written),
    ensures
        ticks[i].start.last_written == Some(after_ticks(written, target, i as nat)),
        ticks[i].end.last_written == Some(after_ticks(written, target, (i + 1) as nat)),
    decreases i,
{
    if i > 0 {
        lemma_steady(ticks, target, written, i - 1);
        assert(ticks[i - 1].end == ticks[i].start);
    }
    lemma_smooth_tick(ticks[i]);
    lemma_after_ticks_step(written, target, i as nat);
}

/// While the sensors ask for one speed, the controller brings the device to it: after `n`
/// ticks, one for each ramp limit of the way and at least one, the rounded target is
/// written, and every later tick leaves it so without writing to the device. Where nothing was
/// written before, the first tick is enough.
pub proof fn law_ticks_reach_target(ticks: Seq<SmoothTick>, target: u16, n: nat)
    requires
        steady(ticks, target),
        target <= MAX_BUCKETED,
        1 <= n <= ticks.len(),
        ticks[0].start.last_written matches Some(written) ==> {
            &&& written % RPM_BUCKET == 0
            &&& target - written <= RAMP_LIMIT * n
            &&& written - target <= RAMP_LIMIT * n
        },
    ensures
        forall|i: int|
            n - 1 <= i < ticks.len() ==> (#[trigger] ticks[i]).end.last_written == Some(
                nearest_hundred(target as int) as u16,
            ),
        forall|i: int| n <= i < ticks.len() ==> (#[trigger] ticks[i]).action == TickAction::SampleRpm,
{
    let goal = nearest_hundred(target as int) as u16;
    assert forall|i: int| n - 1 <= i < ticks.len() implies (#[trigger]
    ticks[i]).end.last_written == Some(goal) by {
        lemma_reached(ticks, target, n, i);
    }
    assert forall|i: int| n <= i < ticks.len() implies (#[trigger] ticks[i]).action
        == TickAction::SampleRpm by {
        assert(ticks[i - 1].end == ticks[i].start);
        lemma_smooth_tick(ticks[i]);
    }
}

/// From the tick `n` on the rounded target is written.
proof fn lemma_reached(ticks: Seq<SmoothTick>, target: u16, n: nat, i: int)
    requires
        steady(ticks, target),
        target <= MAX_BUCKETED,
        1 <= n,
        n - 1 <= i < ticks.len(),
        ticks[0].start.last_written matches Some(written) ==> {
            &&& written % RPM_BUCKET == 0
            &&& target - written <= RAMP_LIMIT * n
            &&& written - target <= RAMP_LIMIT * n
        },
    ensures
        ticks[i].end.last_written == Some(nearest_hundred(target as int) as u16),
    decreases i,
{
    match ticks[0].start.last_written {
        Some(written) => {
            lemma_steady(ticks, target, written, i);
            law_ramp_converges(written, target, (i + 1) as nat);
        },
        None => {
            lemma_smooth_tick(ticks[i]);
            if i > 0 {
                lemma_reached(ticks, target, 1, i - 1);
                assert(ticks[i - 1].end == ticks[i].start);
                law_ramp_settles(target, nearest_hundred(target as int) as u16);
            }
        },
    }
}

/// The target is what one of the two sensors asks for, and no less than what the other one
/// does. A sensor asks for what its curve gives at its reading, and for the slowest speed
/// where it has none.
pub proof fn law_faster_sensor_wins(
    curve: FanCurve,
    cpu_temp: Option<Binary32>,
    gpu_temp: Option<Binary32>,
    fan_range: (u16, u16),
)
    ensures
        ({
            let target = joint_target(curve, cpu_temp, gpu_temp, fan_range);
            let cpu = match cpu_temp {
                Some(t) => thermal::target_speed(curve.cpu@, t.number(), fan_range),
                None => fan_range.0 as int,
            };
            let gpu = match gpu_temp {
                Some(t) => thermal::target_speed(curve.gpu@, t.number(), fan_range),
                None => fan_range.0 as int,
            };
            &&& target == cpu || target == gpu
            &&& target >= cpu
            &&& target >= gpu
        }),
{
}

/// Exchanging the two sensors together with their curves makes no difference, and a sensor
/// without a reading does not show beside one with a reading.
pub proof fn law_sensors_alike(
    curve: FanCurve,
    exchanged: FanCurve,
    cpu_temp: Option<Binary32>,
    gpu_temp: Option<Binary32>,
    fan_range: (u16, u16),
)
    requires
        exchanged.cpu@ == curve.gpu@,
        exchanged.gpu@ == curve.cpu@,
    ensures
        joint_target(curve, cpu_temp, gpu_temp, fan_range) == joint_target(
            exchanged,
            gpu_temp,
            cpu_temp,
            fan_range,
        ),
        cpu_temp matches Some(t) ==> (fan_range.0 <= fan_range.1 ==> joint_target(
            curve,
            cpu_temp,
            None,
            fan_range,
        ) == thermal::target_speed(curve.cpu@, t.number(), fan_range)),
{
}

/// Where nothing was written yet, a ramp does not hold a target back. Otherwise it goes the
/// whole way where that is no more than 300 turns, and 300 turns of it where it is more.
pub proof fn law_ramp_length(prev: u16, target: u16)
    ensures
        ramped(None, target as int) == target,
        prev - 300 <= target <= prev + 300 ==> ramped(Some(prev), target as int) == target,
        target > prev + 300 ==> ramped(Some(prev), target as int) - prev == 300,
        target < prev - 300 ==> prev - ramped(Some(prev), target as int) == 300,
{
}

/// A controller takes every event that its phase waits for and no other. Only sensors that
/// ask for a speed beyond the last whole hundred of 16 bits are not taken.
pub proof fn law_events_taken_in_turn(controller: FanController, event: TickEvent)
    ensures
        event is Timer ==> (controller.accepts(event) <==> controller.phase is Waiting),
        event is State ==> (controller.accepts(event) <==> controller.phase is Asking),
        event == TickEvent::Sensors(None) ==> (controller.accepts(event)
            <==> controller.phase is Sensing),
        event matches TickEvent::Sensors(Some(readings)) ==> (controller.accepts(event) <==> {
            &&& controller.phase matches Phase::Sensing(state)
            &&& state.mode == FanMode::Curve ==> ramped(
                controller.last_written,
                joint_target(state.curve, readings.cpu, readings.gpu, state.fan_range),
            ) + 50 <= 65535
        }),
        event is Reserved ==> (controller.accepts(event) <==> controller.phase is Reserving),
        event is Mode ==> (controller.accepts(event) <==> controller.phase is Checking),
        event is Written ==> (controller.accepts(event) <==> controller.phase is Writing),
        event is Sampled ==> (controller.accepts(event) <==> controller.phase is Sampling),
{
}

/// An event has effects only in the phase that waits for it.
pub proof fn law_events_happen_in_turn(
    before: FanController,
    event: TickEvent,
    after: FanController,
    action: TickAction,
)
    requires
        before.leads_to(event, after, action),
    ensures
        event is Timer <==> before.phase is Waiting,
        event is State <==> before.phase is Asking,
        event is Sensors <==> before.phase is Sensing,
        event is Reserved <==> before.phase is Reserving,
        event is Mode <==> before.phase is Checking,
        event is Written <==> before.phase is Writing,
        event is Sampled <==> before.phase is Sampling,
{
}

/// Where no state, no sensors or no device can be had, the tick is over at once, and the
/// readings and the speed written last are as before. It is over in no other way before the
/// fans were sampled.
pub proof fn law_tick_given_up(
    before: FanController,
    event: TickEvent,
    after: FanController,
    action: TickAction,
)
    requires
        before.leads_to(event, after, action),
    ensures
        ({
            let missing = event == TickEvent::State(None) || event == TickEvent::Sensors(None)
                || event == TickEvent::Reserved(false);
            &&& action == TickAction::Wait <==> missing || event is Sampled
            &&& after.phase == Phase::Waiting <==> missing || event is Sampled
            &&& missing ==> after.cache == before.cache && after.last_written
                == before.last_written
        }),
{
}

/// A tick begins with a look at the state of the device, and goes on to the sensors with
/// just that state.
pub proof fn law_tick_begins(
    before: FanController,
    event: TickEvent,
    after: FanController,
    action: TickAction,
)
    requires
        before.leads_to(event, after, action),
    ensures
        event is Timer ==> action == TickAction::AskState && after.phase == Phase::Asking,
        event matches TickEvent::State(Some(state)) ==> action == TickAction::ReadSensors
            && after.phase == Phase::Sensing(state),
        event is Timer || event is State ==> after.cache == before.cache && after.last_written
            == before.last_written,
{
}

/// What the sensors say is published as it is, whoever is in charge of the fans. The target
/// beside it is that of the curves where they are in charge, and zero elsewhere. What the
/// fans were last seen to do stays.
pub proof fn law_readings_published(
    before: FanController,
    state: StateSnapshot,
    readings: Readings,
    after: FanController,
    action: TickAction,
)
    requires
        before.phase == Phase::Sensing(state),
        before.leads_to(TickEvent::Sensors(Some(readings)), after, action),
    ensures
        action == TickAction::ReserveDevice,
        after.last_written == before.last_written,
        after.cache.cpu == readings.cpu,
        after.cache.gpu == readings.gpu,
        after.cache.pkg_watts == readings.pkg_watts,
        after.cache.gpu_watts == readings.gpu_watts,
        after.cache.pkg_pl1_w == readings.pkg_pl1_w,
        after.cache.pkg_pl2_w == readings.pkg_pl2_w,
        after.cache.gpu_tgp_w == readings.gpu_tgp_w,
        after.cache.current_rpm == before.cache.current_rpm,
        state.mode == FanMode::Curve ==> after.cache.target_rpm == joint_target(
            state.curve,
            readings.cpu,
            readings.gpu,
            state.fan_range,
        ),
        state.mode != FanMode::Curve ==> after.cache.target_rpm == 0,
{
}

/// A speed is decided on exactly where the curves are in charge. It is a whole hundred. It is
/// at most fifty away from the target where that is within 300 turns of the speed written
/// last or nothing was written yet; elsewhere from the speed 300 turns nearer to the target.
pub proof fn law_speed_decided(
    before: FanController,
    state: StateSnapshot,
    readings: Readings,
    after: FanController,
    action: TickAction,
)
    requires
        before.phase == Phase::Sensing(state),
        before.leads_to(TickEvent::Sensors(Some(readings)), after, action),
    ensures
        state.mode != FanMode::Curve ==> after.phase == Phase::Reserving(None),
        state.mode == FanMode::Curve ==> {
            let target = joint_target(state.curve, readings.cpu, readings.gpu, state.fan_range);
            &&& after.phase matches Phase::Reserving(Some(rpm))
            &&& rpm % 100 == 0
            &&& match before.last_written {
                None => target - 50 < rpm <= target + 50,
                Some(prev) => {
                    &&& prev - 300 <= target <= prev + 300 ==> target - 50 < rpm <= target + 50
                    &&& target > prev + 300 ==> prev + 250 < rpm <= prev + 350
                    &&& target < prev - 300 ==> prev - 350 < rpm <= prev - 250
                },
            }
        },
{
}

/// Once the device is reserved, the mode is looked up again where a speed was decided on, and
/// that very speed is kept for it; elsewhere the fans are sampled.
pub proof fn law_device_reserved(
    before: FanController,
    speed: Option<u16>,
    after: FanController,
    action: TickAction,
)
    requires
        before.phase == Phase::Reserving(speed),
        before.leads_to(TickEvent::Reserved(true), after, action),
    ensures
        speed matches Some(rpm) ==> action == TickAction::CheckMode && after.phase
            == Phase::Checking(rpm),
        speed is None ==> action == TickAction::SampleRpm && after.phase == Phase::Sampling,
        after.cache == before.cache,
        after.last_written == before.last_written,
{
}

/// The device is told the speed that was decided on, exactly where the curves are still in
/// charge and the device is not at that speed already. Elsewhere the fans are sampled.
pub proof fn law_write_decided(
    before: FanController,
    rpm: u16,
    mode: Option<FanMode>,
    after: FanController,
    action: TickAction,
)
    requires
        before.phase == Phase::Checking(rpm),
        before.leads_to(TickEvent::Mode(mode), after, action),
    ensures
        action is WriteRpm <==> mode == Some(FanMode::Curve) && before.last_written != Some(rpm),
        action is WriteRpm ==> action == TickAction::WriteRpm(rpm) && after.phase
            == Phase::Writing(rpm),
        !(action is WriteRpm) ==> action == TickAction::SampleRpm && after.phase
            == Phase::Sampling,
        after.cache == before.cache,
        after.last_written == before.last_written,
{
}

/// What the device was told counts as written exactly where the device has taken it. The
/// fans are sampled either way.
pub proof fn law_write_answered(
    before: FanController,
    rpm: u16,
    taken: bool,
    after: FanController,
    action: TickAction,
)
    requires
        before.phase == Phase::Writing(rpm),
        before.leads_to(TickEvent::Written(taken), after, action),
    ensures
        action == TickAction::SampleRpm,
        after.phase == Phase::Sampling,
        taken ==> after.last_written == Some(rpm),
        !taken ==> after.last_written == before.last_written,
        after.cache == before.cache,
{
}

/// What the device reports is published as it is, whatever was written to it before; less
/// than nothing counts as no report, and of more than 16 bits the low ones are kept. Nothing
/// else changes, and nothing at all where there was nothing to ask.
pub proof fn law_sample_published(
    before: FanController,
    sample: Option<i32>,
    after: FanController,
    action: TickAction,
)
    requires
        before.leads_to(TickEvent::Sampled(sample), after, action),
    ensures
        sample matches Some(r) ==> {
            &&& 0 <= r <= 65535 ==> after.cache.current_rpm == Some(r as u16)
            &&& r > 65535 ==> {
                &&& after.cache.current_rpm matches Some(low)
                &&& (r - low) % 65536 == 0
            }
            &&& r < 0 ==> after.cache.current_rpm is None
        },
        sample is None ==> after.cache.current_rpm == before.cache.current_rpm,
        after.cache.cpu == before.cache.cpu,
        after.cache.gpu == before.cache.gpu,
        after.cache.target_rpm == before.cache.target_rpm,
        after.cache.pkg_watts == before.cache.pkg_watts,
        after.cache.gpu_watts == before.cache.gpu_watts,
        after.cache.pkg_pl1_w == before.cache.pkg_pl1_w,
        after.cache.pkg_pl2_w == before.cache.pkg_pl2_w,
        after.cache.gpu_tgp_w == before.cache.gpu_tgp_w,
        after.last_written == before.last_written,
        after.phase == Phase::Waiting,
        action == TickAction::Wait,
{
    if let Some(r) = sample {
        if r >= 0 {
            vstd::arithmetic::div_mod::lemma_fundamental_div_mod(r as int, 65536);
            let q = r as int / 65536;
            assert(r - r % 65536 == 65536 * q);
            vstd::arithmetic::div_mod::lemma_mod_multiples_basic(q, 65536);
        }
    }
}

/// Between the sensors and the sample of a tick the readings stay as they are.
proof fn lemma_readings_stay(
    states: Seq<FanController>,
    events: Seq<TickEvent>,
    actions: Seq<TickAction>,
    i: int,
)
    requires
        states.len() == events.len() + 1,
        actions.len() == events.len(),
        forall|j: int|
            0 <= j < events.len() ==> states[j].leads_to(
                #[trigger] events[j],
                states[j + 1],
                actions[j],
            ),
        1 <= i < events.len(),
        events[0] is Sensors,
        forall|j: int| 0 <= j < events.len() ==> !(#[trigger] events[j] is Timer),
    ensures
        states[i].cache == states[1].cache,
        progress(states[i].phase) >= 3,
    decreases i,
{
    assert(states[0].leads_to(events[0], states[1], actions[0]));
    assert(states[i].leads_to(events[i], states[i + 1], actions[i]));
    if i > 1 {
        lemma_readings_stay(states, events, actions, i - 1);
        assert(states[i - 1].leads_to(events[i - 1], states[i], actions[i - 1]));
    }
}

/// When a tick ends with a sample of the fans, the published readings are those of its
/// sensors, and the published speed is that of the sample, whatever was decided on and
/// written in between.
pub proof fn law_tick_publishes(
    states: Seq<FanController>,
    events: Seq<TickEvent>,
    actions: Seq<TickAction>,
    readings: Readings,
    r: i32,
)
    requires
        events.len() >= 2,
        states.len() == events.len() + 1,
        actions.len() == events.len(),
        forall|i: int|
            0 <= i < events.len() ==> states[i].leads_to(
                #[trigger] events[i],
                states[i + 1],
                actions[i],
            ),
        events[0] == TickEvent::Sensors(Some(readings)),
        events.last() == TickEvent::Sampled(Some(r)),
        forall|i: int| 0 <= i < events.len() ==> !(#[trigger] events[i] is Timer),
    ensures
        ({
            let cache = states.last().cache;
            &&& 0 <= r <= 65535 ==> cache.current_rpm == Some(r as u16)
            &&& r < 0 ==> cache.current_rpm is None
            &&& cache.cpu == readings.cpu
            &&& cache.gpu == readings.gpu
            &&& cache.pkg_watts == readings.pkg_watts
            &&& cache.gpu_watts == readings.gpu_watts
            &&& cache.pkg_pl1_w == readings.pkg_pl1_w
            &&& cache.pkg_pl2_w == readings.pkg_pl2_w
            &&& cache.gpu_tgp_w == readings.gpu_tgp_w
        }),
{
    let last = events.len() - 1;
    assert(states[0].leads_to(events[0], states[1], actions[0]));
    assert(states[last].leads_to(events[last], states[last + 1], actions[last]));
    lemma_readings_stay(states, events, actions, last);
    law_sample_published(states[last], Some(r), states[last + 1], actions[last]);
}

/// A speed is known to the controller as a whole hundred only, and a controller that has
/// written nothing else is in order whenever it waits.
pub proof fn law_whole_hundreds(controller: FanController)
    ensures
        controller.wf() ==> (controller.last_written matches Some(rpm) ==> rpm % 100 == 0),
        controller.phase is Waiting && (controller.last_written matches Some(rpm) ==> rpm % 100
            == 0) ==> controller.wf(),
        controller.wf() && controller.phase is Writing ==> controller.last_written != Some(
            controller.phase->Writing_0,
        ),
{
}

}
