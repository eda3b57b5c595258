//! Core of an adaptive backlight controller: a scalar smoothing filter for
//! noisy illuminance samples, a piecewise-linear response curve from
//! illuminance to brightness, a hysteresis quantizer that turns continuous
//! brightness into discrete actuator levels, and the control loop that
//! sequences them and handles pause/resume.
//!
//! All brightness-like quantities are carried in fixed point: a value `v`
//! stands for the real number `v / 1000` (milli-units).
use vstd::prelude::*;

pub mod control;
pub mod discrete_value;
pub mod kalman;
pub mod light;
pub mod parse;

pub use control::main_loop;
pub use light::LightConvertor;
pub use light::LightPoint;
pub use parse::read_file_to_u32;

verus! {

/// Thousandths: the denominator of the library's fixed-point values.
pub const SCALE: u32 = 1000;

/// Failure kinds surfaced by the controller; the process exit status is
/// derived from these at the boundary.
pub enum ErrorCode {
    InvalidArgs,
    ConfigReadError,
    ConfigParseError,
    TracerCreateError,
    DaemonizeErrror,
    ReadMaxBrightnessError,
    InvalidPointsInConfig,
    ReadBacklightError,
    ReadIlluminanceError,
    CannotSetBacklight,
    SyslogOpenError,
}

} // verus!
