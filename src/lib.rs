//! Telemetry for a single-board computer: decoding of the diagnostic tool's
//! output, the rolling power history and the sampling loop's state machine.
pub mod cli;
pub mod command;
pub mod cpu;
pub mod error;
pub mod fan;
pub mod interval;
pub mod platform;
pub mod power;
pub mod series;
pub mod text;
pub mod throttle;

pub use error::Error;
pub use cli::{Action, App, Event, KeyCode, KeyPress};
pub use command::{Arg, Vcgencmd};
pub use cpu::{Clock, CpuClock, CpuStatus, CpuTemp};
pub use fan::FanStatus;
pub use interval::IntervalController;
pub use platform::{Readings, Rpi};
pub use power::{Power, PowerMeasure, PowerStatus};
pub use series::RollingSeries;
pub use throttle::{InnerThrottleStatus, ThrottleStatus};
