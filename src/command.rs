//! The diagnostic tool and the queries that sampling sends it.
use vstd::prelude::*;

verus! {

/// One word of a query to the diagnostic tool.
#[derive(Debug, Clone, Copy, PartialEq, Eq)]
pub enum Arg {
    MeasureTemp,
    MeasureClock,
    Arm,
    Core,
    PmicReadAdc,
    GetThrottled,
}

pub open spec fn arg_text(a: Arg) -> Seq<char> {
    match a {
        Arg::MeasureTemp => "measure_temp"@,
        Arg::MeasureClock => "measure_clock"@,
        Arg::Arm => "arm"@,
        Arg::Core => "core"@,
        Arg::PmicReadAdc => "pmic_read_adc"@,
        Arg::GetThrottled => "get_throttled"@,
    }
}

impl Arg {
    /// The word as the tool expects it on its command line.
    pub fn as_str(&self) -> (r: &'static str)
        ensures
            r@ == arg_text(*self),
    {
        match self {
            Arg::MeasureTemp => "measure_temp",
            Arg::MeasureClock => "measure_clock",
            Arg::Arm => "arm",
            Arg::Core => "core",
            Arg::PmicReadAdc => "pmic_read_adc",
            Arg::GetThrottled => "get_throttled",
        }
    }
}

/// The vendor's diagnostic tool, which answers one query per run.
pub struct Vcgencmd;

impl Vcgencmd {
    /// The program to run.
    pub fn program() -> (r: &'static str)
        ensures
            r@ == "vcgencmd"@,
    {
        "vcgencmd"
    }
}

} // verus!
