//! One complete telemetry sample of the board.
use vstd::prelude::*;
use vstd::utf8::encode_utf8;

use crate::cpu::{clock_reading, clock_result, cpu_error, cpu_ok, temp_reading, temp_result, CpuStatus};
use crate::error::Error;
use crate::fan::FanStatus;
use crate::power::{power_ok, power_result, power_status_error, PowerStatus};
use crate::text::{natural, trim};
use crate::throttle::{decoded, status_word};

verus! {

/// The raw text that one sample is read from: the diagnostic tool's answers
/// and the contents of the fan's two sensor files.
pub struct Readings {
    pub arm_clock: String,
    pub core_clock: String,
    pub temp: String,
    pub fan_pwm: String,
    pub fan_rpm: String,
    pub throttled: String,
    pub pmic: String,
}

/// One complete, consistent sample.
#[derive(Debug, PartialEq, Eq)]
pub struct Rpi {
    pub cpu: CpuStatus,
    pub fan: FanStatus,
    pub power: PowerStatus,
}

/// Whether every part of the readings reads without a fault.
pub open spec fn readings_ok(r: Readings) -> bool {
    &&& clock_reading(encode_utf8(r.arm_clock@)) matches Some(Some(_))
    &&& clock_reading(encode_utf8(r.core_clock@)) matches Some(Some(_))
    &&& temp_reading(encode_utf8(r.temp@)) matches Some(Some(_))
    &&& natural(trim(encode_utf8(r.fan_pwm@)), 10, 255) is Some
    &&& natural(trim(encode_utf8(r.fan_rpm@)), 10, 0xFFFF_FFFF) is Some
    &&& status_word(encode_utf8(r.throttled@)) is Some
    &&& power_ok(encode_utf8(r.pmic@))
}

/// Whether `e` is the error of the first part of the readings that fails to
/// read, in the order CPU (ARM clock, core clock, temperature), fan (both
/// files, reported as one integer error), power (throttle report, power report).
pub open spec fn sample_error(r: Readings, e: Error) -> bool {
    let arm = encode_utf8(r.arm_clock@);
    let core = encode_utf8(r.core_clock@);
    let temp = encode_utf8(r.temp@);
    let fan_ok = natural(trim(encode_utf8(r.fan_pwm@)), 10, 255) is Some && natural(
        trim(encode_utf8(r.fan_rpm@)),
        10,
        0xFFFF_FFFF,
    ) is Some;
    ||| cpu_error(arm, core, temp, e)
    ||| cpu_ok(arm, core, temp) && !fan_ok && e == Error::ParseInt
    ||| cpu_ok(arm, core, temp) && fan_ok && power_status_error(
        encode_utf8(r.throttled@),
        encode_utf8(r.pmic@),
        e,
    )
}

/// Whether `p` is what the readings say, part by part.
pub open spec fn sample_of(r: Readings, p: Rpi) -> bool {
    &&& clock_result(encode_utf8(r.arm_clock@), Ok(p.cpu.clock.arm))
    &&& clock_result(encode_utf8(r.core_clock@), Ok(p.cpu.clock.gpu))
    &&& temp_result(encode_utf8(r.temp@), Ok(p.cpu.temp))
    &&& natural(trim(encode_utf8(r.fan_pwm@)), 10, 255) == Some(p.fan.pwm as nat)
    &&& natural(trim(encode_utf8(r.fan_rpm@)), 10, 0xFFFF_FFFF) == Some(p.fan.rpm as nat)
    &&& status_word(encode_utf8(r.throttled@)) matches Some(w) && p.power.throttle == decoded(w)
    &&& power_result(encode_utf8(r.pmic@), Ok(p.power.power))
}

impl Rpi {
    /// Reads a whole sample: CPU, then fan, then power; the first failure is
    /// returned and nothing partial is kept.
    pub fn new(readings: &Readings) -> (r: Result<Rpi, Error>)
        ensures
            r is Ok <==> readings_ok(*readings),
            r matches Ok(p) ==> sample_of(*readings, p),
            r matches Err(e) ==> sample_error(*readings, e),
    {
        let cpu = match CpuStatus::new(
            readings.arm_clock.as_str(),
            readings.core_clock.as_str(),
            readings.temp.as_str(),
        ) {
            Ok(c) => c,
            Err(e) => return Err(e),
        };
        let fan = match FanStatus::new(readings.fan_pwm.as_str(), readings.fan_rpm.as_str()) {
            Ok(f) => f,
            Err(e) => return Err(e),
        };
        let power = match PowerStatus::new(readings.throttled.as_str(), readings.pmic.as_str()) {
            Ok(p) => p,
            Err(e) => return Err(e),
        };
        Ok(Rpi { cpu, fan, power })
    }

    /// Replaces the sample with a new one read from `readings`; on failure the
    /// sample is left as it was.
    pub fn update(&mut self, readings: &Readings) -> (r: Result<(), Error>)
        ensures
            r is Ok <==> readings_ok(*readings),
            r is Ok ==> sample_of(*readings, *final(self)),
            r is Err ==> *final(self) == *old(self),
            r matches Err(e) ==> sample_error(*readings, e),
    {
        match Rpi::new(readings) {
            Ok(p) => {
                *self = p;
                Ok(())
            },
            Err(e) => Err(e),
        }
    }
}

} // verus!
