//! Fan telemetry, read from the two sensor files of the fan's monitor.
use vstd::prelude::*;
use vstd::string::StringSliceAdditionalSpecFns;

use crate::error::Error;
use crate::text::{natural, parse_natural, trim, trim_range};

verus! {

#[derive(Debug, Clone, Copy, PartialEq, Eq)]
pub struct FanStatus {
    /// PWM duty, 0 to 255.
    pub pwm: u8,
    /// Revolutions per minute.
    pub rpm: u32,
}

impl FanStatus {
    /// Reads the contents of the PWM duty file and of the speed file; each is
    /// an unsigned integer, with surrounding whitespace allowed.
    pub fn new(pwm_text: &str, rpm_text: &str) -> (r: Result<FanStatus, Error>)
        ensures
            match (
                natural(trim(pwm_text.spec_bytes()), 10, 255),
                natural(trim(rpm_text.spec_bytes()), 10, 0xFFFF_FFFF),
            ) {
                (Some(p), Some(m)) => r == Ok::<FanStatus, Error>(
                    FanStatus { pwm: p as u8, rpm: m as u32 },
                ),
                _ => r == Err::<FanStatus, Error>(Error::ParseInt),
            },
    {
        let pb = pwm_text.as_bytes();
        let rb = rpm_text.as_bytes();
        assert(pb@.subrange(0, pb@.len() as int) =~= pb@);
        assert(rb@.subrange(0, rb@.len() as int) =~= rb@);
        let (plo, phi) = trim_range(pb, 0, pb.len());
        let (rlo, rhi) = trim_range(rb, 0, rb.len());
        let pwm = parse_natural(pb, plo, phi, 10, 255);
        let rpm = parse_natural(rb, rlo, rhi, 10, 0xFFFF_FFFF);
        match (pwm, rpm) {
            (Some(p), Some(m)) => Ok(FanStatus { pwm: p as u8, rpm: m as u32 }),
            _ => Err(Error::ParseInt),
        }
    }
}

} // verus!
