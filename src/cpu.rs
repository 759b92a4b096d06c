//! CPU temperature and clock speeds, read from the diagnostic tool's answers.
use vstd::prelude::*;
use vstd::string::StringSliceAdditionalSpecFns;

use crate::error::{is_parse_command, Error};
use crate::text::{
    decimal_nanos, ends_with, has_prefix, has_suffix, natural, parse_decimal_nanos,
    parse_natural, starts_with, trim, trim_range,
};

verus! {

/// A clock speed in hertz.
#[derive(Debug, Clone, Copy, PartialEq, Eq)]
pub struct Clock {
    pub hz: u32,
}

/// A temperature in billionths of a degree Celsius.
#[derive(Debug, Clone, Copy, PartialEq, Eq)]
pub struct CpuTemp {
    pub nano_celsius: i64,
}

#[derive(Debug, Clone, Copy, PartialEq, Eq)]
pub struct CpuClock {
    pub arm: Clock,
    pub gpu: Clock,
}

#[derive(Debug, Clone, Copy, PartialEq, Eq)]
pub struct CpuStatus {
    pub clock: CpuClock,
    pub temp: CpuTemp,
}

/// A decimal literal with an optional `-` or `+` sign, in billionths, if it
/// fits in an `i64`.
pub open spec fn signed_nanos(s: Seq<u8>) -> Option<int> {
    if s.len() > 0 && s[0] == 45u8 {
        match decimal_nanos(s.drop_first()) {
            Some(v) => if v <= 0x8000_0000_0000_0000 {
                Some(-v)
            } else {
                None
            },
            None => None,
        }
    } else {
        let body = if s.len() > 0 && s[0] == 43u8 {
            s.drop_first()
        } else {
            s
        };
        match decimal_nanos(body) {
            Some(v) => if v <= 0x7FFF_FFFF_FFFF_FFFF {
                Some(v as int)
            } else {
                None
            },
            None => None,
        }
    }
}

/// What a temperature answer such as `temp=48.3'C` reads as: `None` when the
/// `temp=` prefix or the `'C` suffix is missing, else the signed decimal between them.
pub open spec fn temp_reading(s: Seq<u8>) -> Option<Option<int>> {
    let t = trim(s);
    let p = "temp=".spec_bytes();
    let u = "'C".spec_bytes();
    if has_prefix(t, p) && has_suffix(t.skip(p.len() as int), u) {
        let body = t.skip(p.len() as int);
        Some(signed_nanos(body.take(body.len() - u.len())))
    } else {
        None
    }
}

/// What a clock answer such as `frequency(0)=1500000000` reads as: `None` when
/// the `frequency(0)=` prefix is missing, else the integer after it.
pub open spec fn clock_reading(s: Seq<u8>) -> Option<Option<nat>> {
    let t = trim(s);
    let p = "frequency(0)=".spec_bytes();
    if has_prefix(t, p) {
        Some(natural(t.skip(p.len() as int), 10, 0xFFFF_FFFF))
    } else {
        None
    }
}

pub open spec fn clock_result(s: Seq<u8>, r: Result<Clock, Error>) -> bool {
    match clock_reading(s) {
        None => is_parse_command(r),
        Some(None) => r == Err::<Clock, Error>(Error::ParseInt),
        Some(Some(v)) => r == Ok::<Clock, Error>(Clock { hz: v as u32 }),
    }
}

pub open spec fn temp_result(s: Seq<u8>, r: Result<CpuTemp, Error>) -> bool {
    match temp_reading(s) {
        None => is_parse_command(r),
        Some(None) => r == Err::<CpuTemp, Error>(Error::ParseFloat),
        Some(Some(v)) => r == Ok::<CpuTemp, Error>(CpuTemp { nano_celsius: v as i64 }),
    }
}

/// Whether `e` is the error of the first of the three answers that fails to
/// read, in the order ARM clock, core clock, temperature.
pub open spec fn cpu_error(arm: Seq<u8>, core: Seq<u8>, temp: Seq<u8>, e: Error) -> bool {
    ||| clock_result(arm, Err(e))
    ||| clock_reading(arm) matches Some(Some(_)) && clock_result(core, Err(e))
    ||| clock_reading(arm) matches Some(Some(_)) && clock_reading(core) matches Some(Some(_))
        && temp_result(temp, Err(e))
}

/// Whether all three answers read.
pub open spec fn cpu_ok(arm: Seq<u8>, core: Seq<u8>, temp: Seq<u8>) -> bool {
    clock_reading(arm) matches Some(Some(_)) && clock_reading(core) matches Some(Some(_))
        && temp_reading(temp) matches Some(Some(_))
}

/// Reads `b[lo..hi]` as a signed decimal literal in billionths.
pub fn parse_signed_nanos(b: &[u8], lo: usize, hi: usize) -> (r: Option<i64>)
    requires
        lo <= hi <= b@.len(),
    ensures
        match signed_nanos(b@.subrange(lo as int, hi as int)) {
            Some(v) => r == Some(v as i64),
            None => r.is_none(),
        },
{
    let ghost s = b@.subrange(lo as int, hi as int);
    let negative = lo < hi && b[lo] == 45u8;
    let signed = lo < hi && (b[lo] == 45u8 || b[lo] == 43u8);
    let start = if signed { lo + 1 } else { lo };
    proof {
        if signed {
            assert(s.drop_first() =~= b@.subrange(start as int, hi as int));
        } else {
            assert(s =~= b@.subrange(start as int, hi as int));
        }
    }
    match parse_decimal_nanos(b, start, hi) {
        Some(v) => {
            if negative {
                if v <= 0x8000_0000_0000_0000u64 {
                    if v == 0x8000_0000_0000_0000u64 {
                        Some(i64::MIN)
                    } else {
                        Some(-(v as i64))
                    }
                } else {
                    None
                }
            } else if v <= 0x7FFF_FFFF_FFFF_FFFFu64 {
                Some(v as i64)
            } else {
                None
            }
        },
        None => None,
    }
}

impl Clock {
    /// Reads a clock answer of the diagnostic tool.
    pub fn new(output: &str) -> (r: Result<Clock, Error>)
        ensures
            clock_result(output.spec_bytes(), r),
    {
        let b = output.as_bytes();
        assert(b@.subrange(0, b@.len() as int) =~= b@);
        let (lo, hi) = trim_range(b, 0, b.len());
        let p = "frequency(0)=";
        if !starts_with(b, lo, hi, p) {
            return Err(Error::ParseCommand("Failed to strip prefix: frequency(0)=".to_owned()));
        }
        let start = lo + p.len();
        assert(b@.subrange(lo as int, hi as int).skip(p.spec_bytes().len() as int) =~= b@.subrange(
            start as int,
            hi as int,
        ));
        match parse_natural(b, start, hi, 10, 0xFFFF_FFFF) {
            Some(v) => Ok(Clock { hz: v as u32 }),
            None => Err(Error::ParseInt),
        }
    }
}

impl CpuTemp {
    /// Reads a temperature answer of the diagnostic tool.
    pub fn new(output: &str) -> (r: Result<CpuTemp, Error>)
        ensures
            temp_result(output.spec_bytes(), r),
    {
        let b = output.as_bytes();
        assert(b@.subrange(0, b@.len() as int) =~= b@);
        let (lo, hi) = trim_range(b, 0, b.len());
        let p = "temp=";
        let u = "'C";
        if !starts_with(b, lo, hi, p) {
            return Err(Error::ParseCommand("Failed to strip prefix: temp=".to_owned()));
        }
        let start = lo + p.len();
        let ghost t = b@.subrange(lo as int, hi as int);
        assert(t.skip(p.spec_bytes().len() as int) =~= b@.subrange(start as int, hi as int));
        if !ends_with(b, start, hi, u) {
            return Err(Error::ParseCommand("Failed to strip suffix: 'C".to_owned()));
        }
        let end = hi - u.len();
        assert(b@.subrange(start as int, hi as int).take(end - start) =~= b@.subrange(
            start as int,
            end as int,
        ));
        match parse_signed_nanos(b, start, end) {
            Some(v) => Ok(CpuTemp { nano_celsius: v }),
            None => Err(Error::ParseFloat),
        }
    }
}

impl CpuClock {
    /// Reads the answers for the ARM clock and for the core (GPU) clock.
    pub fn new(arm_output: &str, core_output: &str) -> (r: Result<CpuClock, Error>)
        ensures
            match r {
                Ok(c) => clock_result(arm_output.spec_bytes(), Ok(c.arm))
                    && clock_result(core_output.spec_bytes(), Ok(c.gpu)),
                Err(e) => clock_result(arm_output.spec_bytes(), Err(e)) || (
                    clock_reading(arm_output.spec_bytes()) matches Some(Some(_))
                    && clock_result(core_output.spec_bytes(), Err(e))),
            },
    {
        let arm = match Clock::new(arm_output) {
            Ok(c) => c,
            Err(e) => return Err(e),
        };
        let gpu = match Clock::new(core_output) {
            Ok(c) => c,
            Err(e) => return Err(e),
        };
        Ok(CpuClock { arm, gpu })
    }
}

impl CpuStatus {
    /// Reads the clock answers, then the temperature answer; the first failure is returned.
    pub fn new(arm_output: &str, core_output: &str, temp_output: &str) -> (r: Result<
        CpuStatus,
        Error,
    >)
        ensures
            match r {
                Ok(c) => clock_result(arm_output.spec_bytes(), Ok(c.clock.arm))
                    && clock_result(core_output.spec_bytes(), Ok(c.clock.gpu))
                    && temp_result(temp_output.spec_bytes(), Ok(c.temp)),
                Err(e) => cpu_error(
                    arm_output.spec_bytes(),
                    core_output.spec_bytes(),
                    temp_output.spec_bytes(),
                    e,
                ),
            },
    {
        let clock = match CpuClock::new(arm_output, core_output) {
            Ok(c) => c,
            Err(e) => return Err(e),
        };
        let temp = match CpuTemp::new(temp_output) {
            Ok(t) => t,
            Err(e) => return Err(e),
        };
        Ok(CpuStatus { clock, temp })
    }
}

} // verus!
