use pi_stats::text::parse_decimal_nanos;
use pi_stats::{
    Arg, Clock, CpuClock, CpuStatus, CpuTemp, Error, FanStatus, InnerThrottleStatus, Power,
    PowerStatus, Readings, Rpi, ThrottleStatus, Vcgencmd,
};

fn flags(uv: bool, cap: bool, thr: bool, soft: bool) -> InnerThrottleStatus {
    InnerThrottleStatus {
        under_voltage: uv,
        arm_frequency_capped: cap,
        throttled: thr,
        soft_temp_limit: soft,
    }
}

#[test]
fn decode_sample_word() {
    let t = ThrottleStatus::new("throttled=0x50005").unwrap();
    assert_eq!(t.current, flags(true, false, true, false));
    assert_eq!(t.happened, flags(true, false, true, false));
}

#[test]
fn decode_lowest_bit_only() {
    let t = ThrottleStatus::new("0x00000001").unwrap();
    assert_eq!(t.current, flags(true, false, false, false));
    assert_eq!(t.happened, flags(false, false, false, false));
}

#[test]
fn decode_every_combination_of_meaningful_bits() {
    let positions = [0u32, 1, 2, 3, 16, 17, 18, 19];
    for combo in 0u32..256 {
        let mut word = 0u32;
        for (i, p) in positions.iter().enumerate() {
            if combo & (1 << i) != 0 {
                word |= 1 << p;
            }
        }
        let set = |i: u32| combo & (1 << i) != 0;
        let expected = ThrottleStatus {
            current: flags(set(0), set(1), set(2), set(3)),
            happened: flags(set(4), set(5), set(6), set(7)),
        };
        assert_eq!(ThrottleStatus::from_word(word), expected);
        let text = format!("throttled=0x{:x}", word);
        assert_eq!(ThrottleStatus::new(&text).unwrap(), expected);
    }
}

#[test]
fn reserved_bits_are_ignored() {
    let t = ThrottleStatus::from_word(0xFFF0_FFF0);
    assert_eq!(t.current, flags(false, false, false, false));
    assert_eq!(t.happened, flags(false, false, false, false));
}

#[test]
fn prefixes_are_tolerated() {
    let a = ThrottleStatus::new("throttled=0x1").unwrap();
    let b = ThrottleStatus::new("0x1").unwrap();
    let c = ThrottleStatus::new("0X1").unwrap();
    assert_eq!(a, b);
    assert_eq!(b, c);
    assert_eq!(ThrottleStatus::new("1").unwrap(), a);
    assert_eq!(ThrottleStatus::new("throttled=0x1\n").unwrap(), a);
}

#[test]
fn malformed_status_word_is_rejected() {
    assert_eq!(ThrottleStatus::new("throttled=zzz"), Err(Error::MalformedStatusWord));
    assert_eq!(ThrottleStatus::new(""), Err(Error::MalformedStatusWord));
    assert_eq!(ThrottleStatus::new("throttled=0x"), Err(Error::MalformedStatusWord));
    assert_eq!(ThrottleStatus::new("0x100000000"), Err(Error::MalformedStatusWord));
    assert_eq!(ThrottleStatus::new("0xffffffff").unwrap(), ThrottleStatus::from_word(u32::MAX));
}

#[test]
fn decimal_reads_in_billionths() {
    let read = |s: &str| parse_decimal_nanos(s.as_bytes(), 0, s.len());
    assert_eq!(read("3.3"), Some(3_300_000_000));
    assert_eq!(read("0.08780040"), Some(87_800_400));
    assert_eq!(read("5."), Some(5_000_000_000));
    assert_eq!(read(".5"), Some(500_000_000));
    assert_eq!(read("1.0000000019"), Some(1_000_000_001));
    assert_eq!(read("18446744073.709551615"), Some(u64::MAX));
    assert_eq!(read("18446744073.709551616"), None);
    assert_eq!(read("."), None);
    assert_eq!(read(""), None);
    assert_eq!(read("1.2.3"), None);
    assert_eq!(read("1e5"), None);
}

#[test]
fn temperature_is_read_between_its_markers() {
    assert_eq!(CpuTemp::new("temp=48.3'C\n").unwrap().nano_celsius, 48_300_000_000);
    assert!(matches!(CpuTemp::new("48.3'C"), Err(Error::ParseCommand(_))));
    assert!(matches!(CpuTemp::new("temp=48.3"), Err(Error::ParseCommand(_))));
    assert_eq!(CpuTemp::new("temp=hot'C"), Err(Error::ParseFloat));
    assert_eq!(CpuTemp::new("temp=-5.0'C").unwrap().nano_celsius, -5_000_000_000);
    assert_eq!(CpuTemp::new("temp=+5.5'C").unwrap().nano_celsius, 5_500_000_000);
    assert_eq!(CpuTemp::new("temp=-'C"), Err(Error::ParseFloat));
    assert_eq!(CpuTemp::new("temp=9223372036.854775808'C"), Err(Error::ParseFloat));
    assert_eq!(CpuTemp::new("temp=-9223372036.854775808'C").unwrap().nano_celsius, i64::MIN);
}

#[test]
fn clocks_are_read_in_hertz() {
    assert_eq!(Clock::new("frequency(0)=1500398464\n").unwrap().hz, 1_500_398_464);
    assert_eq!(Clock::new("frequency(0)=fast"), Err(Error::ParseInt));
    assert_eq!(Clock::new("frequency(0)=4294967296"), Err(Error::ParseInt));
    assert!(matches!(Clock::new("1500"), Err(Error::ParseCommand(_))));
    let c = CpuClock::new("frequency(0)=1800000000", "frequency(0)=500000000").unwrap();
    assert_eq!(c.arm.hz, 1_800_000_000);
    assert_eq!(c.gpu.hz, 500_000_000);
    let s = CpuStatus::new("frequency(0)=1", "frequency(0)=2", "temp=40.0'C").unwrap();
    assert_eq!(s.temp.nano_celsius, 40_000_000_000);
    assert_eq!(CpuStatus::new("frequency(0)=1", "x", "temp=40.0'C").is_err(), true);
}

#[test]
fn fan_readings_are_integers() {
    assert_eq!(FanStatus::new("128\n", " 2100 \n").unwrap(), FanStatus { pwm: 128, rpm: 2100 });
    assert_eq!(FanStatus::new("256", "0"), Err(Error::ParseInt));
    assert_eq!(FanStatus::new("12", "fast"), Err(Error::ParseInt));
    assert_eq!(FanStatus::new("", "1"), Err(Error::ParseInt));
}

fn rail_names(p: &Power) -> Vec<String> {
    p.power_map.iter().map(|m| String::from_utf8(m.measure.clone()).unwrap()).collect()
}

#[test]
fn power_total_and_order() {
    let forward = "A_V volt(1)=3.3V\nA_A current(1)=0.5A\nB_V volt(2)=1.8V\nB_A current(2)=1.0A\n";
    let backward = "B_A current(2)=1.0A\n B_V volt(2)=1.8V\nA_A current(1)=0.5A\nA_V volt(1)=3.3V";
    for text in [forward, backward] {
        let p = Power::new(text).unwrap();
        assert_eq!(rail_names(&p), vec!["A".to_string(), "B".to_string()]);
        assert_eq!(p.power_map[0].volts, 3_300_000_000);
        assert_eq!(p.power_map[0].amps, 500_000_000);
        assert_eq!(p.total_power, 3_450_000_000_000_000_000);
    }
}

#[test]
fn power_rails_merge_and_sort() {
    let text = "  VDD_CORE_A current(7)=2.5A\n\n3V3_SYS_V volt(9)=3.31V\nVDD_CORE_V volt(15)=0.8V\nVDD_CORE_A current(7)=2.0A\nEXT5V_V volt(24)=5.1V\n";
    let p = Power::new(text).unwrap();
    assert_eq!(rail_names(&p), vec!["3V3_SYS", "EXT5V", "VDD_CORE"]);
    assert_eq!(p.power_map[2].amps, 2_000_000_000);
    assert_eq!(p.power_map[1].amps, 0);
    assert_eq!(p.total_power, 1_600_000_000_000_000_000);
    let empty = Power::new("").unwrap();
    assert_eq!(empty.power_map.len(), 0);
    assert_eq!(empty.total_power, 0);
}

#[test]
fn malformed_power_lines_are_rejected() {
    assert!(matches!(Power::new("VDD volt(1)=1.0V"), Err(Error::ParseCommand(_))));
    assert!(matches!(Power::new("VDD_W volt(1)=1.0W"), Err(Error::ParseCommand(_))));
    assert!(matches!(Power::new("VDD_V"), Err(Error::ParseCommand(_))));
    assert!(matches!(Power::new("VDD_V 1.0V"), Err(Error::ParseCommand(_))));
    assert_eq!(Power::new("VDD_V volt(1)=high"), Err(Error::ParseFloat));
}

#[test]
fn power_status_reads_both_reports() {
    let s = PowerStatus::new("throttled=0x4\n", "X_V v=2V\nX_A a=1A\n").unwrap();
    assert!(s.throttle.current.throttled);
    assert_eq!(s.power.total_power, 2_000_000_000_000_000_000);
    assert_eq!(PowerStatus::new("nope", "X_V v=2V"), Err(Error::MalformedStatusWord));
    assert_eq!(PowerStatus::new("0x0", "X_V v=?"), Err(Error::ParseFloat));
}

pub fn readings() -> Readings {
    Readings {
        arm_clock: "frequency(0)=1500000000\n".to_string(),
        core_clock: "frequency(0)=500000000\n".to_string(),
        temp: "temp=51.2'C\n".to_string(),
        fan_pwm: "75\n".to_string(),
        fan_rpm: "1800\n".to_string(),
        throttled: "throttled=0x0\n".to_string(),
        pmic: "A_V volt(1)=3.3V\nA_A current(1)=0.5A\nB_V volt(2)=1.8V\nB_A current(2)=1.0A\n"
            .to_string(),
    }
}

#[test]
fn whole_sample_is_read() {
    let p = Rpi::new(&readings()).unwrap();
    assert_eq!(p.cpu.clock.arm.hz, 1_500_000_000);
    assert_eq!(p.cpu.temp.nano_celsius, 51_200_000_000);
    assert_eq!(p.fan, FanStatus { pwm: 75, rpm: 1800 });
    assert_eq!(p.power.power.total_power, 3_450_000_000_000_000_000);
}

#[test]
fn failed_update_keeps_previous_sample() {
    let mut p = Rpi::new(&readings()).unwrap();
    let mut bad = readings();
    bad.fan_rpm = "broken".to_string();
    assert_eq!(p.update(&bad), Err(Error::ParseInt));
    let mut bad_clock = readings();
    bad_clock.core_clock = "frequency(0)=x".to_string();
    bad_clock.pmic = "junk".to_string();
    assert_eq!(p.update(&bad_clock), Err(Error::ParseInt));
    let mut bad_power = readings();
    bad_power.pmic = "A_V v=?V".to_string();
    assert_eq!(p.update(&bad_power), Err(Error::ParseFloat));
    let mut bad_word = readings();
    bad_word.throttled = "throttled=0xq".to_string();
    bad_word.pmic = "A_V v=?V".to_string();
    assert_eq!(p.update(&bad_word), Err(Error::MalformedStatusWord));
    assert_eq!(p, Rpi::new(&readings()).unwrap());
    let mut other = readings();
    other.fan_pwm = "10".to_string();
    assert_eq!(p.update(&other), Ok(()));
    assert_eq!(p.fan.pwm, 10);
}

#[test]
fn query_words() {
    assert_eq!(Arg::MeasureTemp.as_str(), "measure_temp");
    assert_eq!(Arg::MeasureClock.as_str(), "measure_clock");
    assert_eq!(Arg::Arm.as_str(), "arm");
    assert_eq!(Arg::Core.as_str(), "core");
    assert_eq!(Arg::PmicReadAdc.as_str(), "pmic_read_adc");
    assert_eq!(Arg::GetThrottled.as_str(), "get_throttled");
    assert_eq!(Vcgencmd::program(), "vcgencmd");
}
