use pi_stats::{
    Action, App, Error, Event, IntervalController, KeyCode, KeyPress, Readings, RollingSeries,
};

fn key(c: char) -> Event {
    Event::Key(KeyPress { code: KeyCode::Char(c), ctrl: false })
}

fn readings(pmic: &str) -> Readings {
    Readings {
        arm_clock: "frequency(0)=1500000000\n".to_string(),
        core_clock: "frequency(0)=500000000\n".to_string(),
        temp: "temp=51.2'C\n".to_string(),
        fan_pwm: "75\n".to_string(),
        fan_rpm: "1800\n".to_string(),
        throttled: "throttled=0x0\n".to_string(),
        pmic: pmic.to_string(),
    }
}

#[test]
fn increase_steps_around_one_second() {
    let mut c = IntervalController::new(1000);
    c.increase();
    assert_eq!(c.period_ms(), 1500);
    let mut c = IntervalController::new(900);
    c.increase();
    assert_eq!(c.period_ms(), 1000);
    let mut c = IntervalController::new(u64::MAX - 10);
    c.increase();
    assert_eq!(c.period_ms(), u64::MAX);
}

#[test]
fn decrease_steps_and_floor() {
    let cases = [(1500u64, 1000u64), (2000, 1500), (1400, 1300), (1000, 900), (200, 100), (100, 100), (50, 100), (150, 50)];
    for (from, to) in cases {
        let mut c = IntervalController::new(from);
        c.decrease();
        assert_eq!(c.period_ms(), to, "from {from}");
    }
}

#[test]
fn repeated_decreases_stay_at_or_above_floor() {
    for start in [100u64, 200, 1000, 1500, 3000, 12300, 40] {
        let mut c = IntervalController::new(start);
        for _ in 0..100 {
            c.decrease();
            assert!(c.period_ms() >= 100);
        }
        assert_eq!(c.period_ms(), 100);
    }
}

#[test]
fn repeated_increases_never_shorten() {
    let mut c = IntervalController::new(100);
    let mut last = c.period_ms();
    for _ in 0..50 {
        c.increase();
        assert!(c.period_ms() >= last);
        last = c.period_ms();
    }
    assert_eq!(last, 1000 + 41 * 500);
}

#[test]
fn series_keeps_last_values() {
    let mut s: RollingSeries<u128> = RollingSeries::new(3);
    assert_eq!(s.len(), 0);
    s.push(1);
    s.push(2);
    assert_eq!(s.values(), &[1, 2]);
    for v in 3..=7 {
        s.push(v);
        assert_eq!(s.len(), 3);
    }
    assert_eq!(s.values(), &[5, 6, 7]);
    assert_eq!(s.capacity(), 3);
}

#[test]
fn filled_series_stays_full() {
    let mut s: RollingSeries<u128> = RollingSeries::filled(3, 0);
    assert_eq!(s.values(), &[0, 0, 0]);
    s.push(9);
    assert_eq!(s.values(), &[0, 0, 9]);
    for v in 10..14 {
        s.push(v);
    }
    assert_eq!(s.values(), &[11, 12, 13]);
}

#[test]
fn keys_map_to_actions() {
    let mut app = App::new();
    assert!(app.is_running());
    assert_eq!(app.period_ms(), 1000);
    assert_eq!(app.step(Event::Tick), Action::Sample);
    assert_eq!(app.step(key('+')), Action::Reschedule(1500));
    assert_eq!(app.step(key('-')), Action::Reschedule(1000));
    assert_eq!(app.step(key('-')), Action::Reschedule(900));
    assert_eq!(app.step(key('x')), Action::Nothing);
    assert_eq!(app.step(key('c')), Action::Nothing);
    assert_eq!(app.step(Event::Key(KeyPress { code: KeyCode::Other, ctrl: true })), Action::Nothing);
    assert!(app.is_running());
    assert_eq!(app.period_ms(), 900);
}

#[test]
fn quit_keys_exit() {
    for ev in [
        key('q'),
        Event::Key(KeyPress { code: KeyCode::Esc, ctrl: false }),
        Event::Key(KeyPress { code: KeyCode::Char('c'), ctrl: true }),
        Event::Shutdown,
    ] {
        let mut app = App::new();
        assert_eq!(app.step(ev), Action::Exit);
        assert!(!app.is_running());
    }
}

#[test]
fn shutdown_wins_over_pending_tick() {
    let mut app = App::new().with_tick_duration(500);
    assert_eq!(app.step(Event::Shutdown), Action::Exit);
    assert!(!app.is_running());
    assert_eq!(app.step(Event::Tick), Action::Nothing);
    assert_eq!(app.step(key('+')), Action::Nothing);
    assert_eq!(app.period_ms(), 500);
    let pmic = "A_V v=1V\nA_A a=1A\n";
    assert_eq!(app.on_tick(&readings(pmic)), Ok(()));
    assert!(app.platform().is_none());
    assert_eq!(app.chart_data(), &[0u128; 200][..]);
}

#[test]
fn tick_records_sample_and_total() {
    let mut app = App::new();
    assert_eq!(app.chart_data(), &[0u128; 200][..]);
    let pmic = "A_V volt(1)=3.3V\nA_A current(1)=0.5A\nB_V volt(2)=1.8V\nB_A current(2)=1.0A\n";
    assert_eq!(app.on_tick(&readings(pmic)), Ok(()));
    assert_eq!(app.chart_data().len(), 200);
    assert_eq!(app.chart_data()[199], 3_450_000_000_000_000_000u128);
    assert!(app.chart_data()[..199].iter().all(|&t| t == 0));
    assert_eq!(app.platform().unwrap().fan.rpm, 1800);
    for _ in 0..250 {
        assert_eq!(app.on_tick(&readings("A_V v=2V\nA_A a=1A\n")), Ok(()));
    }
    assert_eq!(app.chart_data().len(), 200);
    assert!(app.chart_data().iter().all(|&t| t == 2_000_000_000_000_000_000));
}

#[test]
fn failed_sample_stops_the_loop() {
    let mut app = App::new();
    assert_eq!(app.on_tick(&readings("A_V v=2V\n")), Ok(()));
    let mut bad = readings("A_V v=2V\n");
    bad.temp = "temp=?'C".to_string();
    assert_eq!(app.on_tick(&bad), Err(Error::ParseFloat));
    assert!(!app.is_running());
    assert_eq!(app.chart_data(), &[0u128; 200][..]);
    assert_eq!(app.step(Event::Tick), Action::Nothing);
}
