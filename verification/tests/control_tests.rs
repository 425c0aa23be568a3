use fan_controller::control::{should_command, ControlLoop, Telemetry};
use fan_controller::curve::{default_fan_speed_table, FanSpeedTable};
use fan_controller::frame::window_capacity;

#[test]
fn hysteresis_band_around_previous() {
    // within 12 steps of the last command nothing is sent
    for cand in 88..=112u8 {
        assert!(!should_command(Some(100), cand), "candidate {} should be suppressed", cand);
    }
    assert!(should_command(Some(100), 87));
    assert!(should_command(Some(100), 113));
}

#[test]
fn hysteresis_extremes_always_reported_once() {
    // both extremes pass the filter on a transition...
    assert!(should_command(Some(100), 0));
    assert!(should_command(Some(100), 255));
    assert!(should_command(Some(250), 255));
    assert!(should_command(Some(5), 0));
    // ...but only once
    assert!(!should_command(Some(0), 0));
    assert!(!should_command(Some(255), 255));
}

#[test]
fn first_command_never_suppressed() {
    assert!(should_command(None, 0));
    assert!(should_command(None, 95));
    assert!(should_command(None, 255));
}

#[test]
fn safety_cutoff_forces_full_speed() {
    let mut ctl = ControlLoop::new(default_fan_speed_table(), 4, 40, 0, 1000);
    let r = ctl.tick(Telemetry::Reading { temp: 77, power_usage: 0, power_limit: 1000 });
    // 77 degrees in the window forces 255 even at zero power
    assert_eq!(r, Some(255));
}

#[test]
fn thermal_boost_adds_fifty() {
    // a flat curve reading 100 everywhere between its breakpoints
    let curve = FanSpeedTable::new(vec![(100, 100), (900, 100)]).unwrap();
    let mut ctl = ControlLoop::new(curve, 1, 72, 500, 1000);
    let r = ctl.tick(Telemetry::Reading { temp: 72, power_usage: 500, power_limit: 1000 });
    assert_eq!(r, Some(150));
}

#[test]
fn thermal_boost_saturates() {
    let curve = FanSpeedTable::new(vec![(100, 210), (900, 210)]).unwrap();
    let mut ctl = ControlLoop::new(curve, 1, 72, 500, 1000);
    let r = ctl.tick(Telemetry::Reading { temp: 72, power_usage: 500, power_limit: 1000 });
    assert_eq!(r, Some(255));
}

#[test]
fn steady_state_commands_once() {
    // five-second interval: a 12-slot window covering one minute
    let capacity = window_capacity(5000);
    assert_eq!(capacity, 12);
    let mut ctl = ControlLoop::new(default_fan_speed_table(), capacity, 50, 500, 1000);
    let reading = Telemetry::Reading { temp: 50, power_usage: 500, power_limit: 1000 };
    let first = ctl.tick(reading);
    // half load reads 95 from the default curve
    assert_eq!(first, Some(95));
    ctl.command_succeeded(95);
    for _ in 0..11 {
        assert_eq!(ctl.tick(reading), None);
    }
}

#[test]
fn telemetry_failure_forces_and_reports_full_speed() {
    let capacity = window_capacity(5000);
    let mut ctl = ControlLoop::new(default_fan_speed_table(), capacity, 50, 500, 1000);
    let reading = Telemetry::Reading { temp: 50, power_usage: 500, power_limit: 1000 };
    assert_eq!(ctl.tick(reading), Some(95));
    ctl.command_succeeded(95);
    // a failed read commands 255 even though nothing else changed
    assert_eq!(ctl.tick(Telemetry::Unavailable), Some(255));
    ctl.command_succeeded(255);
    // but only the transition is reported
    assert_eq!(ctl.tick(Telemetry::Unavailable), None);
    // and the histories were left untouched: good telemetry resumes where
    // it left off, with 95 suppressed against the commanded 255
    assert_eq!(ctl.tick(reading), Some(95));
}

#[test]
fn failure_near_full_speed_still_reported() {
    let curve = FanSpeedTable::new(vec![(100, 250), (900, 250)]).unwrap();
    let mut ctl = ControlLoop::new(curve, 2, 40, 500, 1000);
    let r = ctl.tick(Telemetry::Reading { temp: 40, power_usage: 500, power_limit: 1000 });
    assert_eq!(r, Some(250));
    ctl.command_succeeded(250);
    // 255 is within the band of 250, but the transition into 255 passes
    assert_eq!(ctl.tick(Telemetry::Unavailable), Some(255));
}

#[test]
fn zero_power_limit_counts_as_full_load() {
    let mut ctl = ControlLoop::new(default_fan_speed_table(), 2, 40, 100, 0);
    let r = ctl.tick(Telemetry::Reading { temp: 40, power_usage: 100, power_limit: 0 });
    assert_eq!(r, Some(255));
}

#[test]
fn window_capacity_covers_a_minute() {
    assert_eq!(window_capacity(5000), 12);
    assert_eq!(window_capacity(1000), 60);
    assert_eq!(window_capacity(60000), 1);
    assert_eq!(window_capacity(90000), 1);
    assert_eq!(window_capacity(7000), 9);
    assert_eq!(window_capacity(45000), 2);
    assert_eq!(window_capacity(1), 60000);
}
