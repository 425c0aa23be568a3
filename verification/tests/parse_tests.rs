use fan_controller::curve::{default_fan_speed_table, FanSpeedTable};
use fan_controller::parse::{parse_fan_speed_table, ParseError};

#[test]
fn parses_default_curve_encoding() {
    let parsed = parse_fan_speed_table(b"0.3:0,0.4:70,0.6:120,0.7:170,0.8:210,0.95:255").unwrap();
    let built = default_fan_speed_table();
    for load in 0..=1100i64 {
        assert_eq!(parsed.lookup_speed(load), built.lookup_speed(load));
    }
}

#[test]
fn parses_unsorted_encoding() {
    let parsed = parse_fan_speed_table(b"0.6:120,0.3:0").unwrap();
    let built = FanSpeedTable::new(vec![(300, 0), (600, 120)]).unwrap();
    for load in 0..=1100i64 {
        assert_eq!(parsed.lookup_speed(load), built.lookup_speed(load));
    }
}

#[test]
fn parses_assorted_number_shapes() {
    // a bare integer, a trailing dot, and a leading dot are all decimals
    let t = parse_fan_speed_table(b".5:100").unwrap();
    let u = FanSpeedTable::new(vec![(500, 100)]).unwrap();
    assert_eq!(t.lookup_speed(250), u.lookup_speed(250));
    assert!(parse_fan_speed_table(b"1:255").is_ok());
    assert!(parse_fan_speed_table(b"1.:255").is_ok());
    assert!(parse_fan_speed_table(b"0.950:255").is_ok());
    assert!(parse_fan_speed_table(b"007:007").is_err());
    assert!(parse_fan_speed_table(b"0.5:007").is_ok());
}

#[test]
fn fractional_digits_beyond_thousandths_are_ignored() {
    // 0.1234 and 0.123 both read as 123 thousandths, so they collide
    let r = parse_fan_speed_table(b"0.1234:10,0.123:20");
    assert_eq!(r.unwrap_err(), ParseError::DuplicateLoad);
}

#[test]
fn missing_separator_reports_entry() {
    assert_eq!(
        parse_fan_speed_table(b"abc").unwrap_err(),
        ParseError::MissingSeparator { entry: 0 }
    );
    assert_eq!(
        parse_fan_speed_table(b"").unwrap_err(),
        ParseError::MissingSeparator { entry: 0 }
    );
    assert_eq!(
        parse_fan_speed_table(b"0.5:100,xyz").unwrap_err(),
        ParseError::MissingSeparator { entry: 1 }
    );
}

#[test]
fn bad_load_reports_entry() {
    assert_eq!(
        parse_fan_speed_table(b"x:5").unwrap_err(),
        ParseError::BadLoad { entry: 0 }
    );
    assert_eq!(
        parse_fan_speed_table(b"-0.5:100").unwrap_err(),
        ParseError::BadLoad { entry: 0 }
    );
    assert_eq!(
        parse_fan_speed_table(b".:10").unwrap_err(),
        ParseError::BadLoad { entry: 0 }
    );
    assert_eq!(
        parse_fan_speed_table(b"0.2:10,0..3:20").unwrap_err(),
        ParseError::BadLoad { entry: 1 }
    );
    assert_eq!(
        parse_fan_speed_table(b":10").unwrap_err(),
        ParseError::BadLoad { entry: 0 }
    );
}

#[test]
fn load_above_one_is_out_of_range() {
    assert_eq!(
        parse_fan_speed_table(b"1.5:100").unwrap_err(),
        ParseError::LoadOutOfRange { entry: 0 }
    );
    assert_eq!(
        parse_fan_speed_table(b"2:1").unwrap_err(),
        ParseError::LoadOutOfRange { entry: 0 }
    );
    assert_eq!(
        parse_fan_speed_table(b"0.5:100,1.001:1").unwrap_err(),
        ParseError::LoadOutOfRange { entry: 1 }
    );
    assert_eq!(
        parse_fan_speed_table(b"99999999999999999999:1").unwrap_err(),
        ParseError::LoadOutOfRange { entry: 0 }
    );
}

#[test]
fn bad_speed_reports_entry() {
    assert_eq!(
        parse_fan_speed_table(b"0.5:abc").unwrap_err(),
        ParseError::BadSpeed { entry: 0 }
    );
    assert_eq!(
        parse_fan_speed_table(b"0.5:300").unwrap_err(),
        ParseError::BadSpeed { entry: 0 }
    );
    assert_eq!(
        parse_fan_speed_table(b"0.5:").unwrap_err(),
        ParseError::BadSpeed { entry: 0 }
    );
    assert_eq!(
        parse_fan_speed_table(b"0.5:1:2").unwrap_err(),
        ParseError::BadSpeed { entry: 0 }
    );
    assert_eq!(
        parse_fan_speed_table(b"0.5:2.5").unwrap_err(),
        ParseError::BadSpeed { entry: 0 }
    );
}

#[test]
fn duplicate_loads_rejected() {
    assert_eq!(
        parse_fan_speed_table(b"0.5:100,0.5:200").unwrap_err(),
        ParseError::DuplicateLoad
    );
}

#[test]
fn first_error_wins() {
    assert_eq!(
        parse_fan_speed_table(b"x:5,1.5:100").unwrap_err(),
        ParseError::BadLoad { entry: 0 }
    );
}
