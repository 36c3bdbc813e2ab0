use read_jeelink::{Frame, FrameError};

fn decode(s: &str) -> Result<Frame, FrameError> {
    Frame::from_str(s)
}

#[test]
fn documented_reading() {
    let f = decode("50 1 4 193 65").unwrap();
    assert_eq!(f.id, 50);
    assert!(!f.new_battery);
    assert_eq!(f.sensor_type, 1);
    assert_eq!(f.temperature_tenths, 217);
    assert_eq!(f.temperature_tenths as f32 / 10.0, 21.7f32);
    assert!(!f.weak_battery);
    assert_eq!(f.humidity, 65);
}

#[test]
fn battery_bits_and_humidity() {
    let f = decode("7 130 4 189 200").unwrap();
    assert_eq!(f.id, 7);
    assert!(f.new_battery);
    assert_eq!(f.sensor_type, 2);
    assert_eq!(f.temperature_tenths, 213);
    assert!(f.weak_battery);
    assert_eq!(f.humidity, 72);
}

#[test]
fn temperature_below_zero() {
    let f = decode("1 1 3 200 0").unwrap();
    assert_eq!(f.temperature_tenths, -32);
    assert_eq!(f.temperature_tenths as f32 / 10.0, -3.2f32);
}

#[test]
fn temperature_wraps_at_sixteen_bits() {
    let f = decode("1 1 255 65535 0").unwrap();
    assert_eq!(f.temperature_tenths, 64279);
}

#[test]
fn leading_zeros_are_accepted() {
    let f = decode("0050 001 4 193 065").unwrap();
    assert_eq!(f.id, 50);
    assert_eq!(f.humidity, 65);
}

#[test]
fn decoding_twice_gives_the_same_reading() {
    assert_eq!(decode("58 1 4 189 67"), decode("58 1 4 189 67"));
}

#[test]
fn parse_goes_through_from_str() {
    let f: Frame = "50 1 4 193 65".parse().unwrap();
    assert_eq!(f, decode("50 1 4 193 65").unwrap());
}

#[test]
fn too_few_fields_fail_validation() {
    assert_eq!(decode("50 1 4 193"), Err(FrameError::NotValid));
    assert_eq!(decode(""), Err(FrameError::NotValid));
}

#[test]
fn too_many_fields_fail_validation() {
    assert_eq!(decode("50 1 4 193 65 1"), Err(FrameError::NotValid));
}

#[test]
fn foreign_characters_fail_validation() {
    assert_eq!(decode("junk"), Err(FrameError::NotValid));
    assert_eq!(decode("50 1 4 19x 65"), Err(FrameError::NotValid));
    assert_eq!(decode("50 1 4 193 +5"), Err(FrameError::NotValid));
}

#[test]
fn four_fields_with_a_double_space_fail_validation() {
    assert_eq!(decode("1  2 3 4"), Err(FrameError::NotValid));
    assert_eq!(decode("50  4 193 65"), Err(FrameError::NotValid));
    assert_eq!(decode("   "), Err(FrameError::NotValid));
}

#[test]
fn any_whitespace_run_separates_fields() {
    let expected = decode("50 1 4 193 65").unwrap();
    assert_eq!(decode("50\t1 4 193 65"), Ok(expected));
    assert_eq!(decode("50  1 4   193 65"), Ok(expected));
    assert_eq!(decode("50 1 4\r193\r65"), Ok(expected));
    assert_eq!(decode(" 50 1 4 193 65\n"), Ok(expected));
    let f = decode("1  2 3 4 5").unwrap();
    assert_eq!((f.id, f.sensor_type, f.temperature_tenths, f.humidity), (1, 2, -228, 5));
}

#[test]
fn out_of_range_fields_cannot_be_parsed() {
    assert_eq!(decode("256 1 4 193 65"), Err(FrameError::CannotParse));
    assert_eq!(decode("50 256 4 193 65"), Err(FrameError::CannotParse));
    assert_eq!(decode("50 1 65536 193 65"), Err(FrameError::CannotParse));
    assert_eq!(decode("50 1 4 65536 65"), Err(FrameError::CannotParse));
    assert_eq!(decode("50 1 4 193 256"), Err(FrameError::CannotParse));
}
