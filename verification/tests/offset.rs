use tafsk::store::parse_offset;

#[test]
fn utc_offset_is_zero() {
    assert_eq!(parse_offset("+00:00"), Some(0));
}

#[test]
fn negative_offset() {
    assert_eq!(parse_offset("-05:00"), Some(-18000));
}

#[test]
fn half_hour_offset() {
    assert_eq!(parse_offset("+09:30"), Some(9 * 3600 + 30 * 60));
}

#[test]
fn minutes_count() {
    assert_eq!(parse_offset("-00:01"), Some(-60));
}

#[test]
fn out_of_range_fields_are_accepted() {
    assert_eq!(parse_offset("+99:99"), Some(99 * 3600 + 99 * 60));
}

#[test]
fn wrong_length_rejected() {
    assert_eq!(parse_offset(""), None);
    assert_eq!(parse_offset("+0:00"), None);
    assert_eq!(parse_offset("+000:00"), None);
    assert_eq!(parse_offset("+00:00 "), None);
}

#[test]
fn missing_sign_rejected() {
    assert_eq!(parse_offset("00:000"), None);
    assert_eq!(parse_offset("000:00"), None);
}

#[test]
fn misplaced_colon_rejected() {
    assert_eq!(parse_offset("+00-00"), None);
    assert_eq!(parse_offset("+0:0:0"), None);
}

#[test]
fn non_digit_fields_rejected() {
    assert_eq!(parse_offset("+0a:00"), None);
    assert_eq!(parse_offset("+00:0a"), None);
    assert_eq!(parse_offset("+ 0:00"), None);
    assert_eq!(parse_offset("++0:00"), None);
    assert_eq!(parse_offset("+-9:00"), None);
}
