use tafsk::datetime::DateTime;

fn fields(dt: &DateTime) -> (i32, u8, u8, u8, u8, u8) {
    (dt.year, dt.month, dt.day, dt.hour, dt.minute, dt.second)
}

#[test]
fn epoch_is_known() {
    let dt = DateTime::new(0, 0);
    assert_eq!(fields(&dt), (1970, 1, 1, 0, 0, 0));
}

#[test]
fn last_second_of_epoch_day() {
    let dt = DateTime::new(86399, 0);
    assert_eq!(fields(&dt), (1970, 1, 1, 23, 59, 59));
}

#[test]
fn negative_offset_crosses_day_boundary() {
    let dt = DateTime::new(0, -3600);
    assert_eq!(fields(&dt), (1969, 12, 31, 23, 0, 0));
}

#[test]
fn positive_offset_shifts_forward() {
    let dt = DateTime::new(86400 + 3600, -7200);
    assert_eq!(fields(&dt), (1970, 1, 1, 23, 0, 0));
}

#[test]
fn modern_timestamp() {
    let dt = DateTime::new(1_700_000_000, 0);
    assert_eq!(fields(&dt), (2023, 11, 14, 22, 13, 20));
}

#[test]
fn leap_day() {
    let dt = DateTime::new(951_782_400, 0);
    assert_eq!(fields(&dt), (2000, 2, 29, 0, 0, 0));
}

#[test]
fn format_is_fixed_width() {
    assert_eq!(DateTime::new(0, 0).format(), "19700101-000000");
    assert_eq!(DateTime::new(951_782_400, 0).format(), "20000229-000000");
    assert_eq!(DateTime::new(1_700_000_000, 0).format(), "20231114-221320");
}

#[test]
fn format_sorts_chronologically() {
    let a = DateTime::new(999_999_999, 0).format();
    let b = DateTime::new(1_000_000_000, 0).format();
    assert!(a < b);
}

#[test]
fn format_pads_year_before_1000() {
    let dt = DateTime {
        year: 7,
        month: 3,
        day: 4,
        hour: 5,
        minute: 6,
        second: 7,
    };
    assert_eq!(dt.format(), "00070304-050607");
}
