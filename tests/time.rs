use fast_down_gui::fmt::format_time;

#[test]
fn test_format_time() {
    assert_eq!(format_time(0), "00:00:00");
    assert_eq!(format_time(59), "00:00:59");
    assert_eq!(format_time(60), "00:01:00");
    assert_eq!(format_time(3599), "00:59:59");
    assert_eq!(format_time(3600), "01:00:00");
    assert_eq!(format_time(3661), "01:01:01");
    assert_eq!(format_time(86399), "23:59:59");
    assert_eq!(format_time(86400), "1d 00:00:00");
    assert_eq!(format_time(86401), "1d 00:00:01");
    assert_eq!(format_time(95400), "1d 02:30:00");
    assert_eq!(format_time(8726399), "100d 23:59:59");
}

#[test]
fn time_test_format_time() {
    assert_eq!(format_time(0), "00:00:00");
    assert_eq!(format_time(59), "00:00:59");
    assert_eq!(format_time(60), "00:01:00");
    assert_eq!(format_time(3599), "00:59:59");
    assert_eq!(format_time(3600), "01:00:00");
    assert_eq!(format_time(3661), "01:01:01");
    assert_eq!(format_time(86399), "23:59:59");
    assert_eq!(format_time(86400), "1d 00:00:00");
    assert_eq!(format_time(86401), "1d 00:00:01");
    assert_eq!(format_time(95400), "1d 02:30:00");
    assert_eq!(format_time(8726399), "100d 23:59:59");
}

#[test]
fn format_time_large_day_counts() {
    assert_eq!(format_time(864000), "10d 00:00:00");
    assert_eq!(format_time(u64::MAX), "213503982334601d 07:00:15");
}
