use blindcoder::dates::{date_to_epoch_days, day_of, format_expiry, format_hour};

#[test]
fn dates_count_days_from_the_epoch() {
    assert_eq!(date_to_epoch_days("1970-01-01"), Some(0));
    assert_eq!(date_to_epoch_days("1969-12-31"), Some(-1));
    assert_eq!(date_to_epoch_days("1970-12-31"), Some(364));
    assert_eq!(date_to_epoch_days("2000-02-29"), Some(11016));
    assert_eq!(date_to_epoch_days("2026-08-23"), Some(20688));
    assert_eq!(date_to_epoch_days("0000-01-01"), Some(-719528));
    assert_eq!(date_to_epoch_days("9999-12-31"), Some(2932896));
}

#[test]
fn only_real_dates_are_read() {
    for bad in [
        "soon", "", "2026-8-23", "2026-13-01", "2026-00-10", "2026-02-29", "1900-02-29",
        "2026-04-31", "2026-01-00", "2026/01/01", "2026-01-011", "+026-01-01", "２026-01-01",
    ] {
        assert_eq!(date_to_epoch_days(bad), None, "{bad}");
    }
}

#[test]
fn dates_read_back_as_written() {
    for day in ["1970-01-01", "1969-12-31", "2000-02-29", "2026-12-01", "0001-01-01", "9999-12-31"] {
        assert_eq!(format_expiry(date_to_epoch_days(day).unwrap()), day);
    }
    let mut day: i64 = -800_000;
    while day < 3_000_000 {
        let text = format_expiry(day);
        if let Some(n) = date_to_epoch_days(&text) {
            assert_eq!(n, day);
        }
        day += 997;
    }
}

#[test]
fn days_out_of_range_are_shown_as_counts() {
    assert_eq!(format_expiry(i64::MAX), i64::MAX.to_string());
    assert_eq!(format_expiry(i64::MIN), i64::MIN.to_string());
}

#[test]
fn moments_lie_in_days_and_hours() {
    assert_eq!((day_of(0), day_of(86_399), day_of(86_400)), (0, 0, 1));
    assert_eq!((day_of(-1), day_of(-86_400), day_of(-86_401)), (-1, -1, -2));
    assert_eq!(day_of(i64::MIN), i64::MIN.div_euclid(86_400));
    assert_eq!(format_hour(0), "1970-01-01T00");
    assert_eq!(format_hour(3_599), "1970-01-01T00");
    assert_eq!(format_hour(-1), "1969-12-31T23");
    let noon = date_to_epoch_days("2026-08-23").unwrap() * 86_400 + 12 * 3_600;
    assert_eq!(format_hour(noon + 61), "2026-08-23T12");
    // Moments that no date renders are still told by hour.
    assert_eq!(format_hour(i64::MAX), format_hour(i64::MAX - 1));
}
