use rbe26::calendar::{days_from_civil, parse_timestamp, parse_u32};

#[test]
fn parse_u32_reads_digits() {
    assert_eq!(parse_u32(b"0042"), Some(42));
    assert_eq!(parse_u32(b"2026"), Some(2026));
    assert_eq!(parse_u32(b""), Some(0));
    assert_eq!(parse_u32(b"12a4"), None);
    assert_eq!(parse_u32(b"-1"), None);
    assert_eq!(parse_u32(b"4294967295"), Some(u32::MAX));
}

#[test]
fn days_from_civil_matches_the_calendar() {
    assert_eq!(days_from_civil(1970, 1, 1), 0);
    assert_eq!(days_from_civil(1969, 12, 31), -1);
    assert_eq!(days_from_civil(2000, 3, 1), 11017);
    assert_eq!(days_from_civil(2024, 2, 29), 19782);
    assert_eq!(days_from_civil(2024, 3, 1), 19783);
    assert_eq!(days_from_civil(2026, 3, 11), 20523);
    assert_eq!(days_from_civil(1600, 1, 1), -135140);
}

#[test]
fn days_from_civil_year_lengths() {
    assert_eq!(days_from_civil(2001, 1, 1) - days_from_civil(2000, 1, 1), 366);
    assert_eq!(days_from_civil(1901, 1, 1) - days_from_civil(1900, 1, 1), 365);
    assert_eq!(days_from_civil(2025, 1, 1) - days_from_civil(2024, 1, 1), 366);
    assert_eq!(days_from_civil(2026, 1, 1) - days_from_civil(2025, 1, 1), 365);
}

#[test]
fn parse_timestamp_reads_fields() {
    // 2026-03-11 was a Wednesday (weekday 2, Monday being 0).
    let t = parse_timestamp("2026-03-11T18:45:53Z");
    assert_eq!(t.hour, 18);
    assert_eq!(t.weekday, 2);
    assert_eq!(t.minutes, 20523 * 1440 + 18 * 60 + 45);

    // 2026-03-14 was a Saturday.
    let t = parse_timestamp("2026-03-14T05:15:12Z");
    assert_eq!(t.hour, 5);
    assert_eq!(t.weekday, 5);
}

#[test]
fn parse_timestamp_epoch_is_thursday() {
    let t = parse_timestamp("1970-01-01T00:00:00Z");
    assert_eq!((t.minutes, t.hour, t.weekday), (0, 0, 3));
}

#[test]
fn parse_timestamp_minutes_between() {
    let now = parse_timestamp("2026-03-11T18:45:53Z");
    let last = parse_timestamp("2026-03-11T17:45:53Z");
    assert_eq!(now.minutes - last.minutes, 60);
}

#[test]
fn parse_timestamp_falls_back() {
    for value in ["", "2026-03-11", "2026/03/11T18:45:53Z", "2026-03-11T18:45:53", "20x6-03-11T18:45:53Z"] {
        let t = parse_timestamp(value);
        assert_eq!((t.minutes, t.hour, t.weekday), (0, 0, 3), "{value}");
    }
}
