use rsou::time::{civil_clock, civil_time, format_local_time, format_time, pad, ClockTime};

#[test]
fn formats_known_timestamp() {
    let ms = 1_735_689_600_000i64;
    let local = ClockTime { year: 2025, month: 1, day: 1, hour: 8, minute: 0 };
    for text in [format_local_time(ms, None), format_local_time(ms, Some(local))] {
        assert_eq!(text.len(), 16);
        assert_eq!(&text[4..5], "-");
        assert_eq!(&text[13..14], ":");
    }
}

#[test]
fn civil_algorithm_matches_epoch() {
    assert_eq!(civil_time(0), "1970-01-01 00:00");
    assert_eq!(civil_time(1_735_689_600_000), "2025-01-01 00:00");
}

#[test]
fn utc8_offset_shifts_known_timestamp() {
    assert_eq!(format_local_time(1_735_689_600_000, None), "2025-01-01 08:00");
    let local = ClockTime { year: 2024, month: 12, day: 31, hour: 19, minute: 5 };
    let text = format_local_time(1_735_689_600_000, Some(local));
    assert_eq!(text.len(), 16);
    assert_eq!(text, "2024-12-31 19:05");
}

#[test]
fn days_follow_the_calendar() {
    let day = 86_400_000i64;
    let (mut year, mut month, mut date) = (1968i64, 1u32, 1u32);
    for n in -731..20_000i64 {
        let clock = civil_clock(n * day);
        assert_eq!((clock.year, clock.month, clock.day), (year, month, date), "{n}");
        let leap = year % 4 == 0 && (year % 100 != 0 || year % 400 == 0);
        let last = match month {
            2 => if leap { 29 } else { 28 },
            4 | 6 | 9 | 11 => 30,
            _ => 31,
        };
        if date < last {
            date += 1;
        } else if month < 12 {
            month += 1;
            date = 1;
        } else {
            year += 1;
            month = 1;
            date = 1;
        }
    }
}

#[test]
fn times_before_the_epoch() {
    assert_eq!(civil_time(-1), "1969-12-31 23:59");
    assert_eq!(civil_time(-86_400_000), "1969-12-31 00:00");
    assert_eq!(civil_time(951_782_399_999), "2000-02-28 23:59");
    assert_eq!(civil_time(951_782_400_000), "2000-02-29 00:00");
}

#[test]
fn extreme_times_have_a_date() {
    assert_eq!(civil_clock(i64::MAX).year, 292_278_994);
    assert_eq!(civil_clock(i64::MIN).year, -292_275_055);
}

#[test]
fn numbers_are_padded() {
    assert_eq!(pad(7, 2), "07");
    assert_eq!(pad(123, 2), "123");
    let t = ClockTime { year: 33, month: 2, day: 3, hour: 4, minute: 5 };
    assert_eq!(format_time(&t), format!("{:04}-{:02}-{:02} {:02}:{:02}", 33, 2, 3, 4, 5));
    let t = ClockTime { year: -7, month: 12, day: 31, hour: 23, minute: 59 };
    assert_eq!(format_time(&t), format!("{:04}-{:02}-{:02} {:02}:{:02}", -7, 12, 31, 23, 59));
}
