use chrono::{DateTime, TimeDelta, Utc};
use vmstat_valkey::window::{
    assemble_window, is_maintenance_imminent, is_not_after, parse_window, window_from_groups, window_from_match,
    Instant, Window, WindowError, CALENDAR_FIRST, CALENDAR_LAST, DRAIN_WINDOW_SEC,
};

fn report(text: &str) -> Result<Option<Window>, WindowError> {
    parse_window(Some(text.as_bytes().to_vec()))
}

fn at(secs: i64) -> Instant {
    Instant { secs, nanos: 0 }
}

fn lasting(hours: i64, minutes: i64) -> Window {
    Window { start_second: 0, start_nanos: 0, hours, minutes }
}

#[test]
fn window_in_a_report() {
    let text = "Maintenance window is set to Sun *-*-* 03:30:00 Europe/Berlin, lasting 01:45\n";
    assert_eq!(
        report(text),
        Ok(Some(Window { start_second: 12600, start_nanos: 0, hours: 1, minutes: 45 }))
    );
    assert_eq!(
        report("set to x 3:04:05 y, lasting 100:7 hours"),
        Ok(Some(Window { start_second: 11045, start_nanos: 0, hours: 100, minutes: 7 }))
    );
}

#[test]
fn leap_second_in_a_report() {
    assert_eq!(
        report("set to x 23:59:60 y, lasting 0:10"),
        Ok(Some(Window {
            start_second: 86399,
            start_nanos: 1_000_000_000,
            hours: 0,
            minutes: 10
        }))
    );
}

#[test]
fn report_without_a_window() {
    assert_eq!(parse_window(None), Ok(None));
    assert_eq!(report(""), Ok(None));
    assert_eq!(report("Maintenance window is set to 03:30:00, lasting 01:45"), Ok(None));
    assert_eq!(report("set to x\n03:30:00 y, lasting 01:45"), Ok(None));
}

#[test]
fn report_that_cannot_be_read() {
    assert_eq!(parse_window(Some(vec![0xff])), Err(WindowError::NotUtf8));
    assert_eq!(
        report("set to x 03:30:00 y, lasting 9223372036854775808:00"),
        Err(WindowError::Hours)
    );
    assert_eq!(
        report("set to x 03:30:00 y, lasting 01:9223372036854775808"),
        Err(WindowError::Minutes)
    );
    assert_eq!(report("set to x 24:30:00 y, lasting 01:45"), Err(WindowError::Time));
    assert_eq!(report("set to x 03:60:00 y, lasting 01:45"), Err(WindowError::Time));
    // Digits of other scripts match, and are no numbers.
    assert_eq!(report("set to x 03:30:00 y, lasting \u{661}:45"), Err(WindowError::Hours));
}

#[test]
fn window_from_three_texts() {
    assert_eq!(
        window_from_groups("12:00:01", "2", "30"),
        Ok(Window { start_second: 43201, start_nanos: 0, hours: 2, minutes: 30 })
    );
    assert_eq!(window_from_groups("12:00", "2", "30"), Err(WindowError::Time));
    assert_eq!(window_from_groups("12:00", "", "x"), Err(WindowError::Hours));
    assert_eq!(window_from_groups("12:00", "2", "x"), Err(WindowError::Minutes));
}

#[test]
fn window_from_a_time_that_was_read() {
    assert_eq!(
        assemble_window(Some((5, 6)), "7", "-8"),
        Ok(Window { start_second: 5, start_nanos: 6, hours: 7, minutes: -8 })
    );
    assert_eq!(assemble_window(None, "7", "8"), Err(WindowError::Time));
    assert_eq!(assemble_window(None, "7", ""), Err(WindowError::Minutes));
    assert_eq!(assemble_window(Some((5, 6)), "h", ""), Err(WindowError::Hours));
}

#[test]
fn near_between_drain_and_end() {
    let start = at(1_000_000);
    let w = lasting(1, 30);
    let near = |now| is_maintenance_imminent(now, start, &w, DRAIN_WINDOW_SEC);
    assert_eq!(near(Instant { secs: 999_099, nanos: 999_999_999 }), Some(false));
    assert_eq!(near(at(999_100)), Some(true));
    assert_eq!(near(start), Some(true));
    assert_eq!(near(at(1_005_400)), Some(true));
    assert_eq!(near(Instant { secs: 1_005_400, nanos: 1 }), Some(false));
    assert_eq!(DRAIN_WINDOW_SEC, 900);
}

#[test]
fn window_that_the_calendar_does_not_reach() {
    let now = at(0);
    assert_eq!(is_maintenance_imminent(now, at(0), &lasting(i64::MAX, 0), 900), None);
    assert_eq!(is_maintenance_imminent(now, at(0), &lasting(0, i64::MAX), 900), None);
    assert_eq!(is_maintenance_imminent(now, at(CALENDAR_LAST), &lasting(1, 0), 900), None);
    assert_eq!(is_maintenance_imminent(now, at(CALENDAR_FIRST), &lasting(1, 0), 1), None);
    assert_eq!(is_maintenance_imminent(now, at(0), &lasting(1, 0), i64::MIN), None);
    assert_eq!(
        is_maintenance_imminent(now, Instant { secs: 0, nanos: 1_000_000_000 }, &lasting(1, 0), 1),
        None
    );
    assert_eq!(is_maintenance_imminent(now, at(CALENDAR_FIRST), &lasting(1, 0), 0), Some(false));
}

#[test]
fn calendar_is_that_of_chrono() {
    assert_eq!(DateTime::<Utc>::MIN_UTC.timestamp(), CALENDAR_FIRST);
    assert_eq!(DateTime::<Utc>::MAX_UTC.timestamp(), CALENDAR_LAST);
}

/// What the sums and comparisons of `chrono` say.
fn near_by_chrono(now: Instant, start: Instant, w: &Window, drain: i64) -> bool {
    let point = |t: Instant| DateTime::from_timestamp(t.secs, t.nanos).unwrap();
    let begin = point(start);
    let end = begin + TimeDelta::hours(w.hours) + TimeDelta::minutes(w.minutes);
    let drain_start = begin - TimeDelta::seconds(drain);
    point(now) >= drain_start && point(now) <= end
}

#[test]
fn near_is_what_chrono_says() {
    let mut starts = vec![];
    for secs in [59, 119, -1, 86399] {
        for nanos in [0, 5, 999_999_999, 1_000_000_000, 1_500_000_000] {
            starts.push(Instant { secs, nanos });
        }
    }
    for start in starts {
        for (h, m, drain) in [(0, 0, 0), (0, 1, 1), (1, 0, 60), (2, 30, 900), (0, -1, -5)] {
            let w = lasting(h, m);
            for edge in [-drain, 0, 3600 * h, 3600 * h + 60 * m] {
                for d in -2..3 {
                    for nanos in [0, 5, 6, 499_999_999, 500_000_000, 500_000_001, 999_999_999] {
                        let now = Instant { secs: start.secs + edge + d, nanos };
                        assert_eq!(
                            is_maintenance_imminent(now, start, &w, drain),
                            Some(near_by_chrono(now, start, &w, drain)),
                            "{:?} {:?} {:?} {}",
                            now,
                            start,
                            w,
                            drain
                        );
                    }
                }
            }
        }
    }
}

#[test]
fn instants_are_ordered() {
    let a = Instant { secs: 1, nanos: 5 };
    let b = Instant { secs: 1, nanos: 6 };
    let c = Instant { secs: 2, nanos: 0 };
    assert!(is_not_after(a, a));
    assert!(is_not_after(a, b));
    assert!(!is_not_after(b, a));
    assert!(is_not_after(b, c));
    assert!(!is_not_after(c, b));
}

fn groups(texts: &[Option<&str>]) -> Option<Vec<Option<String>>> {
    Some(texts.iter().map(|t| t.map(String::from)).collect())
}

#[test]
fn window_from_the_groups_of_a_match() {
    let whole = Some("whole");
    let (time, hours, minutes) = (Some("01:00:00"), Some("2"), Some("3"));
    assert_eq!(
        window_from_match(groups(&[whole, time, hours, minutes])),
        Ok(Some(Window { start_second: 3600, start_nanos: 0, hours: 2, minutes: 3 }))
    );
    assert_eq!(window_from_match(None), Ok(None));
    let missing = Err(WindowError::MissingGroup);
    assert_eq!(window_from_match(groups(&[])), missing);
    assert_eq!(window_from_match(groups(&[whole, time, hours])), missing);
    assert_eq!(window_from_match(groups(&[whole, None, hours, minutes])), missing);
    assert_eq!(window_from_match(groups(&[whole, time, None, minutes])), missing);
    assert_eq!(window_from_match(groups(&[whole, time, hours, None])), missing);
    assert_eq!(
        window_from_match(groups(&[whole, time, Some("x"), minutes])),
        Err(WindowError::Hours)
    );
    assert_eq!(
        window_from_match(groups(&[whole, Some("x"), hours, minutes])),
        Err(WindowError::Time)
    );
}

fn start_of(time: &str) -> Option<(u32, u32)> {
    window_from_groups(time, "0", "0").ok().map(|w| (w.start_second, w.start_nanos))
}

#[test]
fn time_of_day_reads_back() {
    for h in 0..24u32 {
        for m in 0..60u32 {
            for s in 0..60u32 {
                let text = format!("{:02}:{:02}:{:02}", h, m, s);
                assert_eq!(start_of(&text), Some((3600 * h + 60 * m + s, 0)));
            }
        }
    }
}

#[test]
fn time_of_day_in_other_forms() {
    assert_eq!(start_of("1:2:3"), Some((3723, 0)));
    assert_eq!(start_of("\u{3000}1: \t2:\n03"), Some((3723, 0)));
    assert_eq!(start_of("00:00:60"), Some((59, 1_000_000_000)));
    assert_eq!(start_of("23:59:60"), Some((86399, 1_000_000_000)));
    for text in [
        "", ":", "::", "1:2", "1:2:", ":2:3", "1::3", "24:00:00", "00:60:00", "00:00:61",
        "001:02:03", "1:002:3", "1:2:003", "1 :2:3", "1:2:3 ", "+1:2:3", "-1:2:3", "1:2:3:4",
        "1:2:3.5", "\u{661}:2:3", "1:2:\u{663}", "1;2;3", "a:b:c",
    ] {
        assert_eq!(start_of(text), None, "{}", text);
    }
}
