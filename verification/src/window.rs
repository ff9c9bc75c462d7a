//! The maintenance window that `rebootmgrctl get-window` reports, and whether it is near.
use vstd::prelude::*;
use vstd::utf8::*;

use crate::encoding::strict_text;
use crate::text::{
    all_digits, chars_of, decimal, digits_value, is_digit, is_space, law_decimal_reads_back,
    law_no_number_in_text, law_numbers_in_text, lemma_decimal, lemma_trim_front, parse_i64,
    signed_decimal, signed_value, trim_front, within,
};

verus! {

/// How the report names a window: behind a date, a time of day; behind that, hours and minutes.
pub const WINDOW_PATTERN: &'static str =
    "set to .+ (\\d+:\\d+:\\d+) .+, lasting (\\d+):(\\d+)";

/// How the time of day is written.
pub const TIME_FORMAT: &'static str = "%H:%M:%S";

/// For how many seconds in front of a window a host is drained.
pub const DRAIN_WINDOW_SEC: i64 = 900;

/// The error that `regex` reports for a pattern.
#[verifier::external_type_specification]
#[verifier::external_body]
pub struct ExRegexError(regex::Error);

/// The error that `chrono` reports for a text that is no time.
#[verifier::external_type_specification]
#[verifier::external_body]
pub struct ExChronoParseError(chrono::ParseError);

/// Whether `regex::Regex::new` takes a pattern.
pub uninterp spec fn regex_takes(pattern: Seq<char>) -> bool;

/// What `regex::Regex::captures` finds in a text: the groups of the first match of a pattern, the
/// whole match first, `None` for a group that takes no part in it.
pub uninterp spec fn regex_groups(pattern: Seq<char>, text: Seq<char>) -> Option<
    Seq<Option<Seq<char>>>,
>;

/// What the groups hold.
pub open spec fn group_views(groups: Seq<Option<String>>) -> Seq<Option<Seq<char>>> {
    groups.map_values(
        |g: Option<String>|
            match g {
                Some(s) => Some(s@),
                None => None,
            },
    )
}

/// Calls `regex::Regex::new` on the pattern and `regex::Regex::captures` of that on the text. The
/// first fails for some patterns and not for others; what the second finds depends on the pattern
/// and the text alone.
#[verifier::external_body]
fn capture(pattern: &str, text: &str) -> (r: Result<Option<Vec<Option<String>>>, regex::Error>)
    ensures
        match r {
            Ok(Some(groups)) => regex_takes(pattern@) && regex_groups(pattern@, text@) == Some(
                group_views(groups@),
            ),
            Ok(None) => regex_takes(pattern@) && regex_groups(pattern@, text@) is None,
            Err(_) => !regex_takes(pattern@),
        },
{
    let found = regex::Regex::new(pattern)?;
    Ok(
        found.captures(text).map(
            |groups| groups.iter().map(|g| g.map(|m| m.as_str().to_string())).collect(),
        ),
    )
}

/// How many characters stand in front of the first colon; all of them where there is no colon.
pub open spec fn colon_at(t: Seq<char>) -> nat
    decreases t.len(),
{
    if t.len() == 0 || t[0] == ':' {
        0
    } else {
        1 + colon_at(t.skip(1))
    }
}

/// The number that a part of a time holds, no larger than `max`: one digit or two, with nothing but
/// white space in front.
pub open spec fn clock_number(part: Seq<char>, max: int) -> Option<int> {
    let digits = trim_front(part);
    if all_digits(digits) && digits.len() <= 2 && digits_value(digits) <= max {
        Some(digits_value(digits))
    } else {
        None
    }
}

/// The time of day that a text such as `12:34:56` names: the second of the day, and the nanoseconds
/// on top of it. The sixtieth second of a minute is a leap second, which is told as a whole second
/// on top of the last one.
pub open spec fn clock_time(text: Seq<char>) -> Option<(u32, u32)> {
    let behind_hour = text.skip(colon_at(text) as int + 1);
    let behind_minute = behind_hour.skip(colon_at(behind_hour) as int + 1);
    if colon_at(text) == text.len() || colon_at(behind_hour) == behind_hour.len() {
        None
    } else {
        match (
            clock_number(text.take(colon_at(text) as int), 23),
            clock_number(behind_hour.take(colon_at(behind_hour) as int), 59),
            clock_number(behind_minute, 60),
        ) {
            (Some(h), Some(m), Some(s)) => if s == 60 {
                Some(((3600 * h + 60 * m + 59) as u32, 1_000_000_000))
            } else {
                Some(((3600 * h + 60 * m + s) as u32, 0))
            },
            _ => None,
        }
    }
}

/// Calls `chrono::NaiveTime::parse_from_str` with the format `TIME_FORMAT`. It takes just the texts
/// that `clock_time` takes, and reads the same time of day in them.
#[verifier::external_body]
fn parse_time(text: &str, format: &str) -> (r: Result<(u32, u32), chrono::ParseError>)
    requires
        format@ == TIME_FORMAT@,
    ensures
        match r {
            Ok(time) => clock_time(text@) == Some(time),
            Err(_) => clock_time(text@) is None,
        },
{
    let t = chrono::NaiveTime::parse_from_str(text, format)?;
    Ok(
        (
            chrono::Timelike::num_seconds_from_midnight(&t),
            chrono::Timelike::nanosecond(&t),
        ),
    )
}

/// A maintenance window: when in the day it starts, and how long it lasts.
#[derive(Clone, Copy, Debug, PartialEq, Eq, Structural)]
pub struct Window {
    /// The second of the day.
    pub start_second: u32,
    /// Nanoseconds on top of it; a second or more for a leap second.
    pub start_nanos: u32,
    pub hours: i64,
    pub minutes: i64,
}

/// Why a report could not be read.
#[derive(Clone, Copy, Debug, PartialEq, Eq, Structural)]
pub enum WindowError {
    /// The report is not UTF-8.
    NotUtf8,
    /// The pattern was not taken.
    Pattern,
    /// The pattern matched without one of its groups.
    MissingGroup,
    /// The hours are no 64-bit integer.
    Hours,
    /// The minutes are no 64-bit integer.
    Minutes,
    /// The start is no time of day.
    Time,
}

/// The 64-bit integer that a text stands for.
pub open spec fn integer_in(text: Seq<char>) -> Option<int> {
    within(signed_value(text), i64::MIN as int, i64::MAX as int)
}

/// The window that a report names by these texts, where `time` is what the first of them was read
/// as.
pub open spec fn window_of(time: Option<(u32, u32)>, hours: Seq<char>, minutes: Seq<char>) -> Result<
    Window,
    WindowError,
> {
    match (integer_in(hours), integer_in(minutes), time) {
        (None, _, _) => Err(WindowError::Hours),
        (Some(_), None, _) => Err(WindowError::Minutes),
        (Some(_), Some(_), None) => Err(WindowError::Time),
        (Some(h), Some(m), Some((second, nanos))) => Ok(
            Window {
                start_second: second,
                start_nanos: nanos,
                hours: h as i64,
                minutes: m as i64,
            },
        ),
    }
}

/// Puts a window together from a time that was read, or could not be, and the texts for hours and
/// minutes.
pub fn assemble_window(time: Option<(u32, u32)>, hours: &str, minutes: &str) -> (r: Result<
    Window,
    WindowError,
>)
    ensures
        r == window_of(time, hours@, minutes@),
{
    let h: i64 = match parse_i64(chars_of(hours).as_slice()) {
        Some(n) => n,
        None => {
            return Err(WindowError::Hours);
        },
    };
    let m: i64 = match parse_i64(chars_of(minutes).as_slice()) {
        Some(n) => n,
        None => {
            return Err(WindowError::Minutes);
        },
    };
    match time {
        Some((start_second, start_nanos)) => Ok(
            Window { start_second, start_nanos, hours: h, minutes: m },
        ),
        None => Err(WindowError::Time),
    }
}

/// What the groups of a match amount to. Groups that the window is not put together from are passed
/// over.
pub open spec fn grouped_window(groups: Seq<Option<Seq<char>>>) -> Result<Window, WindowError> {
    if has_groups(groups) {
        window_of(clock_time(groups[1]->0), groups[2]->0, groups[3]->0)
    } else {
        Err(WindowError::MissingGroup)
    }
}

/// Whether a match has the three groups that a window is put together from.
pub open spec fn has_groups(groups: Seq<Option<Seq<char>>>) -> bool {
    groups.len() > 3 && groups[1] is Some && groups[2] is Some && groups[3] is Some
}

/// The window that a report names by the texts of a match.
pub fn window_from_groups(time: &str, hours: &str, minutes: &str) -> (r: Result<
    Window,
    WindowError,
>)
    ensures
        r == window_of(clock_time(time@), hours@, minutes@),
{
    let parsed = match parse_time(time, TIME_FORMAT) {
        Ok(t) => Some(t),
        Err(_) => None,
    };
    assemble_window(parsed, hours, minutes)
}

/// What a match of the pattern says of the window; no window where there is no match.
pub open spec fn matched_window(found: Option<Seq<Option<Seq<char>>>>) -> Result<
    Option<Window>,
    WindowError,
> {
    match found {
        None => Ok(None),
        Some(groups) => match grouped_window(groups) {
            Ok(w) => Ok(Some(w)),
            Err(e) => Err(e),
        },
    }
}

/// What was found in a text.
pub open spec fn found_view(found: Option<Vec<Option<String>>>) -> Option<Seq<Option<Seq<char>>>> {
    match found {
        Some(groups) => Some(group_views(groups@)),
        None => None,
    }
}

/// Reads the window out of the groups of a match, the whole match first.
pub fn window_from_match(found: Option<Vec<Option<String>>>) -> (r: Result<
    Option<Window>,
    WindowError,
>)
    ensures
        r == matched_window(found_view(found)),
{
    let groups = match found {
        Some(g) => g,
        None => {
            return Ok(None);
        },
    };
    let ghost views = group_views(groups@);
    proof {
        assert(views.len() == groups@.len());
    }
    if groups.len() < 4 {
        return Err(WindowError::MissingGroup);
    }
    proof {
        assert(views[1] == group_views(groups@)[1]);
        assert(views[2] == group_views(groups@)[2]);
        assert(views[3] == group_views(groups@)[3]);
    }
    match (&groups[1], &groups[2], &groups[3]) {
        (Some(time), Some(hours), Some(minutes)) => match window_from_groups(
            time.as_str(),
            hours.as_str(),
            minutes.as_str(),
        ) {
            Ok(w) => Ok(Some(w)),
            Err(e) => Err(e),
        },
        _ => Err(WindowError::MissingGroup),
    }
}

/// What the output of `rebootmgrctl get-window` says of the window. There is none where the command
/// could not be run, or where its output does not match.
pub open spec fn reported_window(output: Option<Seq<u8>>) -> Result<Option<Window>, WindowError> {
    match output {
        None => Ok(None),
        Some(bytes) => if !valid_utf8(bytes) {
            Err(WindowError::NotUtf8)
        } else if !regex_takes(WINDOW_PATTERN@) {
            Err(WindowError::Pattern)
        } else {
            matched_window(regex_groups(WINDOW_PATTERN@, decode_utf8(bytes)))
        },
    }
}

/// The output that a vector holds.
pub open spec fn output_view(output: Option<Vec<u8>>) -> Option<Seq<u8>> {
    match output {
        Some(v) => Some(v@),
        None => None,
    }
}

/// Reads the window out of the output of `rebootmgrctl get-window`; `None` for a command that could
/// not be run.
pub fn parse_window(output: Option<Vec<u8>>) -> (r: Result<Option<Window>, WindowError>)
    ensures
        r == reported_window(output_view(output)),
{
    let bytes = match output {
        Some(v) => v,
        None => {
            return Ok(None);
        },
    };
    let text = match strict_text(bytes) {
        Some(s) => s,
        None => {
            return Err(WindowError::NotUtf8);
        },
    };
    match capture(WINDOW_PATTERN, text.as_str()) {
        Ok(found) => window_from_match(found),
        Err(_) => Err(WindowError::Pattern),
    }
}

/// `n` in two digits.
pub open spec fn two_digits(n: int) -> Seq<char> {
    if n < 10 {
        seq!['0'] + decimal(n as nat)
    } else {
        decimal(n as nat)
    }
}

proof fn lemma_two_digits(n: int, max: int, rest: Seq<char>)
    requires
        0 <= n <= max < 100,
    ensures
        clock_number(two_digits(n), max) == Some(n),
        colon_at(two_digits(n) + seq![':'] + rest) == 2,
        two_digits(n).len() == 2,
{
    let d = two_digits(n);
    reveal_with_fuel(decimal, 3);
    reveal_with_fuel(digits_value, 3);
    reveal_with_fuel(colon_at, 4);
    assert(d.len() == 2);
    assert(is_digit(d[0]) && is_digit(d[1]));
    assert(trim_front(d) == d);
    assert(d.drop_last().drop_last() == Seq::<char>::empty());
    assert(digits_value(d) == n);
    assert(all_digits(d));
    let t = d + seq![':'] + rest;
    assert(t.skip(1).skip(1)[0] == ':');
    assert(t.skip(1)[0] == d[1]);
    assert(t[0] == d[0]);
}

/// Every second of the day reads back from the time of day that it is written as.
pub proof fn law_time_of_day_reads_back(h: int, m: int, s: int)
    requires
        0 <= h < 24,
        0 <= m < 60,
        0 <= s < 60,
    ensures
        clock_time(two_digits(h) + seq![':'] + (two_digits(m) + seq![':'] + two_digits(s)))
            == Some(((3600 * h + 60 * m + s) as u32, 0u32)),
{
    let behind_minute = two_digits(s);
    let behind_hour = two_digits(m) + seq![':'] + behind_minute;
    let text = two_digits(h) + seq![':'] + behind_hour;
    lemma_two_digits(h, 23, behind_hour);
    lemma_two_digits(m, 59, behind_minute);
    lemma_two_digits(s, 60, Seq::empty());
    assert(text.take(2) == two_digits(h));
    assert(text.skip(3) == behind_hour);
    assert(behind_hour.take(2) == two_digits(m));
    assert(behind_hour.skip(3) == behind_minute);
}

/// A point in time: seconds since the start of 1970 in UTC, and nanoseconds on top of them; a second
/// or more of them for a leap second.
#[derive(Clone, Copy, Debug, PartialEq, Eq, Structural)]
pub struct Instant {
    pub secs: i64,
    pub nanos: u32,
}

/// The first second of the calendar of `chrono`.
pub const CALENDAR_FIRST: i64 = -8334601228800;

/// The last second of the calendar of `chrono`.
pub const CALENDAR_LAST: i64 = 8210266876799;

/// Whether the calendar of `chrono` has the instant.
pub open spec fn in_calendar(t: Instant) -> bool {
    &&& CALENDAR_FIRST <= t.secs <= CALENDAR_LAST
    &&& t.nanos < 1_000_000_000 || (t.nanos < 2_000_000_000 && t.secs % 60 == 59)
}

/// The second and the nanoseconds that lie `delta` seconds from an instant. A leap second counts as
/// the second behind it when time is taken off, and as the second that it follows when time is put
/// on.
pub open spec fn moved(t: Instant, delta: int) -> (int, int) {
    if t.nanos < 1_000_000_000 || delta == 0 {
        (t.secs + delta, t.nanos as int)
    } else if delta > 0 {
        (t.secs + delta, t.nanos - 1_000_000_000)
    } else {
        (t.secs + 1 + delta, t.nanos - 1_000_000_000)
    }
}

/// The instant `delta` seconds from another, if the calendar has both.
pub open spec fn shifted(t: Instant, delta: int) -> Option<Instant> {
    let (secs, nanos) = moved(t, delta);
    if in_calendar(t) && CALENDAR_FIRST <= secs <= CALENDAR_LAST {
        Some(Instant { secs: secs as i64, nanos: nanos as u32 })
    } else {
        None
    }
}

/// Calls `chrono::DateTime::checked_add_signed` on the instant in UTC. It moves the instant by whole
/// seconds, in the way of `moved`, and fails where the instant or the outcome is not in the calendar.
#[verifier::external_body]
fn shift(t: Instant, delta: i64) -> (r: Option<Instant>)
    ensures
        r == shifted(t, delta as int),
{
    let from = chrono::DateTime::from_timestamp(t.secs, t.nanos)?;
    let to = from.checked_add_signed(chrono::TimeDelta::try_seconds(delta)?)?;
    Some(Instant { secs: to.timestamp(), nanos: to.timestamp_subsec_nanos() })
}

/// Whether one instant is no later than another.
pub open spec fn not_after(a: Instant, b: Instant) -> bool {
    a.secs < b.secs || (a.secs == b.secs && a.nanos <= b.nanos)
}

/// Whether one instant is no later than another.
pub fn is_not_after(a: Instant, b: Instant) -> (r: bool)
    ensures
        r == not_after(a, b),
{
    a.secs < b.secs || (a.secs == b.secs && a.nanos <= b.nanos)
}

/// The end of a window that starts at `start`: its hours, then its minutes later.
pub open spec fn window_end(start: Instant, w: Window) -> Option<Instant> {
    match shifted(start, 3600 * w.hours) {
        Some(t) => shifted(t, 60 * w.minutes),
        None => None,
    }
}

/// Whether `now` lies in the window that starts at `start`, or in the `drain` seconds in front of it.
pub open spec fn near_window(now: Instant, start: Instant, w: Window, drain: int) -> Option<bool> {
    match (window_end(start, w), shifted(start, -drain)) {
        (Some(end), Some(drain_start)) => Some(not_after(drain_start, now) && not_after(now, end)),
        _ => None,
    }
}

fn shift_by(t: Instant, unit: i64, count: i64) -> (r: Option<Instant>)
    requires
        unit == 3600 || unit == 60,
    ensures
        r == shifted(t, unit * count),
{
    match count.checked_mul(unit) {
        Some(delta) => {
            proof {
                assert(count * unit == unit * count) by (nonlinear_arith);
            }
            shift(t, delta)
        },
        None => {
            proof {
                assert(unit * count > i64::MAX || unit * count < i64::MIN);
            }
            None
        },
    }
}

/// Whether maintenance is near at `now`, where the window starts at `start`: it is under way, or
/// begins within `drain_sec` seconds. `None` where the calendar does not reach as far as the window.
pub fn is_maintenance_imminent(
    now: Instant,
    start: Instant,
    w: &Window,
    drain_sec: i64,
) -> (r: Option<bool>)
    ensures
        r == near_window(now, start, *w, drain_sec as int),
{
    let end = match shift_by(start, 3600, w.hours) {
        Some(t) => shift_by(t, 60, w.minutes),
        None => None,
    };
    let drain_start = if drain_sec == i64::MIN {
        None
    } else {
        shift(start, -drain_sec)
    };
    match (end, drain_start) {
        (Some(end), Some(drain_start)) => Some(
            is_not_after(drain_start, now) && is_not_after(now, end),
        ),
        _ => None,
    }
}

/// For a window that does not start with a leap second, maintenance is near from `drain` seconds in
/// front of the start up to the end, both ends counted.
pub proof fn law_near_between_drain_and_end(now: Instant, start: Instant, w: Window, drain: int)
    requires
        in_calendar(start),
        start.nanos < 1_000_000_000,
        CALENDAR_FIRST <= start.secs - drain <= CALENDAR_LAST,
        CALENDAR_FIRST <= start.secs + 3600 * w.hours <= CALENDAR_LAST,
        CALENDAR_FIRST <= start.secs + 3600 * w.hours + 60 * w.minutes <= CALENDAR_LAST,
    ensures
        near_window(now, start, w, drain) == Some(
            not_after(
                Instant { secs: (start.secs - drain) as i64, nanos: start.nanos },
                now,
            ) && not_after(
                now,
                Instant {
                    secs: (start.secs + 3600 * w.hours + 60 * w.minutes) as i64,
                    nanos: start.nanos,
                },
            ),
        ),
{
}

/// A window put together from a time that was read, and from hours and minutes that are written in
/// digits, with or without zeros in front, starts at that time and lasts so many hours and so many
/// minutes.
pub proof fn law_window_lasts_hours_and_minutes(
    second: u32,
    nanos: u32,
    zeros: Seq<char>,
    h: nat,
    more_zeros: Seq<char>,
    m: nat,
)
    requires
        forall|i: int| 0 <= i < zeros.len() ==> #[trigger] zeros[i] == '0',
        forall|i: int| 0 <= i < more_zeros.len() ==> #[trigger] more_zeros[i] == '0',
    ensures
        ({
            let r = window_of(
                Some((second, nanos)),
                zeros + decimal(h),
                more_zeros + decimal(m),
            );
            &&& h > 0x7fff_ffff_ffff_ffff ==> r == Err::<Window, WindowError>(WindowError::Hours)
            &&& h <= 0x7fff_ffff_ffff_ffff && m > 0x7fff_ffff_ffff_ffff ==> r == Err::<
                Window,
                WindowError,
            >(WindowError::Minutes)
            &&& h <= 0x7fff_ffff_ffff_ffff && m <= 0x7fff_ffff_ffff_ffff ==> {
                &&& r is Ok
                &&& r->Ok_0.start_second == second
                &&& r->Ok_0.start_nanos == nanos
                &&& r->Ok_0.hours == h
                &&& r->Ok_0.minutes == m
            }
        }),
{
    law_numbers_in_text(zeros, h);
    law_numbers_in_text(more_zeros, m);
}

/// The same of hours and minutes with a sign.
pub proof fn law_window_of_signed_numbers(time: Option<(u32, u32)>, h: int, m: int)
    requires
        -0x8000_0000_0000_0000 <= h <= 0x7fff_ffff_ffff_ffff,
        -0x8000_0000_0000_0000 <= m <= 0x7fff_ffff_ffff_ffff,
    ensures
        ({
            let r = window_of(time, signed_decimal(h), signed_decimal(m));
            &&& time is None ==> r == Err::<Window, WindowError>(WindowError::Time)
            &&& time matches Some((second, nanos)) ==> {
                &&& r is Ok
                &&& r->Ok_0.start_second == second
                &&& r->Ok_0.start_nanos == nanos
                &&& r->Ok_0.hours == h
                &&& r->Ok_0.minutes == m
            }
        }),
{
    law_decimal_reads_back(h);
    law_decimal_reads_back(m);
}

/// Hours that are no number are told first, then minutes that are none, whatever the time.
pub proof fn law_window_without_numbers(
    time: Option<(u32, u32)>,
    text: Seq<char>,
    i: int,
    h: int,
    other: Seq<char>,
)
    requires
        -0x8000_0000_0000_0000 <= h <= 0x7fff_ffff_ffff_ffff,
        text.len() == 0 || (text.len() == 1 && !('0' <= text[0] <= '9')) || (0 < i < text.len() && !(
        '0' <= text[i] <= '9')) || (i == 0 && text.len() > 0 && !('0' <= text[0] <= '9') && text[0]
            != '+' && text[0] != '-'),
    ensures
        window_of(time, text, other) == Err::<Window, WindowError>(WindowError::Hours),
        window_of(time, signed_decimal(h), text) == Err::<Window, WindowError>(
            WindowError::Minutes,
        ),
{
    law_decimal_reads_back(h);
    law_no_number_in_text(text, i);
}

/// A report in which the pattern is found names the window that its three groups stand for: the time
/// of day behind the date, then hours, then minutes. Where the pattern is not found, or the command
/// could not be run, there is no window; bytes that are not UTF-8 are refused.
pub proof fn law_report_names_the_window(
    text: Seq<char>,
    bytes: Seq<u8>,
    clock: (int, int, int),
    zeros: Seq<char>,
    h: nat,
    more_zeros: Seq<char>,
    m: nat,
)
    requires
        0 <= clock.0 < 24,
        0 <= clock.1 < 60,
        0 <= clock.2 < 60,
        forall|i: int| 0 <= i < zeros.len() ==> #[trigger] zeros[i] == '0',
        forall|i: int| 0 <= i < more_zeros.len() ==> #[trigger] more_zeros[i] == '0',
        h <= 0x7fff_ffff_ffff_ffff,
        m <= 0x7fff_ffff_ffff_ffff,
        regex_takes("set to .+ (\\d+:\\d+:\\d+) .+, lasting (\\d+):(\\d+)"@),
    ensures
        reported_window(None) == Ok::<Option<Window>, WindowError>(None),
        !valid_utf8(bytes) ==> reported_window(Some(bytes)) == Err::<Option<Window>, WindowError>(
            WindowError::NotUtf8,
        ),
        ({
            let found = regex_groups(
                "set to .+ (\\d+:\\d+:\\d+) .+, lasting (\\d+):(\\d+)"@,
                text,
            );
            let time = two_digits(clock.0) + seq![':'] + (two_digits(clock.1) + seq![':']
                + two_digits(clock.2));
            let r = reported_window(Some(encode_utf8(text)));
            &&& found is None ==> r == Ok::<Option<Window>, WindowError>(None)
            &&& found is Some && found->0.len() >= 4 && found->0[1] == Some(time) && found->0[2]
                == Some(zeros + decimal(h)) && found->0[3] == Some(more_zeros + decimal(m)) ==> {
                &&& r is Ok
                &&& r->Ok_0 is Some
                &&& r->Ok_0->0.start_second == 3600 * clock.0 + 60 * clock.1 + clock.2
                &&& r->Ok_0->0.start_nanos == 0
                &&& r->Ok_0->0.hours == h
                &&& r->Ok_0->0.minutes == m
            }
        }),
{
    encode_utf8_valid_utf8(text);
    encode_utf8_decode_utf8(text);
    law_time_of_day_reads_back(clock.0, clock.1, clock.2);
    law_window_lasts_hours_and_minutes(
        (3600 * clock.0 + 60 * clock.1 + clock.2) as u32,
        0,
        zeros,
        h,
        more_zeros,
        m,
    );
}

proof fn lemma_colon_at(front: Seq<char>, rest: Seq<char>)
    requires
        forall|i: int| 0 <= i < front.len() ==> #[trigger] front[i] != ':',
    ensures
        colon_at(front + seq![':'] + rest) == front.len(),
        colon_at(front) == front.len(),
    decreases front.len(),
{
    let t = front + seq![':'] + rest;
    if front.len() > 0 {
        let others = front.skip(1);
        assert forall|i: int| 0 <= i < others.len() implies #[trigger] others[i] != ':' by {
            assert(front[i + 1] != ':');
        }
        lemma_colon_at(others, rest);
        assert(t.skip(1) == others + seq![':'] + rest);
        assert(t[0] == front[0]);
        assert(front[0] != ':');
    } else {
        assert(t[0] == ':');
    }
}

/// A part of a time: white space or none, then the digits of `n`, with a zero in front or not, two of
/// them at most.
pub open spec fn is_clock_part(part: Seq<char>, gap: Seq<char>, zeros: Seq<char>, n: int) -> bool {
    &&& part == gap + (zeros + decimal(n as nat))
    &&& n >= 0
    &&& (zeros + decimal(n as nat)).len() <= 2
    &&& forall|i: int| 0 <= i < gap.len() ==> is_space(#[trigger] gap[i])
    &&& forall|i: int| 0 <= i < zeros.len() ==> #[trigger] zeros[i] == '0'
}

proof fn lemma_clock_part(part: Seq<char>, gap: Seq<char>, zeros: Seq<char>, n: int, max: int)
    requires
        is_clock_part(part, gap, zeros, n),
    ensures
        clock_number(part, max) == (if n <= max {
            Some(n)
        } else {
            None
        }),
        forall|i: int| 0 <= i < part.len() ==> #[trigger] part[i] != ':',
{
    let d = zeros + decimal(n as nat);
    lemma_decimal(n as nat);
    law_numbers_in_text(zeros, n as nat);
    assert forall|i: int| 0 <= i < d.len() implies is_digit(#[trigger] d[i]) by {
        if i >= zeros.len() {
            assert(is_digit(decimal(n as nat)[i - zeros.len()]));
            assert(d[i] == decimal(n as nat)[i - zeros.len()]);
        } else {
            assert(d[i] == zeros[i]);
        }
    }
    assert(all_digits(d));
    assert(digits_value(d) == n);
    assert forall|i: int| 0 <= i < gap.len() implies is_space(#[trigger] part[i]) by {
        assert(part[i] == gap[i]);
    }
    assert(part[gap.len() as int] == d[0]);
    assert(is_digit(d[0]));
    lemma_trim_front(part, gap.len() as int);
    assert(part.skip(gap.len() as int) == d);
    assert forall|i: int| 0 <= i < part.len() implies #[trigger] part[i] != ':' by {
        if i < gap.len() {
            assert(is_space(part[i]));
        } else {
            assert(part[i] == d[i - gap.len()]);
            assert(is_digit(d[i - gap.len()]));
        }
    }
}

/// A time of day is three numbers with colons between them, each of one digit or two, with white
/// space in front or not. It is the second of the day that they stand for; the sixtieth second of a
/// minute is a second on top of the last one. Hours above 23, minutes above 59 and seconds above 60
/// are refused.
pub proof fn law_time_of_day_in_parts(
    parts: (Seq<char>, Seq<char>, Seq<char>),
    gaps: (Seq<char>, Seq<char>, Seq<char>),
    zeros: (Seq<char>, Seq<char>, Seq<char>),
    h: int,
    m: int,
    s: int,
)
    requires
        is_clock_part(parts.0, gaps.0, zeros.0, h),
        is_clock_part(parts.1, gaps.1, zeros.1, m),
        is_clock_part(parts.2, gaps.2, zeros.2, s),
    ensures
        ({
            let text = parts.0 + seq![':'] + (parts.1 + seq![':'] + parts.2);
            &&& h <= 23 && m <= 59 && s <= 59 ==> clock_time(text) == Some(
                ((3600 * h + 60 * m + s) as u32, 0u32),
            )
            &&& h <= 23 && m <= 59 && s == 60 ==> clock_time(text) == Some(
                ((3600 * h + 60 * m + 59) as u32, 1_000_000_000u32),
            )
            &&& h > 23 || m > 59 || s > 60 ==> clock_time(text) is None
        }),
{
    let behind_hour = parts.1 + seq![':'] + parts.2;
    let text = parts.0 + seq![':'] + behind_hour;
    lemma_clock_part(parts.0, gaps.0, zeros.0, h, 23);
    lemma_clock_part(parts.1, gaps.1, zeros.1, m, 59);
    lemma_clock_part(parts.2, gaps.2, zeros.2, s, 60);
    lemma_colon_at(parts.0, behind_hour);
    lemma_colon_at(parts.1, parts.2);
    assert(text.take(parts.0.len() as int) == parts.0);
    assert(text.skip(parts.0.len() as int + 1) == behind_hour);
    assert(behind_hour.take(parts.1.len() as int) == parts.1);
    assert(behind_hour.skip(parts.1.len() as int + 1) == parts.2);
}

proof fn lemma_clock_number_text(part: Seq<char>, max: int)
    requires
        clock_number(part, max) is Some,
    ensures
        trim_front(part).len() == 1 || trim_front(part).len() == 2,
        forall|i: int|
            0 <= i < trim_front(part).len() ==> '0' <= #[trigger] trim_front(part)[i] <= '9',
{
    let d = trim_front(part);
    assert forall|i: int| 0 <= i < d.len() implies '0' <= #[trigger] d[i] <= '9' by {
        assert(is_digit(d[i]));
    }
}

proof fn lemma_colon_found(t: Seq<char>)
    ensures
        colon_at(t) <= t.len(),
        colon_at(t) < t.len() ==> t[colon_at(t) as int] == ':',
    decreases t.len(),
{
    if t.len() > 0 && t[0] != ':' {
        lemma_colon_found(t.skip(1));
    }
}

/// Any text that is taken as a time of day is three parts with colons between them, each of them one
/// digit or two behind white space or nothing; any other text is refused.
pub proof fn law_time_of_day_is_three_parts(text: Seq<char>)
    requires
        clock_time(text) is Some,
    ensures
        exists|a: Seq<char>, b: Seq<char>, c: Seq<char>|
            text == #[trigger] (a + seq![':'] + (b + seq![':'] + c)) && 1 <= trim_front(a).len() <= 2
                && 1 <= trim_front(b).len() <= 2 && 1 <= trim_front(c).len() <= 2 && all_digits(
                trim_front(a),
            ) && all_digits(trim_front(b)) && all_digits(trim_front(c)),
{
    let i = colon_at(text) as int;
    let behind_hour = text.skip(i + 1);
    let j = colon_at(behind_hour) as int;
    let a = text.take(i);
    let b = behind_hour.take(j);
    let c = behind_hour.skip(j + 1);
    lemma_colon_found(text);
    lemma_colon_found(behind_hour);
    lemma_clock_number_text(a, 23);
    lemma_clock_number_text(b, 59);
    lemma_clock_number_text(c, 60);
    assert(behind_hour == b + seq![':'] + c);
    assert(text == a + seq![':'] + (b + seq![':'] + c));
}

/// An instant moves by whole seconds and keeps its nanoseconds, as long as it stays in the calendar. A
/// leap second counts as the second that it follows when time is put on, and as the one behind it when
/// time is taken off.
pub proof fn law_instants_move_by_seconds(t: Instant, delta: int)
    requires
        in_calendar(t),
    ensures
        t.nanos < 1_000_000_000 && -8334601228800 <= t.secs + delta <= 8210266876799 ==> shifted(
            t,
            delta,
        ) == Some(Instant { secs: (t.secs + delta) as i64, nanos: t.nanos }),
        t.nanos < 1_000_000_000 && !(-8334601228800 <= t.secs + delta <= 8210266876799) ==> shifted(
            t,
            delta,
        ) is None,
        delta == 0 ==> shifted(t, delta) == Some(t),
        t.nanos >= 1_000_000_000 && delta > 0 && t.secs + delta <= 8210266876799 ==> shifted(t, delta)
            == Some(
            Instant {
                secs: (t.secs + delta) as i64,
                nanos: (t.nanos - 1_000_000_000) as u32,
            },
        ),
        t.nanos >= 1_000_000_000 && delta < 0 && -8334601228800 <= t.secs + 1 + delta ==> shifted(
            t,
            delta,
        ) == Some(
            Instant {
                secs: (t.secs + 1 + delta) as i64,
                nanos: (t.nanos - 1_000_000_000) as u32,
            },
        ),
{
}

/// A window ends its hours and its minutes behind its start. One of an hour or more that starts with
/// a leap second ends as if it had started with the second that the leap second follows.
pub proof fn law_window_ends_behind_its_start(start: Instant, w: Window)
    requires
        in_calendar(start),
        start.nanos < 1_000_000_000 || w.hours > 0,
        -8334601228800 <= start.secs + 3600 * w.hours <= 8210266876799,
        -8334601228800 <= start.secs + 3600 * w.hours + 60 * w.minutes <= 8210266876799,
    ensures
        window_end(start, w) == Some(
            Instant {
                secs: (start.secs + 3600 * w.hours + 60 * w.minutes) as i64,
                nanos: start.nanos % 1_000_000_000,
            },
        ),
{
}

/// Instants without leap seconds are ordered by the nanoseconds since the start of 1970, and all
/// instants by their seconds first.
pub proof fn law_instants_in_order(a: Instant, b: Instant)
    ensures
        a.nanos < 1_000_000_000 && b.nanos < 1_000_000_000 ==> (not_after(a, b) <==> a.secs
            * 1_000_000_000 + a.nanos <= b.secs * 1_000_000_000 + b.nanos),
        a.secs < b.secs ==> not_after(a, b) && !not_after(b, a),
        a.secs == b.secs ==> (not_after(a, b) <==> a.nanos <= b.nanos),
{
}

/// Where the calendar reaches as far as the window and the drain in front of it, maintenance is near
/// just while neither the start of the drain is still to come nor the end of the window over.
pub proof fn law_near_while_drain_or_window(now: Instant, start: Instant, w: Window, drain: int)
    ensures
        near_window(now, start, w, drain) is Some <==> shifted(start, -drain) is Some && window_end(
            start,
            w,
        ) is Some,
        near_window(now, start, w, drain) == Some(true) ==> not_after(shifted(start, -drain)->0, now)
            && not_after(now, window_end(start, w)->0),
        near_window(now, start, w, drain) == Some(false) ==> !not_after(
            shifted(start, -drain)->0,
            now,
        ) || !not_after(now, window_end(start, w)->0),
{
}

/// A match without one of the three groups that a window is put together from names none; groups behind
/// these make no difference.
pub proof fn law_match_needs_three_groups(groups: Seq<Option<Seq<char>>>, more: Seq<Option<Seq<char>>>)
    ensures
        groups.len() < 4 || groups[1] is None || groups[2] is None || groups[3] is None
            ==> matched_window(Some(groups)) == Err::<Option<Window>, WindowError>(
            WindowError::MissingGroup,
        ),
        groups.len() >= 4 ==> matched_window(Some(groups + more)) == matched_window(Some(groups)),
        matched_window(None) == Ok::<Option<Window>, WindowError>(None),
{
    let longer = groups + more;
    if groups.len() >= 4 {
        assert(longer[1] == groups[1]);
        assert(longer[2] == groups[2]);
        assert(longer[3] == groups[3]);
    }
}

/// A host is drained for a quarter of an hour.
pub proof fn law_drain_is_a_quarter_of_an_hour(now: Instant, start: Instant, w: Window)
    ensures
        near_window(now, start, w, DRAIN_WINDOW_SEC as int) == near_window(now, start, w, 900),
{
}

} // verus!
