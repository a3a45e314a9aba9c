//! Timestamps of the combat log: reading them out of log text, and the
//! calendar facts that `chrono` provides about them.

use vstd::prelude::*;
use crate::pattern::{regex_captures, regex_named_captures};
use crate::text::{parse_i32, parse_u32, signed_parse, unsigned_parse};

verus! {

/// A UTC date and time to the second, as the log writes it.
pub struct TimestampView {
    pub year: int,
    pub month: int,
    pub day: int,
    pub hour: int,
    pub minute: int,
    pub second: int,
}

/// A UTC date and time to the second. It always denotes an existing moment
/// in the range that `chrono` supports.
#[derive(Clone, Copy, Debug)]
pub struct Timestamp {
    year: i32,
    month: u32,
    day: u32,
    hour: u32,
    minute: u32,
    second: u32,
}

/// Gregorian leap years (proleptic, year 0 included).
pub open spec fn is_leap_year(y: int) -> bool {
    y % 4 == 0 && (y % 100 != 0 || y % 400 == 0)
}

/// The number of days of month `m` of year `y`.
pub open spec fn days_in_month(y: int, m: int) -> int {
    if m == 2 {
        if is_leap_year(y) {
            29
        } else {
            28
        }
    } else if m == 4 || m == 6 || m == 9 || m == 11 {
        30
    } else {
        31
    }
}

/// The calendar day `y-m-d` exists, in the years that `chrono::NaiveDate` covers.
pub open spec fn date_exists(y: int, m: int, d: int) -> bool {
    &&& -262143 <= y <= 262142
    &&& 1 <= m <= 12
    &&& 1 <= d <= days_in_month(y, m)
}

/// `h:mi:s` is a time of day (no leap second).
pub open spec fn time_exists(h: int, mi: int, s: int) -> bool {
    0 <= h < 24 && 0 <= mi < 60 && 0 <= s < 60
}

impl TimestampView {
    pub open spec fn valid(self) -> bool {
        date_exists(self.year, self.month, self.day) && time_exists(self.hour, self.minute, self.second)
    }
}

/// Days from 1970-01-01 to `y-m-d` in the proleptic Gregorian calendar.
pub open spec fn days_from_epoch(y: int, m: int, d: int) -> int {
    let yy = if m <= 2 { y - 1 } else { y };
    let era = yy / 400;
    let yoe = yy - era * 400;
    let mp = (m + 9) % 12;
    let doy = (153 * mp + 2) / 5 + d - 1;
    let doe = yoe * 365 + yoe / 4 - yoe / 100 + doy;
    era * 146097 + doe - 719468
}

/// Seconds from 1970-01-01 00:00:00 UTC to `t`, leap seconds not counted.
pub open spec fn unix_seconds(t: TimestampView) -> int {
    days_from_epoch(t.year, t.month, t.day) * 86400 + t.hour * 3600 + t.minute * 60 + t.second
}

/// The date and time with the given fields.
pub open spec fn parts_view(year: i32, month: u32, day: u32, hour: u32, minute: u32, second: u32) -> TimestampView {
    TimestampView {
        year: year as int,
        month: month as int,
        day: day as int,
        hour: hour as int,
        minute: minute as int,
        second: second as int,
    }
}

impl View for Timestamp {
    type V = TimestampView;

    closed spec fn view(&self) -> TimestampView {
        TimestampView {
            year: self.year as int,
            month: self.month as int,
            day: self.day as int,
            hour: self.hour as int,
            minute: self.minute as int,
            second: self.second as int,
        }
    }
}

impl Timestamp {
    #[verifier::type_invariant]
    closed spec fn denotes_a_moment(self) -> bool {
        self@.valid()
    }

    /// Every timestamp denotes an existing moment.
    pub fn check_valid(&self)
        ensures
            self@.valid(),
    {
        proof {
            use_type_invariant(self);
        }
    }

    /// The moment `year-month-day hour:minute:second` UTC, where it exists
    /// (where `chrono` would build it with `Utc.ymd(..).and_hms(..)`).
    pub fn from_parts(year: i32, month: u32, day: u32, hour: u32, minute: u32, second: u32) -> (r:
        Option<Timestamp>)
        ensures
            r is Some <==> parts_view(year, month, day, hour, minute, second).valid(),
            r matches Some(t) ==> t@ == parts_view(year, month, day, hour, minute, second),
    {
        match chrono_utc_timestamp(year, month, day, hour, minute, second) {
            Some(_) => Some(Timestamp { year, month, day, hour, minute, second }),
            None => None,
        }
    }

    pub fn year(&self) -> (r: i32)
        ensures
            r == self@.year,
    {
        self.year
    }

    pub fn month(&self) -> (r: u32)
        ensures
            r == self@.month,
    {
        self.month
    }

    pub fn day(&self) -> (r: u32)
        ensures
            r == self@.day,
    {
        self.day
    }

    pub fn hour(&self) -> (r: u32)
        ensures
            r == self@.hour,
    {
        self.hour
    }

    pub fn minute(&self) -> (r: u32)
        ensures
            r == self@.minute,
    {
        self.minute
    }

    pub fn second(&self) -> (r: u32)
        ensures
            r == self@.second,
    {
        self.second
    }

    /// Seconds from 1970-01-01 00:00:00 UTC to this moment.
    pub fn unix_seconds(&self) -> (r: i64)
        ensures
            r == unix_seconds(self@),
    {
        proof {
            use_type_invariant(self);
        }
        chrono_utc_timestamp(self.year, self.month, self.day, self.hour, self.minute, self.second).unwrap()
    }
}

/// The UTC moment `year-month-day hour:minute:second` as `chrono` builds it
/// (`NaiveDate::from_ymd_opt`, then `and_hms_opt`, then `and_utc`), given as
/// its UNIX timestamp (`DateTime::timestamp`). The contract claims that the
/// moment is built exactly where the day exists in chrono's range (years
/// -262143 to 262142, Gregorian leap years) and the time of day exists (hour
/// below 24, minute and second below 60), and that the timestamp counts the
/// non-leap seconds since 1970-01-01 00:00:00 UTC, which it states through
/// the proleptic Gregorian day count.
#[verifier::external_body]
fn chrono_utc_timestamp(year: i32, month: u32, day: u32, hour: u32, minute: u32, second: u32) -> (r:
    Option<i64>)
    ensures
        r is Some <==> parts_view(year, month, day, hour, minute, second).valid(),
        r matches Some(s) ==> s == unix_seconds(parts_view(year, month, day, hour, minute, second)),
{
    let date = chrono::NaiveDate::from_ymd_opt(year, month, day)?;
    let moment = date.and_hms_opt(hour, minute, second)?;
    Some(moment.and_utc().timestamp())
}

/// `(end - start).num_seconds() as u64`: the seconds from `start` to `end`,
/// wrapped to `u64` when negative.
pub fn elapsed_seconds(start: &Timestamp, end: &Timestamp) -> (r: u64)
    ensures
        r == (unix_seconds(end@) - unix_seconds(start@)) as u64,
{
    let e = end.unix_seconds();
    let s = start.unix_seconds();
    ((e as i128) - (s as i128)) as u64
}


/// The pattern that a log timestamp such as `Sat Feb  3 12:05:09 2016` is read with.
pub open spec fn time_pattern() -> Seq<char> {
    "(?P<day_week>[A-Za-z]+) (?P<month>[A-Za-z]+)(  | )(?P<day_month>\\d+) (?P<hour>\\d+):(?P<minute>\\d+):(?P<second>\\d+) (?P<year>\\d+)"@
}

/// The groups of `time_pattern` that are read, in this order.
pub open spec fn time_groups() -> Seq<Seq<char>> {
    seq!["day_week"@, "month"@, "day_month"@, "hour"@, "minute"@, "second"@, "year"@]
}

/// The number of the month whose English abbreviation is `m`; 1 for any other text.
pub open spec fn month_number(m: Seq<char>) -> int {
    if m == "Jan"@ {
        1
    } else if m == "Feb"@ {
        2
    } else if m == "Mar"@ {
        3
    } else if m == "Apr"@ {
        4
    } else if m == "May"@ {
        5
    } else if m == "Jun"@ {
        6
    } else if m == "Jul"@ {
        7
    } else if m == "Aug"@ {
        8
    } else if m == "Sep"@ {
        9
    } else if m == "Oct"@ {
        10
    } else if m == "Nov"@ {
        11
    } else if m == "Dec"@ {
        12
    } else {
        1
    }
}

/// The English abbreviations of the months, in calendar order.
pub open spec fn month_abbreviations() -> Seq<Seq<char>> {
    seq!["Jan"@, "Feb"@, "Mar"@, "Apr"@, "May"@, "Jun"@, "Jul"@, "Aug"@, "Sep"@, "Oct"@, "Nov"@, "Dec"@]
}

/// Each month's abbreviation reads as its place in the calendar (January is
/// 1, December 12), and any other text as 1.
pub proof fn lemma_month_numbers()
    ensures
        forall|i: int| 0 <= i < 12 ==> month_number(#[trigger] month_abbreviations()[i]) == i + 1,
        forall|m: Seq<char>| !month_abbreviations().contains(m) ==> #[trigger] month_number(m) == 1,
{
    reveal_strlit("Jan");
    reveal_strlit("Feb");
    reveal_strlit("Mar");
    reveal_strlit("Apr");
    reveal_strlit("May");
    reveal_strlit("Jun");
    reveal_strlit("Jul");
    reveal_strlit("Aug");
    reveal_strlit("Sep");
    reveal_strlit("Oct");
    reveal_strlit("Nov");
    reveal_strlit("Dec");
    let a = month_abbreviations();
    assert(a[0][0] == 'J');
    assert(a[0][1] == 'a');
    assert(a[0][2] == 'n');
    assert(a[1][0] == 'F');
    assert(a[1][1] == 'e');
    assert(a[1][2] == 'b');
    assert(a[2][0] == 'M');
    assert(a[2][1] == 'a');
    assert(a[2][2] == 'r');
    assert(a[3][0] == 'A');
    assert(a[3][1] == 'p');
    assert(a[3][2] == 'r');
    assert(a[4][0] == 'M');
    assert(a[4][1] == 'a');
    assert(a[4][2] == 'y');
    assert(a[5][0] == 'J');
    assert(a[5][1] == 'u');
    assert(a[5][2] == 'n');
    assert(a[6][0] == 'J');
    assert(a[6][1] == 'u');
    assert(a[6][2] == 'l');
    assert(a[7][0] == 'A');
    assert(a[7][1] == 'u');
    assert(a[7][2] == 'g');
    assert(a[8][0] == 'S');
    assert(a[8][1] == 'e');
    assert(a[8][2] == 'p');
    assert(a[9][0] == 'O');
    assert(a[9][1] == 'c');
    assert(a[9][2] == 't');
    assert(a[10][0] == 'N');
    assert(a[10][1] == 'o');
    assert(a[10][2] == 'v');
    assert(a[11][0] == 'D');
    assert(a[11][1] == 'e');
    assert(a[11][2] == 'c');
    assert forall|i: int| 0 <= i < 12 implies month_number(#[trigger] a[i]) == i + 1 by {
        if i == 0 {
        } else if i == 1 {
            assert(a[0][0] != a[1][0]);
        } else if i == 2 {
            assert(a[0][0] != a[2][0]);
            assert(a[1][0] != a[2][0]);
        } else if i == 3 {
            assert(a[0][0] != a[3][0]);
            assert(a[1][0] != a[3][0]);
            assert(a[2][0] != a[3][0]);
        } else if i == 4 {
            assert(a[0][0] != a[4][0]);
            assert(a[1][0] != a[4][0]);
            assert(a[2][2] != a[4][2]);
            assert(a[3][0] != a[4][0]);
        } else if i == 5 {
            assert(a[0][1] != a[5][1]);
            assert(a[1][0] != a[5][0]);
            assert(a[2][0] != a[5][0]);
            assert(a[3][0] != a[5][0]);
            assert(a[4][0] != a[5][0]);
        } else if i == 6 {
            assert(a[0][1] != a[6][1]);
            assert(a[1][0] != a[6][0]);
            assert(a[2][0] != a[6][0]);
            assert(a[3][0] != a[6][0]);
            assert(a[4][0] != a[6][0]);
            assert(a[5][2] != a[6][2]);
        } else if i == 7 {
            assert(a[0][0] != a[7][0]);
            assert(a[1][0] != a[7][0]);
            assert(a[2][0] != a[7][0]);
            assert(a[3][1] != a[7][1]);
            assert(a[4][0] != a[7][0]);
            assert(a[5][0] != a[7][0]);
            assert(a[6][0] != a[7][0]);
        } else if i == 8 {
            assert(a[0][0] != a[8][0]);
            assert(a[1][0] != a[8][0]);
            assert(a[2][0] != a[8][0]);
            assert(a[3][0] != a[8][0]);
            assert(a[4][0] != a[8][0]);
            assert(a[5][0] != a[8][0]);
            assert(a[6][0] != a[8][0]);
            assert(a[7][0] != a[8][0]);
        } else if i == 9 {
            assert(a[0][0] != a[9][0]);
            assert(a[1][0] != a[9][0]);
            assert(a[2][0] != a[9][0]);
            assert(a[3][0] != a[9][0]);
            assert(a[4][0] != a[9][0]);
            assert(a[5][0] != a[9][0]);
            assert(a[6][0] != a[9][0]);
            assert(a[7][0] != a[9][0]);
            assert(a[8][0] != a[9][0]);
        } else if i == 10 {
            assert(a[0][0] != a[10][0]);
            assert(a[1][0] != a[10][0]);
            assert(a[2][0] != a[10][0]);
            assert(a[3][0] != a[10][0]);
            assert(a[4][0] != a[10][0]);
            assert(a[5][0] != a[10][0]);
            assert(a[6][0] != a[10][0]);
            assert(a[7][0] != a[10][0]);
            assert(a[8][0] != a[10][0]);
            assert(a[9][0] != a[10][0]);
        } else if i == 11 {
            assert(a[0][0] != a[11][0]);
            assert(a[1][0] != a[11][0]);
            assert(a[2][0] != a[11][0]);
            assert(a[3][0] != a[11][0]);
            assert(a[4][0] != a[11][0]);
            assert(a[5][0] != a[11][0]);
            assert(a[6][0] != a[11][0]);
            assert(a[7][0] != a[11][0]);
            assert(a[8][0] != a[11][0]);
            assert(a[9][0] != a[11][0]);
            assert(a[10][0] != a[11][0]);
        }
    }
    assert forall|m: Seq<char>| !a.contains(m) implies #[trigger] month_number(m) == 1 by {
        assert forall|j: int| 0 <= j < 12 implies #[trigger] a[j] != m by {}
    }
}

/// The moment read out of a log timestamp is in the month that the
/// timestamp's month group names: the `i`-th abbreviation gives month
/// `i + 1`, and a text that is no month's abbreviation gives January.
pub proof fn lemma_timestamp_month(ts: Seq<char>)
    ensures
        regex_named_captures(time_pattern(), ts, time_groups()) matches Some(g) ==> time_of(ts) matches Some(t)
            ==> {
            &&& time_groups()[1] == "month"@
            &&& forall|i: int| 0 <= i < 12 && g[1] == Some(#[trigger] month_abbreviations()[i]) ==> t.month == i + 1
            &&& (g[1] matches Some(m) && !month_abbreviations().contains(m)) ==> t.month == 1
        },
{
    lemma_month_numbers();
}

/// The moment taken for text that holds no timestamp: 2016-02-03 00:00:00 UTC.
pub open spec fn default_time() -> TimestampView {
    TimestampView { year: 2016, month: 2, day: 3, hour: 0, minute: 0, second: 0 }
}

/// The moment that the captured groups `g` of `time_pattern` write, where
/// every group took part, each number parses and the moment exists.
pub open spec fn captured_time(g: Seq<Option<Seq<char>>>) -> Option<TimestampView> {
    if g.len() == 7 && g[1] is Some && g[2] is Some && g[3] is Some && g[4] is Some && g[5] is Some
        && g[6] is Some {
        let year = signed_parse(g[6].unwrap(), i32::MAX as nat);
        let day = unsigned_parse(g[2].unwrap(), u32::MAX as nat);
        let hour = unsigned_parse(g[3].unwrap(), u32::MAX as nat);
        let minute = unsigned_parse(g[4].unwrap(), u32::MAX as nat);
        let second = unsigned_parse(g[5].unwrap(), u32::MAX as nat);
        if year is Some && day is Some && hour is Some && minute is Some && second is Some {
            let t = TimestampView {
                year: year.unwrap(),
                month: month_number(g[1].unwrap()),
                day: day.unwrap() as int,
                hour: hour.unwrap() as int,
                minute: minute.unwrap() as int,
                second: second.unwrap() as int,
            };
            if t.valid() {
                Some(t)
            } else {
                None
            }
        } else {
            None
        }
    } else {
        None
    }
}

/// The moment that `get_time` reads out of `ts`; `None` where it panics (a
/// group missing, a number out of range, or a day or time that does not exist).
pub open spec fn time_of(ts: Seq<char>) -> Option<TimestampView> {
    match regex_named_captures(time_pattern(), ts, time_groups()) {
        None => Some(default_time()),
        Some(g) => captured_time(g),
    }
}

fn month_number_exec(m: &String) -> (r: u32)
    ensures
        r == month_number(m@),
{
    if *m == "Jan".to_owned() {
        1
    } else if *m == "Feb".to_owned() {
        2
    } else if *m == "Mar".to_owned() {
        3
    } else if *m == "Apr".to_owned() {
        4
    } else if *m == "May".to_owned() {
        5
    } else if *m == "Jun".to_owned() {
        6
    } else if *m == "Jul".to_owned() {
        7
    } else if *m == "Aug".to_owned() {
        8
    } else if *m == "Sep".to_owned() {
        9
    } else if *m == "Oct".to_owned() {
        10
    } else if *m == "Nov".to_owned() {
        11
    } else if *m == "Dec".to_owned() {
        12
    } else {
        1
    }
}

/// Reads the moment out of a log timestamp, as `get_time` does, or `None`
/// where `get_time` would panic.
pub fn try_get_time(timestamp: &str) -> (r: Option<Timestamp>)
    ensures
        match r {
            Some(t) => time_of(timestamp@) == Some(t@),
            None => time_of(timestamp@) is None,
        },
{
    let groups: Vec<&str> = vec!["day_week", "month", "day_month", "hour", "minute", "second", "year"];
    proof {
        assert(crate::pattern::group_names(groups@) =~= time_groups());
    }
    let caps = regex_captures(
        "(?P<day_week>[A-Za-z]+) (?P<month>[A-Za-z]+)(  | )(?P<day_month>\\d+) (?P<hour>\\d+):(?P<minute>\\d+):(?P<second>\\d+) (?P<year>\\d+)",
        timestamp,
        groups.as_slice(),
    );
    let g = match caps {
        None => {
            let t = Timestamp { year: 2016, month: 2, day: 3, hour: 0, minute: 0, second: 0 };
            return Some(t);
        },
        Some(g) => g,
    };
    let ghost gv = g@.map_values(
        |o: Option<String>|
            match o {
                Some(s) => Some(s@),
                None => None,
            },
    );
    assert(regex_named_captures(time_pattern(), timestamp@, time_groups()) == Some(gv));
    let month_s = match &g[1] {
        Some(s) => s,
        None => {
            return None;
        },
    };
    let day_s = match &g[2] {
        Some(s) => s,
        None => {
            return None;
        },
    };
    let hour_s = match &g[3] {
        Some(s) => s,
        None => {
            return None;
        },
    };
    let minute_s = match &g[4] {
        Some(s) => s,
        None => {
            return None;
        },
    };
    let second_s = match &g[5] {
        Some(s) => s,
        None => {
            return None;
        },
    };
    let year_s = match &g[6] {
        Some(s) => s,
        None => {
            return None;
        },
    };
    assert(gv[1] == Some(month_s@) && gv[2] == Some(day_s@) && gv[3] == Some(hour_s@));
    assert(gv[4] == Some(minute_s@) && gv[5] == Some(second_s@) && gv[6] == Some(year_s@));
    let year = match parse_i32(year_s.as_str()) {
        Some(v) => v,
        None => {
            return None;
        },
    };
    let month = month_number_exec(month_s);
    let day = match parse_u32(day_s.as_str()) {
        Some(v) => v,
        None => {
            return None;
        },
    };
    let hour = match parse_u32(hour_s.as_str()) {
        Some(v) => v,
        None => {
            return None;
        },
    };
    let minute = match parse_u32(minute_s.as_str()) {
        Some(v) => v,
        None => {
            return None;
        },
    };
    let second = match parse_u32(second_s.as_str()) {
        Some(v) => v,
        None => {
            return None;
        },
    };
    assert(gv.len() == 7);
    Timestamp::from_parts(year, month, day, hour, minute, second)
}

/// Reads the moment out of a log timestamp such as `Sat Feb  3 12:05:09 2016`;
/// text that holds no timestamp gives 2016-02-03 00:00:00.
pub fn get_time(timestamp: &str) -> (r: Timestamp)
    requires
        time_of(timestamp@) is Some,
    ensures
        time_of(timestamp@) == Some(r@),
{
    try_get_time(timestamp).unwrap()
}

} // verus!
