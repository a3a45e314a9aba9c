use combat_parser::parserfunctions::{elapsed_seconds, get_time, try_get_time, Timestamp};

fn parts(t: &Timestamp) -> (i32, u32, u32, u32, u32, u32) {
    (t.year(), t.month(), t.day(), t.hour(), t.minute(), t.second())
}

#[test]
fn reads_a_log_timestamp() {
    let t = get_time("Wed Feb  3 12:05:09 2016");
    assert_eq!(parts(&t), (2016, 2, 3, 12, 5, 9));
    let t = get_time("Sat Dec 31 23:59:59 2016");
    assert_eq!(parts(&t), (2016, 12, 31, 23, 59, 59));
}

#[test]
fn unknown_month_names_count_as_january() {
    let t = get_time("Sat Foo 31 23:59:59 2016");
    assert_eq!(parts(&t), (2016, 1, 31, 23, 59, 59));
}

#[test]
fn text_without_a_timestamp_gives_the_default_moment() {
    let t = get_time("default_time");
    assert_eq!(parts(&t), (2016, 2, 3, 0, 0, 0));
    let t = get_time("undefined");
    assert_eq!(parts(&t), (2016, 2, 3, 0, 0, 0));
}

#[test]
fn days_and_times_that_do_not_exist_are_refused() {
    assert!(try_get_time("Mon Feb 30 00:00:00 2016").is_none());
    assert!(try_get_time("Mon Feb 29 00:00:00 2015").is_none());
    assert!(try_get_time("Mon Feb 29 00:00:00 2016").is_some());
    assert!(try_get_time("Mon Mar 1 24:00:00 2016").is_none());
    assert!(try_get_time("Mon Mar 1 23:60:00 2016").is_none());
    assert!(try_get_time("Mon Mar 1 23:00:60 2016").is_none());
    assert!(try_get_time("Mon Mar 1 23:00:00 99999999999").is_none());
}

#[test]
fn unix_seconds_count_from_1970() {
    assert_eq!(get_time("Wed Feb  3 00:00:00 2016").unix_seconds(), 1454457600);
    assert_eq!(get_time("Thu Jan  1 00:00:00 1970").unix_seconds(), 0);
    assert_eq!(get_time("Fri May 15 00:00:00 2015").unix_seconds(), 1431648000);
    assert_eq!(get_time("Wed Dec 31 23:59:59 1969").unix_seconds(), -1);
    assert_eq!(get_time("Tue Feb 29 12:00:00 2000").unix_seconds(), 951825600);
}

#[test]
fn unix_seconds_before_the_common_era() {
    let t = Timestamp::from_parts(0, 1, 1, 0, 0, 0).unwrap();
    assert_eq!(t.unix_seconds(), -62167219200);
    let t = Timestamp::from_parts(-1, 1, 1, 0, 0, 0).unwrap();
    assert_eq!(t.unix_seconds(), -62198755200);
    let t = Timestamp::from_parts(-262143, 1, 1, 0, 0, 0).unwrap();
    let expected = chrono_days(-262143) * 86400;
    assert_eq!(t.unix_seconds(), expected);
}

fn chrono_days(year: i64) -> i64 {
    // Days from 1970-01-01 to year-01-01, by counting whole years.
    let mut days: i64 = 0;
    let mut y: i64 = 1970;
    while y > year {
        y -= 1;
        let leap = y % 4 == 0 && (y % 100 != 0 || y % 400 == 0);
        days -= if leap { 366 } else { 365 };
    }
    days
}

#[test]
fn elapsed_seconds_wrap_when_negative() {
    let a = get_time("Wed Feb  3 12:00:00 2016");
    let b = get_time("Wed Feb  3 12:01:05 2016");
    assert_eq!(elapsed_seconds(&a, &b), 65);
    assert_eq!(elapsed_seconds(&b, &a), (-65i64) as u64);
    assert_eq!(elapsed_seconds(&a, &a), 0);
}

#[test]
fn parts_build_only_existing_moments() {
    assert!(Timestamp::from_parts(2016, 2, 29, 0, 0, 0).is_some());
    assert!(Timestamp::from_parts(1900, 2, 29, 0, 0, 0).is_none());
    assert!(Timestamp::from_parts(2000, 2, 29, 0, 0, 0).is_some());
    assert!(Timestamp::from_parts(2016, 13, 1, 0, 0, 0).is_none());
    assert!(Timestamp::from_parts(2016, 4, 31, 0, 0, 0).is_none());
    assert!(Timestamp::from_parts(262142, 12, 31, 0, 0, 0).is_some());
    assert!(Timestamp::from_parts(262143, 1, 1, 0, 0, 0).is_none());
    assert!(Timestamp::from_parts(-262143, 1, 1, 0, 0, 0).is_some());
    assert!(Timestamp::from_parts(-262144, 12, 31, 0, 0, 0).is_none());
}
