use combat_parser::datastructures::{Attack, CombatantList};
use combat_parser::eventloop::{EncounterLog, ResponsePlan};
use combat_parser::parserfunctions::{get_time, Timestamp};

fn hit(attacker: &str, name: &str, damage: u64, time: &str) -> Attack {
    let mut a = Attack::new();
    a.attacker = attacker.to_string();
    a.attack_name = name.to_string();
    a.damage = damage;
    a.timestamp = time.to_string();
    a.victim = "a gnoll".to_string();
    a.crit = "".to_string();
    a.damage_type = "slashing".to_string();
    a
}

fn moment(y: i32, mo: u32, d: u32, h: u32, mi: u32, s: u32) -> Timestamp {
    Timestamp::from_parts(y, mo, d, h, mi, s).unwrap()
}

fn chrono_text(y: i32, mo: u32, d: u32, h: u32, mi: u32, s: u32) -> String {
    let t = chrono::NaiveDate::from_ymd_opt(y, mo, d).unwrap().and_hms_opt(h, mi, s).unwrap().and_utc();
    format!("{}", t)
}

#[test]
fn a_moment_is_shown_as_chrono_shows_it() {
    assert_eq!(moment(2016, 2, 3, 12, 5, 9).to_string(), "2016-02-03 12:05:09 UTC");
    assert_eq!(moment(5, 1, 1, 0, 0, 0).to_string(), "0005-01-01 00:00:00 UTC");
    assert_eq!(moment(-5, 12, 31, 23, 59, 59).to_string(), "-0005-12-31 23:59:59 UTC");
    assert_eq!(moment(12345, 6, 7, 1, 2, 3).to_string(), "+12345-06-07 01:02:03 UTC");
    for &(y, mo, d, h, mi, s) in &[
        (2016, 2, 3, 12, 5, 9),
        (0, 1, 1, 0, 0, 0),
        (9999, 12, 31, 23, 59, 59),
        (10000, 1, 1, 0, 0, 0),
        (-1, 2, 28, 7, 8, 9),
        (-262143, 1, 1, 0, 0, 0),
        (262142, 12, 31, 23, 59, 59),
    ] {
        assert_eq!(moment(y, mo, d, h, mi, s).to_string(), chrono_text(y, mo, d, h, mi, s));
    }
}

fn list_between(start: Timestamp, end: Timestamp) -> CombatantList {
    let mut list = CombatantList::new(start);
    list.encounter_end = end;
    list
}

fn chrono_duration(start: &Timestamp, end: &Timestamp) -> String {
    let s = chrono::DateTime::from_timestamp(start.unix_seconds(), 0).unwrap();
    let e = chrono::DateTime::from_timestamp(end.unix_seconds(), 0).unwrap();
    let d = e - s;
    format!("{}:{:02}\n", d.num_minutes(), d.num_seconds() % 60)
}

#[test]
fn the_duration_is_minutes_and_two_digit_seconds() {
    let a = moment(2016, 2, 3, 12, 0, 0);
    let b = moment(2016, 2, 3, 12, 1, 5);
    let c = moment(2016, 2, 3, 12, 0, 5);
    let d = moment(2016, 2, 3, 14, 0, 0);
    assert_eq!(list_between(a, b).duration_text(), "1:05\n");
    assert_eq!(list_between(a, a).duration_text(), "0:00\n");
    assert_eq!(list_between(a, d).duration_text(), "120:00\n");
    assert_eq!(list_between(b, a).duration_text(), "-1:-5\n");
    assert_eq!(list_between(c, a).duration_text(), "0:-5\n");
    for (s, e) in [(a, b), (a, a), (a, d), (b, a), (c, a), (d, c), (a, c)] {
        assert_eq!(list_between(s, e).duration_text(), chrono_duration(&s, &e));
    }
}

#[test]
fn a_request_is_answered_only_while_there_is_an_encounter() {
    let log = EncounterLog { encounters: Vec::new() };
    assert_eq!(log.response_plan(true, 0), None);
    let mut log = EncounterLog::new().unwrap();
    assert_eq!(log.response_plan(true, 0), Some(ResponsePlan { list: true, specific: Some(0) }));
    assert_eq!(log.response_plan(false, 1), Some(ResponsePlan { list: false, specific: None }));
    log.receive(true, Vec::new()).unwrap();
    assert_eq!(log.response_plan(false, 1), Some(ResponsePlan { list: false, specific: Some(1) }));
}

#[test]
fn a_filter_of_two_words_is_both_filters_in_either_order() {
    let a = hit("Bob", "Slash", 10, "Wed Feb  3 12:00:00 2016");
    let who = "Bob".to_string();
    for (f1, f2) in [("gnoll", "slashing"), ("gnoll", "fire"), ("ice", "Slash"), ("", "gnoll"), ("gnoll", "")] {
        let joined = format!("{} {}", f1, f2);
        let swapped = format!("{} {}", f2, f1);
        assert_eq!(a.filter(&joined, &who), a.filter(f1, &who) && a.filter(f2, &who));
        assert_eq!(a.filter(&joined, &who), a.filter(&swapped, &who));
    }
    assert!(a.filter("gnoll slashing", &who));
    assert!(!a.filter("gnoll fire", &who));
}

#[test]
fn the_totals_of_an_encounter_agree() {
    let mut list = CombatantList::new(get_time("default_time"));
    let attacks = vec![
        hit("Bob", "Slash", 10, "Wed Feb  3 12:00:00 2016"),
        hit("Amy", "Fire", 50, "Wed Feb  3 12:00:02 2016"),
        hit("Bob", "Kick", 30, "Wed Feb  3 12:00:03 2016"),
        hit("Cid", "Slash", 7, "Wed Feb  3 12:00:04 2016"),
        hit("Bob", "Slash", 25, "Wed Feb  3 12:00:05 2016"),
    ];
    for a in &attacks {
        list.attack(a.clone());
    }
    let all: u64 = attacks.iter().map(|a| a.damage).sum();
    assert_eq!(all, 122);
    assert_eq!(list.combatants.iter().map(|c| c.final_damage).sum::<u64>(), all);
    assert_eq!(list.attack_stats.iter().map(|s| s.total_damage).sum::<u64>(), all);
    for c in &list.combatants {
        assert_eq!(c.attack_stats.iter().map(|s| s.total_damage).sum::<u64>(), c.final_damage);
    }
    let mut names: Vec<String> = list.combatants.iter().map(|c| c.name.clone()).collect();
    names.sort();
    assert_eq!(names, vec!["Amy", "Bob", "Cid"]);
    let mut stats: Vec<String> = list.attack_stats.iter().map(|s| s.name.clone()).collect();
    stats.sort();
    assert_eq!(stats, vec!["Fire", "Kick", "Slash"]);
}

#[test]
fn the_encounters_are_the_fold_of_the_batches() {
    let mut log = EncounterLog::new().unwrap();
    let a = hit("Bob", "Slash", 10, "Wed Feb  3 12:00:00 2016");
    let b = hit("Amy", "Fire", 50, "Wed Feb  3 12:00:02 2016");
    let c = hit("Bob", "Kick", 30, "Wed Feb  3 12:10:00 2016");
    let d = hit("Cid", "Kick", 3, "Wed Feb  3 12:20:00 2016");
    log.receive(false, vec![a.clone(), b.clone()]).unwrap();
    let first = log.encounters[0].attacks.len();
    log.receive(true, vec![c.clone()]).unwrap();
    log.receive(true, Vec::new()).unwrap();
    log.receive(false, vec![d.clone()]).unwrap();
    // One encounter to start with, and one per new fight.
    assert_eq!(log.encounters.len(), 3);
    // The first encounter was left alone once the next one began.
    assert_eq!(log.encounters[0].attacks.len(), first);
    // Every attack landed once, in the order handed on.
    let landed: Vec<String> = log
        .encounters
        .iter()
        .flat_map(|l| l.attacks.iter().map(|x| x.to_string()))
        .collect();
    let sent: Vec<String> = [a, b, c, d].iter().map(|x| x.to_string()).collect();
    assert_eq!(landed, sent);
    assert_eq!(log.encounters[2].combatants[0].name, "Cid");
}
