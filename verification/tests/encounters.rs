use combat_parser::datastructures::{Attack, AttackStats, Combatant, CombatantList};
use combat_parser::eventloop::{EncounterLog, ParseSession, RecordError};
use combat_parser::parserfunctions::get_time;

fn hit(attacker: &str, name: &str, damage: u64, time: &str) -> Attack {
    let mut a = Attack::new();
    a.attacker = attacker.to_string();
    a.attack_name = name.to_string();
    a.damage = damage;
    a.timestamp = time.to_string();
    a.victim = "a gnoll".to_string();
    a.crit = "".to_string();
    a.damage_type = "slashing".to_string();
    a
}

fn stats_summary(stats: &Vec<AttackStats>) -> Vec<(String, usize, u64)> {
    stats.iter().map(|s| (s.name.clone(), s.attack_nmbr, s.total_damage)).collect()
}

fn combatant<'a>(list: &'a CombatantList, name: &str) -> &'a Combatant {
    list.combatants.iter().find(|c| c.name == name).unwrap()
}

#[test]
fn recording_attacks_keeps_totals_and_highest_hits() {
    let mut list = CombatantList::new(get_time("default_time"));
    list.attack(hit("Bob", "Slash", 10, "Wed Feb  3 12:00:00 2016"));
    list.attack(hit("Amy", "Fire", 50, "Wed Feb  3 12:00:02 2016"));
    list.attack(hit("Bob", "Kick", 30, "Wed Feb  3 12:00:03 2016"));
    list.attack(hit("Bob", "Slash", 25, "Wed Feb  3 12:00:04 2016"));
    list.attack(hit("Bob", "Slash", 25, "Wed Feb  3 12:00:05 2016"));
    assert_eq!(list.attacks.len(), 5);
    assert_eq!(list.combatants.len(), 2);
    assert_eq!(list.combatants[0].name, "Bob");
    assert_eq!(list.combatants[1].name, "Amy");
    let bob = combatant(&list, "Bob");
    assert_eq!(bob.final_damage, 90);
    // Bob's statistics, highest total first; the first 25 stays the highest Slash.
    assert_eq!(
        stats_summary(&bob.attack_stats),
        vec![("Slash".to_string(), 3, 60), ("Kick".to_string(), 2, 30)]
    );
    let amy = combatant(&list, "Amy");
    assert_eq!(amy.final_damage, 50);
    assert_eq!(stats_summary(&amy.attack_stats), vec![("Fire".to_string(), 1, 50)]);
    // The encounter's statistics keep the order in which names were first seen.
    assert_eq!(
        stats_summary(&list.attack_stats),
        vec![("Slash".to_string(), 3, 60), ("Fire".to_string(), 1, 50), ("Kick".to_string(), 2, 30)]
    );
    assert_eq!(list.encounter_start.second(), 0);
    assert_eq!(list.encounter_end.second(), 5);
}

#[test]
fn equal_totals_keep_their_order() {
    let mut list = CombatantList::new(get_time("default_time"));
    list.attack(hit("Bob", "A", 10, "Wed Feb  3 12:00:00 2016"));
    list.attack(hit("Bob", "B", 10, "Wed Feb  3 12:00:01 2016"));
    list.attack(hit("Bob", "C", 20, "Wed Feb  3 12:00:02 2016"));
    let bob = combatant(&list, "Bob");
    assert_eq!(
        stats_summary(&bob.attack_stats),
        vec![("C".to_string(), 2, 20), ("A".to_string(), 0, 10), ("B".to_string(), 1, 10)]
    );
}

#[test]
fn find_combatant_gives_the_first_position_or_minus_one() {
    let mut list = CombatantList::new(get_time("default_time"));
    list.attack(hit("Bob", "A", 1, "x"));
    list.attack(hit("Amy", "A", 1, "x"));
    assert_eq!(list.find_combatant("Bob"), 0);
    assert_eq!(list.find_combatant("Amy"), 1);
    assert_eq!(list.find_combatant("Cid"), -1);
}

#[test]
fn a_new_combatant_starts_blank() {
    let mut list = CombatantList::new(get_time("default_time"));
    list.attack(hit("Bob", "A", 7, "Wed Feb  3 12:30:00 2016"));
    let bob = &list.combatants[0];
    assert_eq!(bob.highest_hit.attacker, "undefined");
    assert_eq!(bob.final_healed, 0);
    assert!(bob.sort_by_dps);
    assert_eq!(bob.combatstart.minute(), 30);
}

#[test]
fn can_record_refuses_an_overflowing_hit() {
    let mut list = CombatantList::new(get_time("default_time"));
    list.attack(hit("Bob", "A", u64::MAX - 1, "x"));
    assert!(list.can_record(&hit("Bob", "A", 1, "x")));
    assert!(!list.can_record(&hit("Bob", "A", 2, "x")));
    assert!(!list.can_record(&hit("Amy", "A", 2, "x")));
    assert!(!list.can_record(&hit("Amy", "B", 1, "Mon Feb 30 00:00:00 2016")));
}

#[test]
fn print_attacks_shows_the_filtered_attacks() {
    let mut list = CombatantList::new(get_time("default_time"));
    list.attack(hit("Bob", "Slash", 10, "Wed Feb  3 12:00:00 2016"));
    list.attack(hit("Amy", "Fire", 50, "Wed Feb  3 12:00:02 2016"));
    let all = list.print_attacks("", &"".to_string());
    assert_eq!(all.lines().count(), 2);
    let bobs = list.print_attacks("", &"Bo".to_string());
    assert_eq!(bobs.lines().count(), 1);
    assert!(bobs.contains("Slash"));
    let none = list.print_attacks("Kick", &"".to_string());
    assert_eq!(none, "");
    let fire = list.print_attacks("  Fire   12:00:02 ", &"".to_string());
    assert_eq!(fire.lines().count(), 1);
    assert!(fire.contains("Fire"));
}

#[test]
fn an_attack_is_displayed_in_fixed_columns() {
    let mut a = hit("Bob", "Slash", 1234, "Wed Feb  3 12:00:00 2016");
    a.crit = "critical".to_string();
    let shown = a.to_string();
    let expected = format!(
        "{:25.25}   VICTIM: {:20.20}   ATTACK: {:30.30}   DAMAGE: {:>15.15}   CRIT: {:>20.20}   TYPE: {:>10.10}",
        "Wed Feb  3 12:00:00 2016", "a gnoll", "Slash", 1234u64, "critical", "slashing"
    );
    assert_eq!(shown, expected);
    let mut long = hit("Bob", "An attack name far longer than thirty characters", 0, "t");
    long.damage_type = "verylongtype".to_string();
    let expected = format!(
        "{:25.25}   VICTIM: {:20.20}   ATTACK: {:30.30}   DAMAGE: {:>15.15}   CRIT: {:>20.20}   TYPE: {:>10.10}",
        "t", "a gnoll", "An attack name far longer than thirty characters", 0u64, "", "verylongtype"
    );
    assert_eq!(long.to_string(), expected);
}

#[test]
fn filter_needs_the_player_and_every_word() {
    let a = hit("Bobby", "Slash", 10, "Wed Feb  3 12:00:00 2016");
    assert!(a.filter("", &"Bob".to_string()));
    assert!(!a.filter("", &"Amy".to_string()));
    assert!(a.filter("Slash gnoll", &"".to_string()));
    assert!(!a.filter("Slash orc", &"".to_string()));
    assert!(a.filter(" \t ", &"".to_string()));
    assert!(!a.filter("2016", &"x".to_string()));
    assert!(a.filter("2016", &"B".to_string()));
}

#[test]
fn stats_lines_of_a_player() {
    let mut list = CombatantList::new(get_time("default_time"));
    list.attack(hit("Bob", "Slash", 10, "Wed Feb  3 12:00:00 2016"));
    list.attack(hit("Bob", "Kick", 30, "Wed Feb  3 12:00:01 2016"));
    list.attack(hit("Amy", "Fire", 50, "Wed Feb  3 12:00:02 2016"));
    let lines = list.attack_stats_lines("Bob");
    assert_eq!(lines.len(), 2);
    assert_eq!((lines[0].total_damage, lines[0].all_damage), (30, 40));
    assert_eq!((lines[1].total_damage, lines[1].all_damage), (10, 40));
    assert_eq!(lines[0].highest_hit, list.attacks[1].to_string());
    assert!(list.attack_stats_lines("Nobody").is_empty());
}

#[test]
fn the_session_hands_on_gathered_attacks_and_ends_fights() {
    let mut s = ParseSession::new();
    let out = s.on_timers(true, true);
    assert!(!out.reset_ui_timer && out.update.is_none() && !out.fight_over);
    s.on_attack(hit("Bob", "A", 1, "x"));
    s.on_attack(hit("Bob", "A", 2, "x"));
    let out = s.on_timers(false, false);
    assert!(out.update.is_none() && !out.fight_over);
    assert_eq!(s.attacks.len(), 2);
    let out = s.on_timers(true, false);
    assert!(out.reset_ui_timer);
    assert_eq!(out.update.unwrap().len(), 2);
    assert!(s.attacks.is_empty());
    s.on_attack(hit("Bob", "A", 3, "x"));
    let out = s.on_timers(false, true);
    assert!(out.fight_over && out.update.is_none());
    assert!(s.attacks.is_empty() && s.fightdone);
    let out = s.on_timers(true, true);
    assert!(!out.fight_over);
}

#[test]
fn the_log_records_batches_into_the_current_encounter() {
    let mut log = EncounterLog::new().unwrap();
    assert_eq!(log.encounters.len(), 1);
    let batch = vec![
        hit("Bob", "A", 5, "Wed Feb  3 12:00:00 2016"),
        hit("Bob", "A", 7, "Wed Feb  3 12:01:30 2016"),
    ];
    assert_eq!(log.receive(false, batch), Ok(()));
    assert_eq!(log.encounters[0].attacks.len(), 2);
    assert_eq!(log.encounters[0].encounter_duration, 90);
    assert_eq!(log.receive(true, Vec::new()), Ok(()));
    assert_eq!(log.encounters.len(), 2);
    assert_eq!(log.encounters[1].encounter_duration, 0);
    let bad = vec![hit("Amy", "B", 1, "Wed Feb  3 12:02:00 2016"), hit("Amy", "B", 1, "Mon Feb 30 00:00:00 2016")];
    assert_eq!(log.receive(false, bad), Err(RecordError::AttackRejected(1)));
    assert_eq!(log.encounters[1].attacks.len(), 1);
}
