use combat_parser::datastructures::{Attack, CombatCaptures};
use combat_parser::eventloop::{parse_line, trigger_commands, LineError};

#[test]
fn a_plain_hit_is_an_auto_attack_of_the_player() {
    let line = "(1454500000)[Wed Feb  3 12:00:00 2016] YOU hit a gnoll for 123 slashing damage.";
    let a = parse_line(line, "Me").unwrap().unwrap();
    assert_eq!(a.attacker, "Me");
    assert_eq!(a.damage, 123);
    assert_eq!(a.victim, "a gnoll");
    assert_eq!(a.timestamp, "Wed Feb  3 12:00:00 2016");
    assert_eq!(a.attack_name, "auto attack");
    assert_eq!(a.crit, "");
    assert_eq!(a.damage_type, "slashing");
}

#[test]
fn a_named_attack_of_someone_else() {
    let line = "(1454500001)[Wed Feb  3 12:00:01 2016] Bob's Flame Strike hits a gnoll for 456 heat damage.";
    let a = parse_line(line, "Me").unwrap().unwrap();
    assert_eq!(a.attacker, "Bob");
    assert_eq!(a.damage, 456);
    assert_eq!(a.victim, "a gnoll");
    assert_eq!(a.attack_name, "Flame Strike ");
    assert_eq!(a.damage_type, "heat");
}

#[test]
fn lines_without_a_hit_give_nothing() {
    assert_eq!(parse_line("(1454500002)[Wed Feb  3 12:00:02 2016] You say, \"hello\"", "Me"), Ok(None));
    assert_eq!(parse_line("", "Me"), Ok(None));
}

#[test]
fn damage_too_large_for_u64_is_an_error() {
    let line = "(1454500000)[Wed Feb  3 12:00:00 2016] YOU hit a gnoll for 99999999999999999999999 slashing damage.";
    assert_eq!(parse_line(line, "Me"), Err(LineError::BadDamage));
}

#[test]
fn triggers_say_their_phrase() {
    assert_eq!(trigger_commands("I rule this place"), vec!["espeak \"Ruling I am\"".to_string()]);
    assert_eq!(
        trigger_commands("you know, i also rule. Madness heals"),
        vec!["espeak \"Verily\"".to_string(), "espeak \"Madness!\"".to_string()]
    );
    assert!(trigger_commands("nothing here").is_empty());
}

#[test]
fn captures_fill_an_attack() {
    let caps = CombatCaptures {
        datetime: "Wed Feb  3 12:00:00 2016".to_string(),
        attack: "".to_string(),
        target: "a rat".to_string(),
        crittype: " a critical".to_string(),
        damage: "+42".to_string(),
        damagetype: "crushing".to_string(),
    };
    let mut a = Attack::new();
    a.attack(&caps, "Zed");
    assert_eq!(a.attacker, "Zed");
    assert_eq!(a.damage, 42);
    assert_eq!(a.attack_name, "auto attack");
    assert_eq!(a.crit, " a critical");
}
