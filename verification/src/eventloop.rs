//! The decisions of the log-following loops: how a log line becomes an
//! attack, which spoken triggers it fires, when gathered attacks are handed
//! on, and how handed-on attacks update the encounters.

use vstd::prelude::*;
use crate::datastructures::{
    Attack, AttackView, CombatCaptures, CombatantList, CombatantListView, attack_name_of, empty_list,
    record_all, record_all_ok, record_ok, recorded,
};
use crate::parserfunctions::{elapsed_seconds, time_of, try_get_time, unix_seconds};
use crate::consistency::{damage_sum, encounter_consistent, lemma_empty_list_consistent, lemma_record_all_keeps_consistency};
use crate::pattern::{group_names, regex_captures, regex_named_captures};
use crate::text::unsigned_parse;

verus! {

/// The pattern of a combat-log line that reports a hit.
pub open spec fn combat_pattern() -> Seq<char> {
    "\\((?P<time>\\d+)\\)\\[(?P<datetime>(\\D|\\d)+)\\] (?P<attacker>\\D*?)(' |'s |YOUR |YOU )(?P<attack>\\D*)(((multi attack)|hits|hit|flurry|(aoe attack)|flurries|(multi attacks)|(aoe attacks))|(( multi attacks)| hits| hit)) (?P<target>\\D+) for(?P<crittype>\\D*)( of | )(?P<damage>\\d+) (?P<damagetype>[A-Za-z]+) damage"@
}

/// The groups of `combat_pattern` that are read, in this order.
pub open spec fn combat_groups() -> Seq<Seq<char>> {
    seq!["attacker"@, "datetime"@, "attack"@, "target"@, "crittype"@, "damage"@, "damagetype"@]
}

/// Why a matched log line gives no attack (the loop that reads the log
/// stops there).
#[derive(Debug, PartialEq, Eq, Structural)]
pub enum LineError {
    /// A group of the pattern did not take part in the match.
    MissingGroup,
    /// The damage is not a `u64` (too large, or written with non-ASCII digits).
    BadDamage,
}

/// Every captured group took part in the match.
pub open spec fn all_present(g: Seq<Option<Seq<char>>>) -> bool {
    forall|i: int| 0 <= i < g.len() ==> #[trigger] g[i] is Some
}

/// The attack that log line `line` reports, read for `player` (the attacker
/// where the line names none); `Ok(None)` for a line that reports no hit.
pub open spec fn line_attack(line: Seq<char>, player: Seq<char>) -> Result<Option<AttackView>, LineError> {
    match regex_named_captures(combat_pattern(), line, combat_groups()) {
        None => Ok(None),
        Some(g) => if g.len() == 7 && all_present(g) {
            match unsigned_parse(g[5].unwrap(), u64::MAX as nat) {
                Some(d) => Ok(
                    Some(
                        AttackView {
                            attacker: if g[0].unwrap().len() == 0 {
                                player
                            } else {
                                g[0].unwrap()
                            },
                            damage: d as u64,
                            victim: g[3].unwrap(),
                            timestamp: g[1].unwrap(),
                            attack_name: attack_name_of(g[2].unwrap()),
                            crit: g[4].unwrap(),
                            damage_type: g[6].unwrap(),
                        },
                    ),
                ),
                None => Err(LineError::BadDamage),
            }
        } else {
            Err(LineError::MissingGroup)
        },
    }
}

/// The content of what `parse_line` gives.
pub open spec fn parsed_view(r: Result<Option<Attack>, LineError>) -> Result<Option<AttackView>, LineError> {
    match r {
        Ok(Some(a)) => Ok(Some(a@)),
        Ok(None) => Ok(None),
        Err(e) => Err(e),
    }
}

/// Takes the text of a captured group out of `g`.
fn take_group(g: &mut Vec<Option<String>>, i: usize) -> (r: Option<String>)
    requires
        i < old(g).len(),
    ensures
        final(g)@.len() == old(g)@.len(),
        r == old(g)@[i as int],
        forall|k: int| 0 <= k < old(g)@.len() && k != i ==> final(g)@[k] == old(g)@[k],
{
    let mut r: Option<String> = None;
    std::mem::swap(&mut r, &mut g[i]);
    r
}

/// Reads the attack that log line `line` reports: see `line_attack`.
pub fn parse_line(line: &str, player: &str) -> (r: Result<Option<Attack>, LineError>)
    ensures
        parsed_view(r) == line_attack(line@, player@),
{
    let groups: Vec<&str> = vec!["attacker", "datetime", "attack", "target", "crittype", "damage", "damagetype"];
    proof {
        assert(group_names(groups@) =~= combat_groups());
    }
    let caps = regex_captures(
        "\\((?P<time>\\d+)\\)\\[(?P<datetime>(\\D|\\d)+)\\] (?P<attacker>\\D*?)(' |'s |YOUR |YOU )(?P<attack>\\D*)(((multi attack)|hits|hit|flurry|(aoe attack)|flurries|(multi attacks)|(aoe attacks))|(( multi attacks)| hits| hit)) (?P<target>\\D+) for(?P<crittype>\\D*)( of | )(?P<damage>\\d+) (?P<damagetype>[A-Za-z]+) damage",
        line,
        groups.as_slice(),
    );
    let mut g = match caps {
        None => {
            return Ok(None);
        },
        Some(g) => g,
    };
    let ghost gv = g@.map_values(
        |o: Option<String>|
            match o {
                Some(s) => Some(s@),
                None => None,
            },
    );
    assert(regex_named_captures(combat_pattern(), line@, combat_groups()) == Some(gv));
    assert(gv.len() == 7);
    let ghost g0 = g@;
    let attacker = take_group(&mut g, 0);
    let datetime = take_group(&mut g, 1);
    let attack = take_group(&mut g, 2);
    let target = take_group(&mut g, 3);
    let crittype = take_group(&mut g, 4);
    let damage = take_group(&mut g, 5);
    let damagetype = take_group(&mut g, 6);
    assert(attacker == g0[0] && datetime == g0[1] && attack == g0[2] && target == g0[3]);
    assert(crittype == g0[4] && damage == g0[5] && damagetype == g0[6]);
    match (attacker, datetime, attack, target, crittype, damage, damagetype) {
        (Some(attacker), Some(datetime), Some(attack), Some(target), Some(crittype), Some(damage), Some(
            damagetype,
        )) => {
            assert(all_present(gv)) by {
                assert forall|i: int| 0 <= i < gv.len() implies #[trigger] gv[i] is Some by {
                    assert(g0[i] is Some);
                }
            }
            let caps = CombatCaptures { datetime, attack, target, crittype, damage, damagetype };
            if crate::text::parse_u64(caps.damage.as_str()).is_none() {
                return Err(LineError::BadDamage);
            }
            let who: &str = if attacker.as_str().is_empty() {
                player
            } else {
                attacker.as_str()
            };
            let mut a = Attack::new();
            a.attack(&caps, who);
            Ok(Some(a))
        },
        _ => {
            assert(!all_present(gv));
            Err(LineError::MissingGroup)
        },
    }
}


/// The spoken triggers: the phrase to say, and the pattern of the log lines
/// that make it be said.
pub open spec fn trigger_table() -> Seq<(Seq<char>, Seq<char>)> {
    seq![("Ruling I am"@, ".*I rule.*"@), ("Verily"@, ".*i also rule.*"@), ("Madness!"@, ".*Madness heals.*"@)]
}

/// The command that says `phrase` aloud.
pub open spec fn speech_command(phrase: Seq<char>) -> Seq<char> {
    "espeak \""@ + phrase + "\""@
}

/// The commands for the triggers of `table` whose pattern matches `line`, in table order.
pub open spec fn trigger_commands_for(table: Seq<(Seq<char>, Seq<char>)>, line: Seq<char>) -> Seq<Seq<char>>
    decreases table.len(),
{
    if table.len() == 0 {
        Seq::empty()
    } else {
        trigger_commands_for(table.drop_last(), line) + if regex_named_captures(
            table.last().1,
            line,
            Seq::empty(),
        ) is Some {
            seq![speech_command(table.last().0)]
        } else {
            Seq::empty()
        }
    }
}

/// A line read as an attack carries, field by field, the texts that the
/// line's named groups captured: the time is the `datetime` group, the
/// victim the `target` group, the crit the `crittype` group and the damage
/// type the `damagetype` group; the damage is the number that the `damage`
/// group writes; the attacker is the `attacker` group, or `player` where
/// that is empty; the attack name is the `attack` group, or `auto attack`
/// where that is empty. A line that the pattern does not match gives no
/// attack.
pub proof fn lemma_parsed_fields(line: Seq<char>, player: Seq<char>)
    ensures
        combat_groups() == seq![
            "attacker"@,
            "datetime"@,
            "attack"@,
            "target"@,
            "crittype"@,
            "damage"@,
            "damagetype"@,
        ],
        regex_named_captures(combat_pattern(), line, combat_groups()) is None ==> line_attack(line, player)
            == Ok::<Option<AttackView>, LineError>(None),
        line_attack(line, player) matches Ok(Some(a)) ==> {
            let g = regex_named_captures(combat_pattern(), line, combat_groups()).unwrap();
            &&& regex_named_captures(combat_pattern(), line, combat_groups()) is Some
            &&& g.len() == 7
            &&& forall|k: int| 0 <= k < 7 ==> #[trigger] g[k] is Some
            &&& a.timestamp == g[1].unwrap()
            &&& a.victim == g[3].unwrap()
            &&& a.crit == g[4].unwrap()
            &&& a.damage_type == g[6].unwrap()
            &&& unsigned_parse(g[5].unwrap(), u64::MAX as nat) == Some(a.damage as nat)
            &&& a.attacker == if g[0].unwrap().len() == 0 {
                player
            } else {
                g[0].unwrap()
            }
            &&& a.attack_name == if g[2].unwrap().len() == 0 {
                "auto attack"@
            } else {
                g[2].unwrap()
            }
        },
{
    if let Ok(Some(a)) = line_attack(line, player) {
        let g = regex_named_captures(combat_pattern(), line, combat_groups()).unwrap();
        assert(all_present(g));
        assert forall|k: int| 0 <= k < 7 implies #[trigger] g[k] is Some by {}
        let d = unsigned_parse(g[5].unwrap(), u64::MAX as nat);
        assert(d is Some);
        assert(d.unwrap() <= u64::MAX);
    }
}

/// Each phrase is said exactly for the lines that its own pattern matches:
/// `Ruling I am` for `.*I rule.*`, `Verily` for `.*i also rule.*` and
/// `Madness!` for `.*Madness heals.*`; nothing else is said.
pub proof fn lemma_trigger_phrases(line: Seq<char>)
    ensures
        ({
            let c = trigger_commands_for(trigger_table(), line);
            &&& c.contains(speech_command("Ruling I am"@)) == (regex_named_captures(".*I rule.*"@, line, Seq::empty()) is Some)
            &&& c.contains(speech_command("Verily"@)) == (regex_named_captures(".*i also rule.*"@, line, Seq::empty()) is Some)
            &&& c.contains(speech_command("Madness!"@)) == (regex_named_captures(".*Madness heals.*"@, line, Seq::empty()) is Some)
            &&& forall|i: int| 0 <= i < c.len() ==> {
                ||| #[trigger] c[i] == speech_command("Ruling I am"@)
                ||| c[i] == speech_command("Verily"@)
                ||| c[i] == speech_command("Madness!"@)
            }
        }),
{
    let t = trigger_table();
    let c = trigger_commands_for(t, line);
    let r1 = speech_command("Ruling I am"@);
    let r2 = speech_command("Verily"@);
    let r3 = speech_command("Madness!"@);
    reveal_strlit("Ruling I am");
    reveal_strlit("Verily");
    reveal_strlit("Madness!");
    reveal_strlit("espeak \"");
    reveal_strlit("\"");
    assert(r1.len() != r2.len() && r1.len() != r3.len() && r2.len() != r3.len());
    let m1 = regex_named_captures(".*I rule.*"@, line, Seq::empty()) is Some;
    let m2 = regex_named_captures(".*i also rule.*"@, line, Seq::empty()) is Some;
    let m3 = regex_named_captures(".*Madness heals.*"@, line, Seq::empty()) is Some;
    let p1: Seq<Seq<char>> = if m1 { seq![r1] } else { Seq::empty() };
    let p2: Seq<Seq<char>> = if m2 { seq![r2] } else { Seq::empty() };
    let p3: Seq<Seq<char>> = if m3 { seq![r3] } else { Seq::empty() };
    let t2 = t.drop_last();
    let t1 = t2.drop_last();
    assert(t1.drop_last() =~= Seq::<(Seq<char>, Seq<char>)>::empty());
    assert(t1.len() == 1 && t2.len() == 2);
    assert(t1.last() == ("Ruling I am"@, ".*I rule.*"@));
    assert(t2.last() == ("Verily"@, ".*i also rule.*"@));
    assert(t.last() == ("Madness!"@, ".*Madness heals.*"@));
    assert(trigger_commands_for(t1.drop_last(), line) == Seq::<Seq<char>>::empty());
    assert(trigger_commands_for(t1, line) == Seq::<Seq<char>>::empty() + p1);
    assert(trigger_commands_for(t2, line) == trigger_commands_for(t1, line) + p2);
    assert(c == trigger_commands_for(t2, line) + p3);
    assert(Seq::<Seq<char>>::empty() + p1 =~= p1);
    assert(c =~= p1 + p2 + p3);
    if m1 {
        assert(c[0] == r1);
    }
    if m2 {
        assert(c[p1.len() as int] == r2);
    }
    if m3 {
        assert(c[(p1.len() + p2.len()) as int] == r3);
    }
    assert forall|i: int| 0 <= i < c.len() implies {
        ||| #[trigger] c[i] == r1
        ||| c[i] == r2
        ||| c[i] == r3
    } by {
        if i < p1.len() {
            assert(c[i] == p1[i]);
        } else if i < p1.len() + p2.len() {
            assert(c[i] == p2[i - p1.len()]);
        } else {
            assert(c[i] == p3[i - p1.len() - p2.len()]);
        }
    }
    if c.contains(r1) {
        let i = choose|i: int| 0 <= i < c.len() && c[i] == r1;
        if i >= p1.len() {
            if i < p1.len() + p2.len() {
                assert(c[i] == p2[i - p1.len()]);
            } else {
                assert(c[i] == p3[i - p1.len() - p2.len()]);
            }
        }
    }
    if c.contains(r2) {
        let i = choose|i: int| 0 <= i < c.len() && c[i] == r2;
        if i < p1.len() {
            assert(c[i] == p1[i]);
        } else if i >= p1.len() + p2.len() {
            assert(c[i] == p3[i - p1.len() - p2.len()]);
        }
    }
    if c.contains(r3) {
        let i = choose|i: int| 0 <= i < c.len() && c[i] == r3;
        if i < p1.len() {
            assert(c[i] == p1[i]);
        } else if i < p1.len() + p2.len() {
            assert(c[i] == p2[i - p1.len()]);
        }
    }
}

/// The content of a sequence of strings.
pub open spec fn strings_view(v: Seq<String>) -> Seq<Seq<char>> {
    v.map_values(|s: String| s@)
}

/// The commands that say the triggers fired by log line `line`. (The loop
/// that reads the log runs each of them.)
pub fn trigger_commands(line: &str) -> (r: Vec<String>)
    ensures
        strings_view(r@) == trigger_commands_for(trigger_table(), line@),
{
    let table: Vec<(&str, &str)> = vec![("Ruling I am", ".*I rule.*"), ("Verily", ".*i also rule.*"), ("Madness!", ".*Madness heals.*")];
    let ghost tv = table@.map_values(|e: (&str, &str)| (e.0@, e.1@));
    assert(tv =~= trigger_table());
    let no_groups: Vec<&str> = Vec::new();
    assert(group_names(no_groups@) =~= Seq::<Seq<char>>::empty());
    let mut out: Vec<String> = Vec::new();
    let mut i: usize = 0;
    while i < table.len()
        invariant
            i <= table.len(),
            tv == table@.map_values(|e: (&str, &str)| (e.0@, e.1@)),
            group_names(no_groups@) == Seq::<Seq<char>>::empty(),
            strings_view(out@) == trigger_commands_for(tv.take(i as int), line@),
        decreases table.len() - i,
    {
        let (phrase, pattern) = table[i];
        assert(tv.take(i + 1).drop_last() =~= tv.take(i as int));
        assert(tv.take(i + 1).last() == (phrase@, pattern@));
        let ghost before = out@;
        if regex_captures(pattern, line, no_groups.as_slice()).is_some() {
            let mut cmd = "espeak \"".to_owned();
            cmd.append(phrase);
            cmd.append("\"");
            out.push(cmd);
            assert(strings_view(out@) =~= strings_view(before).push(speech_command(phrase@)));
        }
        assert(strings_view(out@) =~= trigger_commands_for(tv.take(i + 1), line@));
        i = i + 1;
    }
    assert(tv.take(i as int) =~= tv);
    out
}

/// The state of the loop that follows the log: the attacks gathered since
/// they were last handed on, and whether the current fight is over.
#[derive(Debug)]
pub struct ParseSession {
    pub attacks: Vec<Attack>,
    pub fightdone: bool,
}

/// What the loop does after a timer check: restart the update timer, hand on
/// the gathered attacks as an update, and announce that the fight is over.
#[derive(Debug)]
pub struct TickOutcome {
    pub reset_ui_timer: bool,
    pub update: Option<Vec<Attack>>,
    pub fight_over: bool,
}

impl ParseSession {
    /// No attacks gathered, no fight going on.
    pub fn new() -> (r: ParseSession)
        ensures
            r.attacks@.len() == 0,
            r.fightdone,
    {
        ParseSession { attacks: Vec::new(), fightdone: true }
    }

    /// A log line reported `attack`: it is gathered and a fight is going on.
    pub fn on_attack(&mut self, attack: Attack)
        ensures
            final(self).attacks@ == old(self).attacks@.push(attack),
            !final(self).fightdone,
    {
        self.fightdone = false;
        self.attacks.push(attack);
    }

    /// The timer check after each line (or pause). Where the update is due
    /// (`ui_due`) and a fight with gathered attacks is going on, all gathered
    /// attacks are handed on and the update timer restarts. Where the battle
    /// has been quiet (`battle_quiet`) during a fight, what is still gathered
    /// is dropped and the fight is over.
    pub fn on_timers(&mut self, ui_due: bool, battle_quiet: bool) -> (r: TickOutcome)
        ensures
            ({
                let send = ui_due && old(self).attacks@.len() != 0 && !old(self).fightdone;
                &&& r.reset_ui_timer == send
                &&& r.update is Some == send
                &&& (r.update matches Some(v) ==> v@ == old(self).attacks@)
                &&& r.fight_over == (battle_quiet && !old(self).fightdone)
                &&& final(self).fightdone == (old(self).fightdone || battle_quiet)
                &&& final(self).attacks@ == if send || r.fight_over {
                    Seq::empty()
                } else {
                    old(self).attacks@
                }
            }),
    {
        let mut outcome = TickOutcome { reset_ui_timer: false, update: None, fight_over: false };
        if ui_due && self.attacks.len() != 0 && !self.fightdone {
            outcome.reset_ui_timer = true;
            let mut taken: Vec<Attack> = Vec::new();
            std::mem::swap(&mut taken, &mut self.attacks);
            outcome.update = Some(taken);
        }
        if battle_quiet {
            if !self.fightdone {
                self.attacks.clear();
                self.fightdone = true;
                outcome.fight_over = true;
            }
        }
        outcome
    }
}

/// Every encounter seen so far; the last one is the current one.
#[derive(Debug)]
pub struct EncounterLog {
    pub encounters: Vec<CombatantList>,
}

/// Why handed-on attacks could not all be recorded (the loop that keeps the
/// encounters stops there).
#[derive(Debug, PartialEq, Eq, Structural)]
pub enum RecordError {
    /// The moment a new encounter starts at could not be read.
    StartUnreadable,
    /// The attack at this position could not be recorded: see `record_ok`.
    AttackRejected(usize),
}

/// The moment that a new encounter starts at: what `get_time` reads out of `default_time`.
pub open spec fn fresh_start() -> Option<crate::parserfunctions::TimestampView> {
    time_of("default_time"@)
}

/// The content of a sequence of encounters.
pub open spec fn lists_view(v: Seq<CombatantList>) -> Seq<CombatantListView> {
    v.map_values(|l: CombatantList| l@)
}

/// `l` with its duration set from its start and end.
pub open spec fn with_duration(l: CombatantListView) -> CombatantListView {
    CombatantListView {
        encounter_duration: (unix_seconds(l.encounter_end) - unix_seconds(l.encounter_start)) as u64,
        ..l
    }
}

/// The encounters before handed-on attacks are recorded: a fresh one is
/// added where a new fight began.
pub open spec fn base_lists(encs: Seq<CombatantListView>, new_fight: bool) -> Seq<CombatantListView> {
    if new_fight {
        encs.push(empty_list(fresh_start().unwrap()))
    } else {
        encs
    }
}

/// The encounters after `attacks` are recorded into the current one, whose
/// duration is then set.
pub open spec fn received(encs: Seq<CombatantListView>, new_fight: bool, attacks: Seq<AttackView>) -> Seq<
    CombatantListView,
> {
    let base = base_lists(encs, new_fight);
    if base.len() == 0 {
        base
    } else {
        base.update(base.len() - 1, with_duration(record_all(base.last(), attacks)))
    }
}

impl EncounterLog {
    /// One encounter, starting at the moment read out of `default_time`;
    /// `None` where that cannot be read.
    pub fn new() -> (r: Option<EncounterLog>)
        ensures
            r is Some <==> fresh_start() is Some,
            r matches Some(log) ==> lists_view(log.encounters@) == seq![empty_list(fresh_start().unwrap())],
    {
        match try_get_time("default_time") {
            Some(start) => {
                let mut encounters: Vec<CombatantList> = Vec::new();
                encounters.push(CombatantList::new(start));
                assert(lists_view(encounters@) =~= seq![empty_list(fresh_start().unwrap())]);
                Some(EncounterLog { encounters })
            },
            None => None,
        }
    }

    /// Records attacks handed on by the log-following loop: where a new fight
    /// began a fresh encounter is added first; the attacks go into the last
    /// encounter in order, and its duration is set from its start and end.
    /// Stops at the first attack that cannot be recorded.
    pub fn receive(&mut self, new_fight: bool, attacks: Vec<Attack>) -> (r: Result<(), RecordError>)
        requires
            old(self).encounters.len() > 0 || new_fight || attacks.len() == 0,
        ensures
            ({
                let encs = lists_view(old(self).encounters@);
                let av = crate::datastructures::attacks_view(attacks@);
                let base = base_lists(encs, new_fight);
                match r {
                    Ok(()) => {
                        &&& (new_fight ==> fresh_start() is Some)
                        &&& (base.len() > 0 ==> record_all_ok(base.last(), av))
                        &&& lists_view(final(self).encounters@) == received(encs, new_fight, av)
                    },
                    Err(RecordError::StartUnreadable) => {
                        &&& new_fight
                        &&& fresh_start() is None
                        &&& lists_view(final(self).encounters@) == encs
                    },
                    Err(RecordError::AttackRejected(k)) => {
                        &&& (new_fight ==> fresh_start() is Some)
                        &&& base.len() > 0
                        &&& k < av.len()
                        &&& record_all_ok(base.last(), av.take(k as int))
                        &&& !record_ok(record_all(base.last(), av.take(k as int)), av[k as int])
                        &&& lists_view(final(self).encounters@) == base.update(
                            base.len() - 1,
                            record_all(base.last(), av.take(k as int)),
                        )
                    },
                }
            }),
    {
        let ghost encs = lists_view(self.encounters@);
        let ghost av = crate::datastructures::attacks_view(attacks@);
        if new_fight {
            match try_get_time("default_time") {
                Some(start) => {
                    self.encounters.push(CombatantList::new(start));
                    assert(lists_view(self.encounters@) =~= base_lists(encs, new_fight));
                },
                None => {
                    return Err(RecordError::StartUnreadable);
                },
            }
        }
        let ghost base = base_lists(encs, new_fight);
        assert(lists_view(self.encounters@) =~= base);
        if self.encounters.len() == 0 {
            assert(av =~= Seq::<AttackView>::empty());
            return Ok(());
        }
        let li = self.encounters.len() - 1;
        let ghost first = base[li as int];
        let total = attacks.len();
        assert(av.len() == total);
        let mut rest = attacks;
        let mut k: usize = 0;
        assert(av.take(0) =~= Seq::<AttackView>::empty());
        assert(base.update(li as int, record_all(first, av.take(0))) =~= base);
        assert(crate::datastructures::attacks_view(rest@) =~= av.skip(0));
        while rest.len() > 0
            invariant
                base == base_lists(encs, new_fight),
                encs == lists_view(old(self).encounters@),
                av == crate::datastructures::attacks_view(attacks@),
                new_fight ==> fresh_start() is Some,
                av.len() <= usize::MAX,
                li + 1 == self.encounters.len() == base.len(),
                first == base[li as int],
                k <= av.len(),
                crate::datastructures::attacks_view(rest@) == av.skip(k as int),
                record_all_ok(first, av.take(k as int)),
                lists_view(self.encounters@) == base.update(li as int, record_all(first, av.take(k as int))),
            decreases rest.len(),
        {
            assert(crate::datastructures::attacks_view(rest@).len() == rest@.len());
            let ghost rv = rest@;
            assert(k < av.len());
            assert(crate::datastructures::attacks_view(rv)[0] == rv[0]@);
            assert(av.skip(k as int)[0] == av[k as int]);
            let a = rest.remove(0);
            assert(a@ == av[k as int]);
            assert(av.take(k + 1).drop_last() =~= av.take(k as int));
            assert(av.take(k + 1).last() == av[k as int]);
            assert(lists_view(self.encounters@)[li as int] == self.encounters@[li as int]@);
            assert(self.encounters@[li as int]@ == record_all(first, av.take(k as int)));
            if !self.encounters[li].can_record(&a) {
                assert(base.last() == first);
                assert(base.len() > 0);
                assert(k < av.len());
                assert(record_all_ok(base.last(), av.take(k as int)));
                assert(!record_ok(record_all(base.last(), av.take(k as int)), av[k as int]));
                assert(lists_view(self.encounters@) == base.update(base.len() - 1, record_all(base.last(), av.take(k as int))));
                return Err(RecordError::AttackRejected(k));
            }
            let ghost prev_encs = self.encounters@;
            let ghost prev_list = self.encounters@[li as int]@;
            self.encounters[li].attack(a);
            assert(record_all(first, av.take(k + 1)) == recorded(record_all(first, av.take(k as int)), av[k as int]));
            assert(self.encounters@[li as int]@ == recorded(prev_list, av[k as int]));
            assert forall|i: int| 0 <= i < base.len() implies #[trigger] lists_view(self.encounters@)[i]
                == base.update(li as int, record_all(first, av.take(k + 1)))[i] by {
                if i != li {
                    assert(self.encounters@[i] == prev_encs[i]);
                    assert(lists_view(prev_encs)[i] == base[i]);
                }
            }
            assert forall|i: int| 0 <= i < rest@.len() implies #[trigger] crate::datastructures::attacks_view(rest@)[i] == av.skip(k + 1)[i] by {
                assert(rest@[i] == rv[i + 1]);
                assert(crate::datastructures::attacks_view(rv)[i + 1] == av.skip(k as int)[i + 1]);
            }
            assert(crate::datastructures::attacks_view(rest@) =~= av.skip(k + 1));
            assert(lists_view(self.encounters@) =~= base.update(li as int, record_all(first, av.take(k + 1))));
            k = k + 1;
        }
        assert(av.take(k as int) =~= av);
        assert(lists_view(self.encounters@)[li as int] == self.encounters@[li as int]@);
        let ghost cur = self.encounters@[li as int]@;
        let ghost prev_encs = self.encounters@;
        assert(cur == record_all(first, av));
        let d = elapsed_seconds(&self.encounters[li].encounter_start, &self.encounters[li].encounter_end);
        self.encounters[li].encounter_duration = d;
        assert(self.encounters@[li as int]@ == with_duration(cur));
        assert(base.last() == first);
        assert forall|i: int| 0 <= i < base.len() implies #[trigger] lists_view(self.encounters@)[i]
            == base.update(li as int, with_duration(cur))[i] by {
            if i != li {
                assert(self.encounters@[i] == prev_encs[i]);
                assert(lists_view(prev_encs)[i] == base[i]);
            }
        }
        assert(lists_view(self.encounters@) =~= received(encs, new_fight, av));
        Ok(())
    }
}


/// How a request of the user interface is answered.
#[derive(Debug, PartialEq, Eq, Structural)]
pub struct ResponsePlan {
    /// Whether the answer holds the list of all encounters.
    pub list: bool,
    /// The encounter whose combatants the answer holds, if any.
    pub specific: Option<usize>,
}

impl EncounterLog {
    /// What a request is answered with: nothing while there is no encounter;
    /// else the list of encounters where it asked for them, and the
    /// combatants of encounter `specific` where that encounter exists.
    pub fn response_plan(&self, wants_list: bool, specific: usize) -> (r: Option<ResponsePlan>)
        ensures
            r is Some <==> self.encounters.len() > 0,
            r matches Some(p) ==> p.list == wants_list && p.specific == if specific < self.encounters.len() {
                Some(specific)
            } else {
                None
            },
    {
        if self.encounters.len() == 0 {
            return None;
        }
        let target = if specific < self.encounters.len() {
            Some(specific)
        } else {
            None
        };
        Some(ResponsePlan { list: wants_list, specific: target })
    }
}

/// Where recording a batch never fails, neither does recording any first
/// part of it, nor the attack after that part.
pub proof fn lemma_record_all_ok_prefix(l: CombatantListView, attacks: Seq<AttackView>, k: int)
    requires
        record_all_ok(l, attacks),
        0 <= k < attacks.len(),
    ensures
        record_all_ok(l, attacks.take(k)),
        record_ok(record_all(l, attacks.take(k)), attacks[k]),
    decreases attacks.len(),
{
    let p = attacks.drop_last();
    if k < attacks.len() - 1 {
        assert(p.take(k) =~= attacks.take(k));
        assert(p[k] == attacks[k]);
        lemma_record_all_ok_prefix(l, p, k);
    } else {
        assert(p =~= attacks.take(k));
    }
}

/// Handing a batch of attacks to the log keeps every encounter true to its
/// attacks (see `encounter_consistent`), and nothing in the batch is
/// rejected, while every attack's time can be read, the current encounter's
/// attackers stay fewer than 2^31 and all its damage fits a `u64`.
pub proof fn lemma_receive_keeps_consistency(encs: Seq<CombatantListView>, new_fight: bool, attacks: Seq<AttackView>)
    requires
        forall|i: int| 0 <= i < encs.len() ==> encounter_consistent(#[trigger] encs[i]),
        encs.len() > 0 || new_fight,
        new_fight ==> fresh_start() is Some,
        forall|k: int| 0 <= k < attacks.len() ==> time_of(#[trigger] attacks[k].timestamp) is Some,
        base_lists(encs, new_fight).last().combatants.len() + attacks.len() <= i32::MAX,
        base_lists(encs, new_fight).last().attacks.len() + attacks.len() < usize::MAX,
        damage_sum(base_lists(encs, new_fight).last().attacks, None, None) + damage_sum(attacks, None, None)
            <= u64::MAX,
    ensures
        record_all_ok(base_lists(encs, new_fight).last(), attacks),
        forall|k: int|
            0 <= k < attacks.len() ==> record_ok(
                record_all(base_lists(encs, new_fight).last(), attacks.take(k)),
                #[trigger] attacks[k],
            ),
        forall|i: int|
            0 <= i < received(encs, new_fight, attacks).len() ==> encounter_consistent(
                #[trigger] received(encs, new_fight, attacks)[i],
            ),
{
    let base = base_lists(encs, new_fight);
    if new_fight {
        lemma_empty_list_consistent(fresh_start().unwrap());
    }
    assert forall|i: int| 0 <= i < base.len() implies encounter_consistent(#[trigger] base[i]) by {
        if i < encs.len() {
            assert(base[i] == encs[i]);
        }
    }
    let last = base.last();
    lemma_record_all_keeps_consistency(last, attacks);
    assert forall|k: int| 0 <= k < attacks.len() implies record_ok(
        record_all(last, attacks.take(k)),
        #[trigger] attacks[k],
    ) by {
        lemma_record_all_ok_prefix(last, attacks, k);
    }
    let r = received(encs, new_fight, attacks);
    assert forall|i: int| 0 <= i < r.len() implies encounter_consistent(#[trigger] r[i]) by {
        if i < base.len() - 1 {
            assert(r[i] == base[i]);
        } else {
            assert(r[i] == with_duration(record_all(last, attacks)));
        }
    }
}


/// Every command that a trigger table gives for a line is the speech command
/// of one of the table's phrases.
pub proof fn lemma_trigger_commands_from_table(table: Seq<(Seq<char>, Seq<char>)>, line: Seq<char>)
    ensures
        forall|i: int|
            0 <= i < trigger_commands_for(table, line).len() ==> exists|k: int|
                0 <= k < table.len() && #[trigger] trigger_commands_for(table, line)[i] == speech_command(
                    table[k].0,
                ),
    decreases table.len(),
{
    if table.len() > 0 {
        let p = table.drop_last();
        lemma_trigger_commands_from_table(p, line);
        let r = trigger_commands_for(table, line);
        let q = trigger_commands_for(p, line);
        assert forall|i: int| 0 <= i < r.len() implies exists|k: int|
            0 <= k < table.len() && #[trigger] r[i] == speech_command(table[k].0) by {
            if i < q.len() {
                assert(r[i] == q[i]);
                let k = choose|k: int| 0 <= k < p.len() && q[i] == speech_command(p[k].0);
                assert(table[k] == p[k]);
            } else {
                assert(r[i] == speech_command(table[table.len() - 1].0));
            }
        }
    }
}

/// Only the three fixed speech commands are ever run for a log line: no
/// text of the line reaches the shell.
pub proof fn lemma_only_fixed_commands(line: Seq<char>)
    ensures
        forall|i: int|
            0 <= i < trigger_commands_for(trigger_table(), line).len() ==> {
                let c = #[trigger] trigger_commands_for(trigger_table(), line)[i];
                ||| c == speech_command("Ruling I am"@)
                ||| c == speech_command("Verily"@)
                ||| c == speech_command("Madness!"@)
            },
{
    lemma_trigger_commands_from_table(trigger_table(), line);
    let t = trigger_table();
    assert(t[0].0 == "Ruling I am"@ && t[1].0 == "Verily"@ && t[2].0 == "Madness!"@);
}

} // verus!
