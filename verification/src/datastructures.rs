//! The records that a combat log is turned into: attacks, per-attack-name
//! statistics, combatants, and the list of everything seen in one encounter.

use vstd::prelude::*;
use crate::parserfunctions::{Timestamp, TimestampView, get_time, time_of};
use crate::text::{
    chars_of, clip, contains_chars, contains_seq, decimal, is_white, is_white_exec, is_word, pad_after,
    pad_before, parse_u64, push_field, push_number_right, push_range, push_str, string_of, unsigned_parse,
};

verus! {

/// One hit, as read from one line of the combat log.
#[derive(Debug)]
pub struct Attack {
    pub attacker: String,
    pub damage: u64,
    pub victim: String,
    pub timestamp: String,
    pub attack_name: String,
    pub crit: String,
    pub damage_type: String,
}

/// The content of an `Attack`.
pub struct AttackView {
    pub attacker: Seq<char>,
    pub damage: u64,
    pub victim: Seq<char>,
    pub timestamp: Seq<char>,
    pub attack_name: Seq<char>,
    pub crit: Seq<char>,
    pub damage_type: Seq<char>,
}

impl View for Attack {
    type V = AttackView;

    open spec fn view(&self) -> AttackView {
        AttackView {
            attacker: self.attacker@,
            damage: self.damage,
            victim: self.victim@,
            timestamp: self.timestamp@,
            attack_name: self.attack_name@,
            crit: self.crit@,
            damage_type: self.damage_type@,
        }
    }
}

/// The texts of the named groups of one matched combat-log line.
#[derive(Debug)]
pub struct CombatCaptures {
    pub datetime: String,
    pub attack: String,
    pub target: String,
    pub crittype: String,
    pub damage: String,
    pub damagetype: String,
}

/// The attack of a fresh `Attack::new()`: every text `undefined`, no damage.
pub open spec fn blank_attack() -> AttackView {
    AttackView {
        attacker: "undefined"@,
        damage: 0,
        victim: "undefined"@,
        timestamp: "undefined"@,
        attack_name: "undefined"@,
        crit: "undefined"@,
        damage_type: "undefined"@,
    }
}

/// The name under which an attack is recorded: an empty name is an auto attack.
pub open spec fn attack_name_of(captured: Seq<char>) -> Seq<char> {
    if captured.len() == 0 {
        "auto attack"@
    } else {
        captured
    }
}

/// The damage that the captured damage text writes, where it is a `u64`.
pub open spec fn captured_damage(c: CombatCaptures) -> Option<nat> {
    unsigned_parse(c.damage@, u64::MAX as nat)
}

/// The attack that `attacker` made, as the captured groups `c` describe it.
pub open spec fn attack_from(c: CombatCaptures, attacker: Seq<char>) -> AttackView {
    AttackView {
        attacker: attacker,
        damage: captured_damage(c).unwrap() as u64,
        victim: c.target@,
        timestamp: c.datetime@,
        attack_name: attack_name_of(c.attack@),
        crit: c.crittype@,
        damage_type: c.damagetype@,
    }
}

/// The word `w` occurs in one of the texts of the attack: time, victim,
/// attack name, crit or damage type.
pub open spec fn word_matches(a: AttackView, w: Seq<char>) -> bool {
    ||| contains_seq(a.timestamp, w)
    ||| contains_seq(a.victim, w)
    ||| contains_seq(a.attack_name, w)
    ||| contains_seq(a.crit, w)
    ||| contains_seq(a.damage_type, w)
}

/// The attack passes the filter: its attacker's name contains `who`, and
/// (unless the filter's length in bytes, as an `i32`, is zero) every
/// whitespace-separated word of `filters` occurs in its time, victim, attack
/// name, crit or damage type.
pub open spec fn filter_accepts(a: AttackView, filters: Seq<char>, filter_bytes: usize, who: Seq<char>) -> bool {
    &&& contains_seq(a.attacker, who)
    &&& ((filter_bytes as i32) == 0 || forall|i: int, j: int|
        #[trigger] is_word(filters, i, j) ==> word_matches(a, filters.subrange(i, j)))
}

impl Attack {
    /// Fills the attack in from the groups of a matched log line, made by
    /// `attacker`; an empty attack name becomes `auto attack`.
    pub fn attack(&mut self, attack_data: &CombatCaptures, attacker: &str)
        requires
            captured_damage(*attack_data) is Some,
        ensures
            final(self)@ == attack_from(*attack_data, attacker@),
    {
        self.attacker = attacker.to_owned();
        self.damage = parse_u64(attack_data.damage.as_str()).unwrap();
        self.victim = attack_data.target.clone();
        self.timestamp = attack_data.datetime.clone();
        self.attack_name = if attack_data.attack.as_str().is_empty() {
            "auto attack".to_owned()
        } else {
            attack_data.attack.clone()
        };
        self.crit = attack_data.crittype.clone();
        self.damage_type = attack_data.damagetype.clone();
    }

    /// Whether the attack passes the filter: see `filter_accepts`.
    pub fn filter(&self, filters: &str, attacker: &String) -> (r: bool)
        ensures
            r == filter_accepts(self@, filters@, filters.len(), attacker@),
    {
        let own = chars_of(self.attacker.as_str());
        let who = chars_of(attacker.as_str());
        if !contains_chars(&own, &who) {
            return false;
        }
        let flen = (#[verifier::truncate] (filters.len() as i32));
        if flen != 0 {
            let f = chars_of(filters);
            let ts = chars_of(self.timestamp.as_str());
            let victim = chars_of(self.victim.as_str());
            let name = chars_of(self.attack_name.as_str());
            let crit = chars_of(self.crit.as_str());
            let dtype = chars_of(self.damage_type.as_str());
            let n = f.len();
            let mut i: usize = 0;
            while i < n
                invariant
                    i <= n == f@.len(),
                    f@ == filters@,
                    flen == (#[verifier::truncate] (filters.len() as i32)),
                    flen != 0,
                    contains_seq(self.attacker@, attacker@),
                    ts@ == self.timestamp@,
                    victim@ == self.victim@,
                    name@ == self.attack_name@,
                    crit@ == self.crit@,
                    dtype@ == self.damage_type@,
                    i == 0 || i == n || is_white(f@[i - 1]) || is_white(f@[i as int]),
                    forall|a: int, b: int|
                        #[trigger] is_word(f@, a, b) && a < i ==> word_matches(self@, f@.subrange(a, b)),
                decreases n - i,
            {
                let i0 = i;
                while i < n && is_white_exec(f[i])
                    invariant
                        i0 <= i <= n == f@.len(),
                        forall|k: int| i0 <= k < i ==> is_white(#[trigger] f@[k]),
                    decreases n - i,
                {
                    i = i + 1;
                }
                if i < n {
                    let start = i;
                    while i < n && !is_white_exec(f[i])
                        invariant
                            start <= i <= n == f@.len(),
                            forall|k: int| start <= k < i ==> !is_white(#[trigger] f@[k]),
                        decreases n - i,
                    {
                        i = i + 1;
                    }
                    let mut word: Vec<char> = Vec::new();
                    push_range(&mut word, &f, start, i);
                    assert(word@ =~= f@.subrange(start as int, i as int));
                    assert(is_word(f@, start as int, i as int));
                    if !contains_chars(&ts, &word) && !contains_chars(&victim, &word) && !contains_chars(
                        &name,
                        &word,
                    ) && !contains_chars(&crit, &word) && !contains_chars(&dtype, &word) {
                        assert(!word_matches(self@, f@.subrange(start as int, i as int)));
                        assert(is_word(filters@, start as int, i as int));
                        return false;
                    }
                    assert forall|a: int, b: int|
                        #[trigger] is_word(f@, a, b) && a < i implies word_matches(self@, f@.subrange(a, b)) by {
                        if a >= i0 {
                            if a < start {
                                assert(is_white(f@[a]));
                            } else if a > start {
                                assert(!is_white(f@[a - 1]));
                            } else {
                                assert(b == i) by {
                                    if b < i {
                                        assert(!is_white(f@[b]));
                                    } else if b > i {
                                        assert(!is_white(f@[i as int]));
                                    }
                                }
                            }
                        }
                    }
                } else {
                    assert forall|a: int, b: int|
                        #[trigger] is_word(f@, a, b) && a < i implies word_matches(self@, f@.subrange(a, b)) by {
                        if a >= i0 {
                            assert(is_white(f@[a]));
                        }
                    }
                }
            }
        }
        true
    }

    /// A fresh attack: every text `undefined`, no damage.
    pub fn new() -> (r: Attack)
        ensures
            r@ == blank_attack(),
    {
        Attack {
            attacker: "undefined".to_owned(),
            damage: 0,
            victim: "undefined".to_owned(),
            timestamp: "undefined".to_owned(),
            attack_name: "undefined".to_owned(),
            crit: "undefined".to_owned(),
            damage_type: "undefined".to_owned(),
        }
    }
}

impl Clone for Attack {
    fn clone(&self) -> (r: Attack)
        ensures
            r == *self,
    {
        Attack {
            attacker: self.attacker.clone(),
            damage: self.damage,
            victim: self.victim.clone(),
            timestamp: self.timestamp.clone(),
            attack_name: self.attack_name.clone(),
            crit: self.crit.clone(),
            damage_type: self.damage_type.clone(),
        }
    }
}


/// The content of a sequence of attacks.
pub open spec fn attacks_view(v: Seq<Attack>) -> Seq<AttackView> {
    v.map_values(|a: Attack| a@)
}

/// Statistics of all hits with one attack name: which hit was the highest
/// (an index into the encounter's attacks) and the damage of all of them.
#[derive(Debug)]
pub struct AttackStats {
    pub name: String,
    pub attack_nmbr: usize,
    pub total_damage: u64,
}

/// The content of an `AttackStats`.
pub struct AttackStatsView {
    pub name: Seq<char>,
    pub attack_nmbr: usize,
    pub total_damage: u64,
}

impl View for AttackStats {
    type V = AttackStatsView;

    open spec fn view(&self) -> AttackStatsView {
        AttackStatsView { name: self.name@, attack_nmbr: self.attack_nmbr, total_damage: self.total_damage }
    }
}

/// The content of a sequence of statistics.
pub open spec fn stats_view(v: Seq<AttackStats>) -> Seq<AttackStatsView> {
    v.map_values(|s: AttackStats| s@)
}

/// Fresh statistics for attack `n`, the first hit with its name.
pub open spec fn new_stats(attacks: Seq<AttackView>, n: int) -> AttackStatsView {
    AttackStatsView {
        name: attacks[n].attack_name,
        attack_nmbr: n as usize,
        total_damage: attacks[n].damage,
    }
}

/// `s` after attack `n`, a hit with its name: the highest hit becomes `n`
/// where `n` did strictly more damage, and the damage is added.
pub open spec fn stats_hit(s: AttackStatsView, attacks: Seq<AttackView>, n: int) -> AttackStatsView {
    AttackStatsView {
        name: s.name,
        attack_nmbr: if attacks[s.attack_nmbr as int].damage < attacks[n].damage {
            n as usize
        } else {
            s.attack_nmbr
        },
        total_damage: (s.total_damage + attacks[n].damage) as u64,
    }
}

/// `stats_hit` reads an existing attack and its sum fits a `u64`.
pub open spec fn stats_hit_ok(s: AttackStatsView, attacks: Seq<AttackView>, n: int) -> bool {
    s.attack_nmbr < attacks.len() && s.total_damage + attacks[n].damage <= u64::MAX
}

/// The position of the first statistics named `name`; `ss.len()` where none is.
pub open spec fn stats_index(ss: Seq<AttackStatsView>, name: Seq<char>) -> int
    decreases ss.len(),
{
    if ss.len() == 0 {
        0
    } else if ss[0].name == name {
        0
    } else {
        1 + stats_index(ss.drop_first(), name)
    }
}

/// The statistics `ss` after attack `n`: the first statistics with its name
/// takes the hit, or, where none has that name, fresh statistics are added at
/// the end.
pub open spec fn stats_after(ss: Seq<AttackStatsView>, attacks: Seq<AttackView>, n: int) -> Seq<AttackStatsView> {
    let j = stats_index(ss, attacks[n].attack_name);
    if j < ss.len() {
        ss.update(j, stats_hit(ss[j], attacks, n))
    } else {
        ss.push(new_stats(attacks, n))
    }
}

/// Recording attack `n` into `ss` reads only existing attacks and overflows nothing.
pub open spec fn stats_after_ok(ss: Seq<AttackStatsView>, attacks: Seq<AttackView>, n: int) -> bool {
    let j = stats_index(ss, attacks[n].attack_name);
    j < ss.len() ==> stats_hit_ok(ss[j], attacks, n)
}

/// `x` inserted into `t` after the leading statistics with at least its damage.
pub open spec fn insert_by_total(t: Seq<AttackStatsView>, x: AttackStatsView) -> Seq<AttackStatsView>
    decreases t.len(),
{
    if t.len() == 0 {
        seq![x]
    } else if t[0].total_damage >= x.total_damage {
        seq![t[0]] + insert_by_total(t.drop_first(), x)
    } else {
        seq![x] + t
    }
}

/// `s` ordered by total damage, highest first, statistics of equal damage
/// keeping their order (what the stable `sort` of `AttackStats` gives).
pub open spec fn sort_by_total(s: Seq<AttackStatsView>) -> Seq<AttackStatsView>
    decreases s.len(),
{
    if s.len() == 0 {
        s
    } else {
        insert_by_total(sort_by_total(s.drop_last()), s.last())
    }
}

/// The position that `stats_index` gives is the first with the name.
pub proof fn lemma_stats_index(ss: Seq<AttackStatsView>, name: Seq<char>)
    ensures
        0 <= stats_index(ss, name) <= ss.len(),
        stats_index(ss, name) < ss.len() ==> ss[stats_index(ss, name)].name == name,
        forall|k: int| 0 <= k < stats_index(ss, name) ==> #[trigger] ss[k].name != name,
    decreases ss.len(),
{
    if ss.len() > 0 && ss[0].name != name {
        lemma_stats_index(ss.drop_first(), name);
        assert forall|k: int| 0 <= k < stats_index(ss, name) implies #[trigger] ss[k].name != name by {
            if k > 0 {
                assert(ss[k] == ss.drop_first()[k - 1]);
            }
        }
    }
}

/// The first position with the name is the one that `stats_index` gives.
pub proof fn lemma_stats_index_first(ss: Seq<AttackStatsView>, name: Seq<char>, j: int)
    requires
        0 <= j <= ss.len(),
        j < ss.len() ==> ss[j].name == name,
        forall|k: int| 0 <= k < j ==> #[trigger] ss[k].name != name,
    ensures
        stats_index(ss, name) == j,
    decreases ss.len(),
{
    if ss.len() > 0 && j > 0 {
        assert(ss[0].name != name);
        assert forall|k: int| 0 <= k < j - 1 implies #[trigger] ss.drop_first()[k].name != name by {
            assert(ss.drop_first()[k] == ss[k + 1]);
        }
        lemma_stats_index_first(ss.drop_first(), name, j - 1);
    }
}

impl AttackStats {
    /// Takes attack `attack_nmbr` where it has this name: it becomes the
    /// highest hit where it did strictly more damage, and its damage is
    /// added. Whether the name matched is returned.
    pub fn find_attackname(&mut self, attacks: &Vec<Attack>, attack_nmbr: usize) -> (r: bool)
        requires
            attack_nmbr < attacks.len(),
            old(self)@.name == attacks@[attack_nmbr as int]@.attack_name ==> stats_hit_ok(
                old(self)@,
                attacks_view(attacks@),
                attack_nmbr as int,
            ),
        ensures
            r == (old(self)@.name == attacks@[attack_nmbr as int]@.attack_name),
            final(self)@ == if r {
                stats_hit(old(self)@, attacks_view(attacks@), attack_nmbr as int)
            } else {
                old(self)@
            },
    {
        if self.name == attacks[attack_nmbr].attack_name {
            if attacks[self.attack_nmbr].damage < attacks[attack_nmbr].damage {
                self.attack_nmbr = attack_nmbr;
            }
            self.total_damage = self.total_damage + attacks[attack_nmbr].damage;
            true
        } else {
            false
        }
    }

    /// Fresh statistics for attack `attack_nmbr`.
    pub fn new(attacks: &Vec<Attack>, attack_nmbr: usize) -> (r: AttackStats)
        requires
            attack_nmbr < attacks.len(),
        ensures
            r@ == new_stats(attacks_view(attacks@), attack_nmbr as int),
    {
        AttackStats {
            name: attacks[attack_nmbr].attack_name.clone(),
            attack_nmbr: attack_nmbr,
            total_damage: attacks[attack_nmbr].damage,
        }
    }
}

/// Records attack `n` into `stats`: the first statistics with its name
/// takes the hit, or fresh statistics are added at the end.
fn record_in_stats(stats: &mut Vec<AttackStats>, attacks: &Vec<Attack>, n: usize)
    requires
        n < attacks.len(),
        stats_after_ok(stats_view(old(stats)@), attacks_view(attacks@), n as int),
    ensures
        stats_view(final(stats)@) == stats_after(stats_view(old(stats)@), attacks_view(attacks@), n as int),
{
    let ghost ss = stats_view(stats@);
    let ghost av = attacks_view(attacks@);
    let ghost name = av[n as int].attack_name;
    proof {
        lemma_stats_index(ss, name);
    }
    let mut exists = false;
    let mut k: usize = 0;
    while k < stats.len()
        invariant_except_break
            !exists,
            stats_view(stats@) == ss,
            forall|m: int| 0 <= m < k ==> #[trigger] ss[m].name != name,
        invariant
            n < attacks.len(),
            av == attacks_view(attacks@),
            name == av[n as int].attack_name,
            k <= stats.len() == ss.len(),
            stats_after_ok(ss, av, n as int),
            0 <= stats_index(ss, name) <= ss.len(),
            stats_index(ss, name) < ss.len() ==> ss[stats_index(ss, name)].name == name,
        ensures
            exists ==> k < ss.len() && ss[k as int].name == name && stats_view(stats@) == ss.update(
                k as int,
                stats_hit(ss[k as int], av, n as int),
            ) && forall|m: int| 0 <= m < k ==> #[trigger] ss[m].name != name,
            !exists ==> stats_view(stats@) == ss && k == ss.len() && forall|m: int|
                0 <= m < ss.len() ==> #[trigger] ss[m].name != name,
        decreases stats.len() - k,
    {
        proof {
            assert(ss[k as int] == stats@[k as int]@);
            if ss[k as int].name == name {
                lemma_stats_index_first(ss, name, k as int);
            }
        }
        exists = stats[k].find_attackname(attacks, n);
        if exists {
            assert(stats_view(stats@) =~= ss.update(k as int, stats_hit(ss[k as int], av, n as int)));
            break;
        }
        assert(stats_view(stats@) =~= ss);
        k = k + 1;
    }
    if !exists {
        proof {
            lemma_stats_index_first(ss, name, ss.len() as int);
        }
        let fresh = AttackStats::new(attacks, n);
        stats.push(fresh);
        assert(stats_view(stats@) =~= ss.push(new_stats(av, n as int)));
    } else {
        proof {
            lemma_stats_index_first(ss, name, k as int);
        }
    }
}


/// Orders statistics by total damage, highest first, keeping the order of
/// statistics with equal damage: the effect of `sort` under the ordering of
/// `AttackStats`.
fn sort_stats(v: Vec<AttackStats>) -> (r: Vec<AttackStats>)
    ensures
        stats_view(r@) == sort_by_total(stats_view(v@)),
{
    let ghost sv = stats_view(v@);
    let ghost mut k: int = 0;
    let mut rest = v;
    let mut out: Vec<AttackStats> = Vec::new();
    assert(sv.take(0) =~= Seq::<AttackStatsView>::empty());
    assert(stats_view(out@) =~= sort_by_total(sv.take(0)));
    assert(stats_view(rest@) =~= sv.skip(0));
    while rest.len() > 0
        invariant
            0 <= k <= sv.len(),
            stats_view(rest@) == sv.skip(k),
            stats_view(out@) == sort_by_total(sv.take(k)),
        decreases rest.len(),
    {
        let ghost ov = stats_view(out@);
        assert(stats_view(rest@).len() == rest@.len());
        assert(k < sv.len());
        assert(stats_view(rest@)[0] == sv[k]);
        let ghost rv = rest@;
        let x = rest.remove(0);
        assert forall|i: int| 0 <= i < rest@.len() implies #[trigger] stats_view(rest@)[i] == sv.skip(k + 1)[i] by {
            assert(rest@[i] == rv[i + 1]);
            assert(stats_view(rv)[i + 1] == sv.skip(k)[i + 1]);
        }
        assert(x@ == sv[k]);
        let mut p: usize = 0;
        assert(ov.skip(0) =~= ov);
        assert(ov.take(0) + ov.skip(0) =~= ov);
        while p < out.len() && out[p].total_damage >= x.total_damage
            invariant
                p <= out.len(),
                ov == stats_view(out@),
                insert_by_total(ov, x@) == ov.take(p as int) + insert_by_total(ov.skip(p as int), x@),
            decreases out.len() - p,
        {
            let ghost t = ov.skip(p as int);
            assert(t[0] == ov[p as int]);
            assert(t.drop_first() =~= ov.skip(p + 1));
            assert(insert_by_total(t, x@) == seq![ov[p as int]] + insert_by_total(ov.skip(p + 1), x@));
            assert(ov.take(p as int) + seq![ov[p as int]] =~= ov.take(p + 1));
            assert(ov.take(p as int) + (seq![ov[p as int]] + insert_by_total(ov.skip(p + 1), x@))
                =~= ov.take(p + 1) + insert_by_total(ov.skip(p + 1), x@));
            p = p + 1;
        }
        proof {
            let t = ov.skip(p as int);
            if p == out.len() {
                assert(t.len() == 0);
            } else {
                assert(t[0] == ov[p as int]);
            }
            assert(insert_by_total(t, x@) == seq![x@] + t);
            assert(ov.take(p as int) + (seq![x@] + t) =~= ov.insert(p as int, x@));
            assert(sv.take(k + 1).drop_last() =~= sv.take(k));
            assert(sv.take(k + 1).last() == sv[k]);
            assert(sort_by_total(sv.take(k + 1)) == insert_by_total(sort_by_total(sv.take(k)), sv[k]));
        }
        out.insert(p, x);
        assert(stats_view(out@) =~= ov.insert(p as int, x@));
        assert(stats_view(rest@) =~= sv.skip(k + 1));
        proof {
            k = k + 1;
        }
    }
    assert(sv.take(k) =~= sv);
    out
}

/// A combatant of an encounter and what it did.
#[derive(Debug)]
pub struct Combatant {
    pub name: String,
    pub highest_hit: Attack,
    pub highest_heal: Attack,
    pub final_healed: u64,
    pub final_damage: u64,
    pub attack_stats: Vec<AttackStats>,
    pub combatstart: Timestamp,
    pub sort_by_dps: bool,
}

/// The content of a `Combatant`.
pub struct CombatantView {
    pub name: Seq<char>,
    pub highest_hit: AttackView,
    pub highest_heal: AttackView,
    pub final_healed: u64,
    pub final_damage: u64,
    pub attack_stats: Seq<AttackStatsView>,
    pub combatstart: TimestampView,
    pub sort_by_dps: bool,
}

impl View for Combatant {
    type V = CombatantView;

    open spec fn view(&self) -> CombatantView {
        CombatantView {
            name: self.name@,
            highest_hit: self.highest_hit@,
            highest_heal: self.highest_heal@,
            final_healed: self.final_healed,
            final_damage: self.final_damage,
            attack_stats: stats_view(self.attack_stats@),
            combatstart: self.combatstart@,
            sort_by_dps: self.sort_by_dps,
        }
    }
}

/// `c` with the statistics `ss`.
pub open spec fn with_stats(c: CombatantView, ss: Seq<AttackStatsView>) -> CombatantView {
    CombatantView { attack_stats: ss, ..c }
}

impl Combatant {
    /// Records attack `attack_nmbr` in the combatant's statistics (the first
    /// statistics with its name take it, or fresh ones are added), then orders
    /// them by total damage, highest first.
    pub fn attack(&mut self, attacks: &Vec<Attack>, attack_nmbr: usize)
        requires
            attack_nmbr < attacks.len(),
            stats_after_ok(old(self)@.attack_stats, attacks_view(attacks@), attack_nmbr as int),
        ensures
            final(self)@ == with_stats(
                old(self)@,
                sort_by_total(stats_after(old(self)@.attack_stats, attacks_view(attacks@), attack_nmbr as int)),
            ),
    {
        record_in_stats(&mut self.attack_stats, attacks, attack_nmbr);
        let mut stats: Vec<AttackStats> = Vec::new();
        std::mem::swap(&mut stats, &mut self.attack_stats);
        self.attack_stats = sort_stats(stats);
    }
}


/// Someone who attacked, with the damage they did.
#[derive(Debug)]
pub struct Attacker {
    pub attacks: Vec<Attack>,
    pub final_damage: u64,
    pub final_healed: u64,
    pub name: String,
}

impl Attacker {
    /// Adds the damage of a matched log line to the attacker's damage.
    pub fn attack(&mut self, attack_data: &CombatCaptures)
        requires
            captured_damage(*attack_data) is Some,
            old(self).final_damage + captured_damage(*attack_data).unwrap() <= u64::MAX,
        ensures
            final(self).final_damage == old(self).final_damage + captured_damage(*attack_data).unwrap(),
            final(self).final_healed == old(self).final_healed,
            final(self).name == old(self).name,
            final(self).attacks == old(self).attacks,
    {
        self.final_damage = self.final_damage + parse_u64(attack_data.damage.as_str()).unwrap();
    }
}

impl Clone for Attacker {
    fn clone(&self) -> (r: Attacker)
        ensures
            attacks_view(r.attacks@) == attacks_view(self.attacks@),
            r.final_damage == self.final_damage,
            r.final_healed == self.final_healed,
            r.name == self.name,
    {
        let attacks = self.attacks.clone();
        assert(attacks@ =~= self.attacks@);
        Attacker {
            attacks: attacks,
            final_damage: self.final_damage,
            final_healed: self.final_healed,
            name: self.name.clone(),
        }
    }
}

/// The content of a sequence of combatants.
pub open spec fn combatants_view(v: Seq<Combatant>) -> Seq<CombatantView> {
    v.map_values(|c: Combatant| c@)
}

/// The position of the first combatant named `name`; `cs.len()` where none is.
pub open spec fn combatant_index(cs: Seq<CombatantView>, name: Seq<char>) -> int
    decreases cs.len(),
{
    if cs.len() == 0 {
        0
    } else if cs[0].name == name {
        0
    } else {
        1 + combatant_index(cs.drop_first(), name)
    }
}

/// The position that `combatant_index` gives is the first with the name.
pub proof fn lemma_combatant_index(cs: Seq<CombatantView>, name: Seq<char>)
    ensures
        0 <= combatant_index(cs, name) <= cs.len(),
        combatant_index(cs, name) < cs.len() ==> cs[combatant_index(cs, name)].name == name,
        forall|k: int| 0 <= k < combatant_index(cs, name) ==> #[trigger] cs[k].name != name,
    decreases cs.len(),
{
    if cs.len() > 0 && cs[0].name != name {
        lemma_combatant_index(cs.drop_first(), name);
        assert forall|k: int| 0 <= k < combatant_index(cs, name) implies #[trigger] cs[k].name != name by {
            if k > 0 {
                assert(cs[k] == cs.drop_first()[k - 1]);
            }
        }
    }
}

/// The first position with the name is the one that `combatant_index` gives.
pub proof fn lemma_combatant_index_first(cs: Seq<CombatantView>, name: Seq<char>, j: int)
    requires
        0 <= j <= cs.len(),
        j < cs.len() ==> cs[j].name == name,
        forall|k: int| 0 <= k < j ==> #[trigger] cs[k].name != name,
    ensures
        combatant_index(cs, name) == j,
    decreases cs.len(),
{
    if cs.len() > 0 && j > 0 {
        assert(cs[0].name != name);
        assert forall|k: int| 0 <= k < j - 1 implies #[trigger] cs.drop_first()[k].name != name by {
            assert(cs.drop_first()[k] == cs[k + 1]);
        }
        lemma_combatant_index_first(cs.drop_first(), name, j - 1);
    }
}

/// Everything recorded of one encounter.
#[derive(Debug)]
pub struct CombatantList {
    pub combatants: Vec<Combatant>,
    pub attacks: Vec<Attack>,
    pub attack_stats: Vec<AttackStats>,
    pub encounter_start: Timestamp,
    pub encounter_end: Timestamp,
    pub encounter_duration: u64,
    pub highest_hit: Attack,
    pub highest_heal: Attack,
}

/// The content of a `CombatantList`.
pub struct CombatantListView {
    pub combatants: Seq<CombatantView>,
    pub attacks: Seq<AttackView>,
    pub attack_stats: Seq<AttackStatsView>,
    pub encounter_start: TimestampView,
    pub encounter_end: TimestampView,
    pub encounter_duration: u64,
    pub highest_hit: AttackView,
    pub highest_heal: AttackView,
}

impl View for CombatantList {
    type V = CombatantListView;

    open spec fn view(&self) -> CombatantListView {
        CombatantListView {
            combatants: combatants_view(self.combatants@),
            attacks: attacks_view(self.attacks@),
            attack_stats: stats_view(self.attack_stats@),
            encounter_start: self.encounter_start@,
            encounter_end: self.encounter_end@,
            encounter_duration: self.encounter_duration,
            highest_hit: self.highest_hit@,
            highest_heal: self.highest_heal@,
        }
    }
}

/// A combatant first seen with attack `n` (which is `a`) at `start`.
pub open spec fn new_combatant(a: AttackView, attacks: Seq<AttackView>, n: int, start: TimestampView) -> CombatantView {
    CombatantView {
        name: a.attacker,
        highest_hit: blank_attack(),
        highest_heal: blank_attack(),
        final_healed: 0,
        final_damage: a.damage,
        attack_stats: seq![new_stats(attacks, n)],
        combatstart: start,
        sort_by_dps: true,
    }
}

/// Combatant `c` after its attack `n`: its damage grows by the hit, which its
/// statistics record, and they are ordered by total damage again.
pub open spec fn combatant_hit(c: CombatantView, attacks: Seq<AttackView>, n: int) -> CombatantView {
    CombatantView {
        final_damage: (c.final_damage + attacks[n].damage) as u64,
        attack_stats: sort_by_total(stats_after(c.attack_stats, attacks, n)),
        ..c
    }
}

/// The encounter `l` after attack `a`: the attack is appended; its attacker
/// (found by name, or added at the end) takes the hit; the encounter's
/// statistics record it; the encounter ends at the attack's time, and starts
/// there too where it is the first attack.
pub open spec fn recorded(l: CombatantListView, a: AttackView) -> CombatantListView {
    let t = time_of(a.timestamp).unwrap();
    let attacks = l.attacks.push(a);
    let n = l.attacks.len() as int;
    let i = combatant_index(l.combatants, a.attacker);
    CombatantListView {
        combatants: if i < l.combatants.len() {
            l.combatants.update(i, combatant_hit(l.combatants[i], attacks, n))
        } else {
            l.combatants.push(new_combatant(a, attacks, n, t))
        },
        attacks: attacks,
        attack_stats: stats_after(l.attack_stats, attacks, n),
        encounter_start: if l.attacks.len() == 0 {
            t
        } else {
            l.encounter_start
        },
        encounter_end: t,
        ..l
    }
}

/// Recording attack `a` into `l` neither panics nor overflows: its time can be
/// read, and the sums and the highest hits it touches are in range.
pub open spec fn record_ok(l: CombatantListView, a: AttackView) -> bool {
    let attacks = l.attacks.push(a);
    let n = l.attacks.len() as int;
    let i = combatant_index(l.combatants, a.attacker);
    &&& time_of(a.timestamp) is Some
    &&& l.combatants.len() <= i32::MAX
    &&& i < l.combatants.len() ==> {
        &&& l.combatants[i].final_damage + a.damage <= u64::MAX
        &&& stats_after_ok(l.combatants[i].attack_stats, attacks, n)
    }
    &&& stats_after_ok(l.attack_stats, attacks, n)
}

/// An encounter that starts (and, so far, ends) at `start` with nothing recorded.
pub open spec fn empty_list(start: TimestampView) -> CombatantListView {
    CombatantListView {
        combatants: Seq::empty(),
        attacks: Seq::empty(),
        attack_stats: Seq::empty(),
        encounter_start: start,
        encounter_end: start,
        encounter_duration: 0,
        highest_hit: blank_attack(),
        highest_heal: blank_attack(),
    }
}

impl CombatantList {
    /// Records one attack: see `recorded`.
    pub fn attack(&mut self, attack: Attack)
        requires
            record_ok(old(self)@, attack@),
        ensures
            final(self)@ == recorded(old(self)@, attack@),
    {
        let ghost l = self@;
        let ghost a = attack@;
        let ghost t = time_of(a.timestamp).unwrap();
        if self.attacks.len() == 0 {
            self.encounter_start = get_time(attack.timestamp.as_str());
        }
        self.encounter_end = get_time(attack.timestamp.as_str());
        let who = self.find_combatant(attack.attacker.as_str());
        proof {
            lemma_combatant_index(l.combatants, a.attacker);
        }
        let ghost i = combatant_index(l.combatants, a.attacker);
        let ghost attacks = l.attacks.push(a);
        let ghost n = l.attacks.len() as int;
        if who == -1 {
            let start = get_time(attack.timestamp.as_str());
            let fresh = Combatant {
                name: attack.attacker.clone(),
                highest_hit: Attack::new(),
                highest_heal: Attack::new(),
                final_healed: 0,
                final_damage: 0,
                attack_stats: Vec::new(),
                combatstart: start,
                sort_by_dps: true,
            };
            self.combatants.push(fresh);
            self.attacks.push(attack);
            assert(attacks_view(self.attacks@) =~= attacks);
            let last = self.combatants.len() - 1;
            let k = self.attacks.len() - 1;
            assert(stats_view(self.combatants@[last as int].attack_stats@) =~= Seq::<AttackStatsView>::empty());
            self.combatants[last].attack(&self.attacks, k);
            self.combatants[last].final_damage = self.combatants[last].final_damage + self.attacks[k].damage;
            proof {
                let e = Seq::<AttackStatsView>::empty();
                assert(stats_index(e, attacks[n].attack_name) == 0);
                assert(stats_after(e, attacks, n) =~= seq![new_stats(attacks, n)]);
                let one = seq![new_stats(attacks, n)];
                assert(one.drop_last() =~= e);
                assert(sort_by_total(e) == e);
                assert(insert_by_total(e, new_stats(attacks, n)) == one);
                assert(sort_by_total(one) == one);
                assert(combatants_view(self.combatants@) =~= l.combatants.push(new_combatant(a, attacks, n, t)));
            }
        } else {
            let j = who as usize;
            self.combatants[j].final_damage = self.combatants[j].final_damage + attack.damage;
            self.attacks.push(attack);
            assert(attacks_view(self.attacks@) =~= attacks);
            let k = self.attacks.len() - 1;
            self.combatants[j].attack(&self.attacks, k);
            assert(combatants_view(self.combatants@) =~= l.combatants.update(i, combatant_hit(l.combatants[i], attacks, n)));
        }
        let k = self.attacks.len() - 1;
        record_in_stats(&mut self.attack_stats, &self.attacks, k);
    }

    /// The position of the first combatant named `attacker`, or -1 where
    /// there is none.
    pub fn find_combatant(&mut self, attacker: &str) -> (r: i32)
        ensures
            final(self)@ == old(self)@,
            r == if combatant_index(old(self)@.combatants, attacker@) < old(self)@.combatants.len() {
                combatant_index(old(self)@.combatants, attacker@) as i32
            } else {
                -1i32
            },
    {
        let ghost cs = self@.combatants;
        let who = attacker.to_owned();
        let mut i: usize = 0;
        while i < self.combatants.len()
            invariant
                cs == combatants_view(self.combatants@),
                who@ == attacker@,
                i <= cs.len(),
                forall|k: int| 0 <= k < i ==> #[trigger] cs[k].name != attacker@,
            decreases self.combatants.len() - i,
        {
            assert(cs[i as int] == self.combatants@[i as int]@);
            if self.combatants[i].name == who {
                proof {
                    lemma_combatant_index_first(cs, attacker@, i as int);
                }
                return (#[verifier::truncate] (i as i32));
            }
            i = i + 1;
        }
        proof {
            lemma_combatant_index_first(cs, attacker@, cs.len() as int);
        }
        -1
    }

    /// An encounter starting at `start` with nothing recorded.
    pub fn new(start: Timestamp) -> (r: CombatantList)
        ensures
            r@ == empty_list(start@),
    {
        let r = CombatantList {
            combatants: Vec::new(),
            attacks: Vec::new(),
            attack_stats: Vec::new(),
            encounter_start: start,
            encounter_end: start,
            encounter_duration: 0,
            highest_hit: Attack::new(),
            highest_heal: Attack::new(),
        };
        assert(r@.combatants =~= Seq::<CombatantView>::empty());
        assert(r@.attacks =~= Seq::<AttackView>::empty());
        assert(r@.attack_stats =~= Seq::<AttackStatsView>::empty());
        r
    }
}


/// How an attack is displayed: time, victim and attack name left-aligned in
/// 25, 20 and 30 columns, damage right-aligned in 15, crit and damage type
/// right-aligned in 20 and 10 (texts cut to their columns).
pub open spec fn attack_line(a: AttackView) -> Seq<char> {
    pad_after(clip(a.timestamp, 25), 25) + "   VICTIM: "@ + pad_after(clip(a.victim, 20), 20)
        + "   ATTACK: "@ + pad_after(clip(a.attack_name, 30), 30) + "   DAMAGE: "@ + pad_before(
        decimal(a.damage as nat),
        15,
    ) + "   CRIT: "@ + pad_before(clip(a.crit, 20), 20) + "   TYPE: "@ + pad_before(
        clip(a.damage_type, 10),
        10,
    )
}

/// Appends the display of `a`.
fn push_attack_line(out: &mut Vec<char>, a: &Attack)
    ensures
        final(out)@ == old(out)@ + attack_line(a@),
{
    let ts = chars_of(a.timestamp.as_str());
    let victim = chars_of(a.victim.as_str());
    let name = chars_of(a.attack_name.as_str());
    let crit = chars_of(a.crit.as_str());
    let dtype = chars_of(a.damage_type.as_str());
    push_field(out, &ts, 25, false);
    push_str(out, "   VICTIM: ");
    push_field(out, &victim, 20, false);
    push_str(out, "   ATTACK: ");
    push_field(out, &name, 30, false);
    push_str(out, "   DAMAGE: ");
    push_number_right(out, a.damage, 15);
    push_str(out, "   CRIT: ");
    push_field(out, &crit, 20, true);
    push_str(out, "   TYPE: ");
    push_field(out, &dtype, 10, true);
    assert(final(out)@ =~= old(out)@ + attack_line(a@));
}

impl Attack {
    /// The attack as it is displayed: see `attack_line`.
    pub fn to_string(&self) -> (r: String)
        ensures
            r@ == attack_line(self@),
    {
        let mut out: Vec<char> = Vec::new();
        push_attack_line(&mut out, self);
        assert(out@ =~= attack_line(self@));
        string_of(&out)
    }
}

/// The display of each attack of `attacks` that passes the filter, one per line.
pub open spec fn attacks_report(attacks: Seq<AttackView>, filters: Seq<char>, filter_bytes: usize, who: Seq<char>) -> Seq<char>
    decreases attacks.len(),
{
    if attacks.len() == 0 {
        Seq::empty()
    } else {
        attacks_report(attacks.drop_last(), filters, filter_bytes, who) + if filter_accepts(
            attacks.last(),
            filters,
            filter_bytes,
            who,
        ) {
            attack_line(attacks.last()) + seq!['\n']
        } else {
            Seq::empty()
        }
    }
}

/// One line of a combatant's attack statistics, before its share of the
/// combatant's damage is written as a percentage: the damage of the attack
/// name, the combatant's damage, and the display of the highest hit.
#[derive(Debug)]
pub struct StatsLine {
    pub total_damage: u64,
    pub all_damage: u64,
    pub highest_hit: String,
}

/// The content of a `StatsLine`.
pub struct StatsLineView {
    pub total_damage: u64,
    pub all_damage: u64,
    pub highest_hit: Seq<char>,
}

/// The statistics lines of one combatant.
pub open spec fn combatant_stats_lines(c: CombatantView, attacks: Seq<AttackView>) -> Seq<StatsLineView> {
    c.attack_stats.map_values(
        |s: AttackStatsView|
            StatsLineView {
                total_damage: s.total_damage,
                all_damage: c.final_damage,
                highest_hit: attack_line(attacks[s.attack_nmbr as int]),
            },
    )
}

/// The statistics lines of every combatant named `player`, in order.
pub open spec fn stats_lines(cs: Seq<CombatantView>, attacks: Seq<AttackView>, player: Seq<char>) -> Seq<StatsLineView>
    decreases cs.len(),
{
    if cs.len() == 0 {
        Seq::empty()
    } else {
        stats_lines(cs.drop_last(), attacks, player) + if cs.last().name == player {
            combatant_stats_lines(cs.last(), attacks)
        } else {
            Seq::empty()
        }
    }
}

/// Every highest hit of every combatant named `player` is an existing attack.
pub open spec fn stats_lines_ok(cs: Seq<CombatantView>, attacks: Seq<AttackView>, player: Seq<char>) -> bool {
    forall|i: int, j: int|
        0 <= i < cs.len() && cs[i].name == player && 0 <= j < cs[i].attack_stats.len()
            ==> #[trigger] cs[i].attack_stats[j].attack_nmbr < attacks.len()
}

/// The content of a sequence of statistics lines.
pub open spec fn lines_view(v: Seq<StatsLine>) -> Seq<StatsLineView> {
    v.map_values(|l: StatsLine| StatsLineView { total_damage: l.total_damage, all_damage: l.all_damage, highest_hit: l.highest_hit@ })
}

impl CombatantList {
    /// The display of each attack that passes the filter (see
    /// `Attack::filter`), each followed by a line break.
    pub fn print_attacks(&self, filters: &str, player: &String) -> (r: String)
        ensures
            r@ == attacks_report(self@.attacks, filters@, filters.len(), player@),
    {
        let mut out: Vec<char> = Vec::new();
        let mut i: usize = 0;
        let ghost av = self@.attacks;
        while i < self.attacks.len()
            invariant
                av == attacks_view(self.attacks@),
                i <= self.attacks.len(),
                out@ == attacks_report(av.take(i as int), filters@, filters.len(), player@),
            decreases self.attacks.len() - i,
        {
            assert(av.take(i + 1).drop_last() =~= av.take(i as int));
            assert(av.take(i + 1).last() == self.attacks@[i as int]@);
            if self.attacks[i].filter(filters, player) {
                push_attack_line(&mut out, &self.attacks[i]);
                out.push('\n');
            }
            assert(out@ =~= attacks_report(av.take(i + 1), filters@, filters.len(), player@));
            i = i + 1;
        }
        assert(av.take(i as int) =~= av);
        string_of(&out)
    }

    /// For every combatant named `player`, one line per attack statistics:
    /// the statistics' damage, the combatant's damage and the display of the
    /// highest hit (each is then written with its percentage of the damage).
    pub fn attack_stats_lines(&self, player: &str) -> (r: Vec<StatsLine>)
        requires
            stats_lines_ok(self@.combatants, self@.attacks, player@),
        ensures
            lines_view(r@) == stats_lines(self@.combatants, self@.attacks, player@),
    {
        let who = player.to_owned();
        let mut out: Vec<StatsLine> = Vec::new();
        let ghost cs = self@.combatants;
        let ghost av = self@.attacks;
        let mut i: usize = 0;
        while i < self.combatants.len()
            invariant
                cs == combatants_view(self.combatants@),
                av == attacks_view(self.attacks@),
                who@ == player@,
                stats_lines_ok(cs, av, player@),
                i <= cs.len(),
                lines_view(out@) == stats_lines(cs.take(i as int), av, player@),
            decreases self.combatants.len() - i,
        {
            assert(cs.take(i + 1).drop_last() =~= cs.take(i as int));
            assert(cs.take(i + 1).last() == cs[i as int]);
            let c = &self.combatants[i];
            assert(c@ == cs[i as int]);
            if c.name == who {
                let ghost before = lines_view(out@);
                let mut j: usize = 0;
                while j < c.attack_stats.len()
                    invariant
                        c@ == cs[i as int],
                        0 <= i < cs.len(),
                        cs[i as int].name == player@,
                        av == attacks_view(self.attacks@),
                        stats_lines_ok(cs, av, player@),
                        j <= c.attack_stats.len(),
                        lines_view(out@) == before + combatant_stats_lines(cs[i as int], av).take(j as int),
                    decreases c.attack_stats.len() - j,
                {
                    let st = &c.attack_stats[j];
                    assert(st@ == cs[i as int].attack_stats[j as int]);
                    assert(cs[i as int].attack_stats[j as int].attack_nmbr < av.len());
                    assert(av.len() == self.attacks@.len());
                    let mut line: Vec<char> = Vec::new();
                    push_attack_line(&mut line, &self.attacks[st.attack_nmbr]);
                    assert(line@ == attack_line(av[st.attack_nmbr as int]));
                    let ghost expected = combatant_stats_lines(cs[i as int], av)[j as int];
                    assert(expected.highest_hit == line@);
                    assert(expected.total_damage == st.total_damage && expected.all_damage == c.final_damage);
                    let hh = string_of(&line);
                    let ghost prev = out@;
                    out.push(StatsLine { total_damage: st.total_damage, all_damage: c.final_damage, highest_hit: hh });
                    assert(lines_view(out@) =~= lines_view(prev).push(expected));
                    assert(combatant_stats_lines(cs[i as int], av).take(j + 1) =~= combatant_stats_lines(cs[i as int], av).take(j as int).push(expected));
                    assert(lines_view(out@) =~= before + combatant_stats_lines(cs[i as int], av).take(j + 1));
                    j = j + 1;
                }
                assert(combatant_stats_lines(cs[i as int], av).take(j as int) =~= combatant_stats_lines(cs[i as int], av));
            } else {
                assert(lines_view(out@) =~= stats_lines(cs.take(i + 1), av, player@));
            }
            i = i + 1;
        }
        assert(cs.take(i as int) =~= cs);
        out
    }
}


/// The encounter `l` after each of `attacks`, in order.
pub open spec fn record_all(l: CombatantListView, attacks: Seq<AttackView>) -> CombatantListView
    decreases attacks.len(),
{
    if attacks.len() == 0 {
        l
    } else {
        recorded(record_all(l, attacks.drop_last()), attacks.last())
    }
}

/// Recording each of `attacks` into `l`, in order, never panics.
pub open spec fn record_all_ok(l: CombatantListView, attacks: Seq<AttackView>) -> bool
    decreases attacks.len(),
{
    attacks.len() == 0 || (record_all_ok(l, attacks.drop_last()) && record_ok(
        record_all(l, attacks.drop_last()),
        attacks.last(),
    ))
}

/// Whether the statistics `stats` can record `a`, the next attack after `attacks`.
fn stats_can_take(stats: &Vec<AttackStats>, attacks: &Vec<Attack>, a: &Attack) -> (r: bool)
    ensures
        r == stats_after_ok(stats_view(stats@), attacks_view(attacks@).push(a@), attacks@.len() as int),
{
    let ghost ss = stats_view(stats@);
    let ghost av = attacks_view(attacks@).push(a@);
    let ghost n = attacks@.len() as int;
    assert(av[n] == a@);
    let mut j: usize = 0;
    while j < stats.len()
        invariant
            ss == stats_view(stats@),
            j <= ss.len(),
            forall|m: int| 0 <= m < j ==> #[trigger] ss[m].name != a@.attack_name,
        decreases stats.len() - j,
    {
        assert(ss[j as int] == stats@[j as int]@);
        if stats[j].name == a.attack_name {
            proof {
                lemma_stats_index_first(ss, a@.attack_name, j as int);
            }
            return stats[j].attack_nmbr <= attacks.len() && stats[j].total_damage <= u64::MAX - a.damage;
        }
        j = j + 1;
    }
    proof {
        lemma_stats_index_first(ss, a@.attack_name, ss.len() as int);
    }
    true
}

impl CombatantList {
    /// Whether recording `attack` neither panics nor overflows: see `record_ok`.
    pub fn can_record(&self, attack: &Attack) -> (r: bool)
        ensures
            r == record_ok(self@, attack@),
    {
        let ghost l = self@;
        let ghost a = attack@;
        let ghost attacks = l.attacks.push(a);
        let ghost n = l.attacks.len() as int;
        assert(attacks_view(self.attacks@).push(a) == attacks);
        if crate::parserfunctions::try_get_time(attack.timestamp.as_str()).is_none() {
            return false;
        }
        if self.combatants.len() > 2147483647 {
            return false;
        }
        if !stats_can_take(&self.attack_stats, &self.attacks, attack) {
            return false;
        }
        let who = attack.attacker.clone();
        let mut i: usize = 0;
        while i < self.combatants.len()
            invariant
                l == self@,
                who@ == a.attacker,
                a == attack@,
                attacks == l.attacks.push(a),
                n == l.attacks.len(),
                time_of(a.timestamp) is Some,
                l.combatants.len() <= i32::MAX,
                stats_after_ok(l.attack_stats, attacks, n),
                i <= l.combatants.len(),
                forall|k: int| 0 <= k < i ==> #[trigger] l.combatants[k].name != a.attacker,
            decreases self.combatants.len() - i,
        {
            assert(l.combatants[i as int] == self.combatants@[i as int]@);
            if self.combatants[i].name == who {
                proof {
                    lemma_combatant_index_first(l.combatants, a.attacker, i as int);
                }
                let c = &self.combatants[i];
                return c.final_damage <= u64::MAX - attack.damage && stats_can_take(
                    &c.attack_stats,
                    &self.attacks,
                    attack,
                );
            }
            i = i + 1;
        }
        proof {
            lemma_combatant_index_first(l.combatants, a.attacker, l.combatants.len() as int);
        }
        true
    }
}

} // verus!
