//! The totals of an encounter agree with each other: the damage of all
//! combatants, of all statistics and of all attacks is the same, and every
//! name that an encounter shows comes from one of its attacks.

use vstd::prelude::*;
use crate::consistency::{
    damage_sum, encounter_consistent, lemma_damage_sum_push, lemma_empty_list_consistent,
    lemma_recorded_consistent, selected, stats_entry_ok,
};
use crate::datastructures::{
    AttackStatsView, AttackView, CombatantListView, CombatantView, combatant_hit, combatant_index,
    empty_list, insert_by_total, lemma_combatant_index, lemma_stats_index, new_combatant, new_stats,
    record_all, record_all_ok, record_ok, recorded, sort_by_total, stats_after, stats_hit, stats_index,
};
use crate::parserfunctions::{TimestampView, time_of};

verus! {

/// The total damage of the statistics `ss`.
pub open spec fn stats_total(ss: Seq<AttackStatsView>) -> nat
    decreases ss.len(),
{
    if ss.len() == 0 {
        0
    } else {
        stats_total(ss.drop_last()) + ss.last().total_damage as nat
    }
}

/// The damage of the combatants `cs`.
pub open spec fn combatants_damage(cs: Seq<CombatantView>) -> nat
    decreases cs.len(),
{
    if cs.len() == 0 {
        0
    } else {
        combatants_damage(cs.drop_last()) + cs.last().final_damage as nat
    }
}

/// The totals of `l` agree: its statistics and its combatants hold the damage
/// of all its attacks, each combatant's statistics hold its damage, and each
/// combatant made one of the attacks.
pub open spec fn totals_agree(l: CombatantListView) -> bool {
    &&& stats_total(l.attack_stats) == damage_sum(l.attacks, None, None)
    &&& combatants_damage(l.combatants) == damage_sum(l.attacks, None, None)
    &&& forall|i: int|
        0 <= i < l.combatants.len() ==> stats_total(#[trigger] l.combatants[i].attack_stats)
            == l.combatants[i].final_damage
    &&& forall|i: int|
        0 <= i < l.combatants.len() ==> exists|k: int|
            0 <= k < l.attacks.len() && #[trigger] l.attacks[k].attacker == #[trigger] l.combatants[i].name
}

proof fn lemma_stats_total_prepend(x: AttackStatsView, q: Seq<AttackStatsView>)
    ensures
        stats_total(seq![x] + q) == x.total_damage + stats_total(q),
    decreases q.len(),
{
    if q.len() > 0 {
        lemma_stats_total_prepend(x, q.drop_last());
        assert((seq![x] + q).drop_last() =~= seq![x] + q.drop_last());
        assert((seq![x] + q).last() == q.last());
    } else {
        assert(seq![x] + q =~= seq![x]);
        assert(seq![x].drop_last() =~= Seq::<AttackStatsView>::empty());
        assert(stats_total(Seq::<AttackStatsView>::empty()) == 0);
        assert(seq![x].last() == x);
    }
}

proof fn lemma_stats_total_update(ss: Seq<AttackStatsView>, j: int, h: AttackStatsView)
    requires
        0 <= j < ss.len(),
    ensures
        stats_total(ss.update(j, h)) + ss[j].total_damage == stats_total(ss) + h.total_damage,
    decreases ss.len(),
{
    let u = ss.update(j, h);
    if j < ss.len() - 1 {
        lemma_stats_total_update(ss.drop_last(), j, h);
        assert(u.drop_last() =~= ss.drop_last().update(j, h));
    } else {
        assert(u.drop_last() =~= ss.drop_last());
    }
}

proof fn lemma_stats_total_insert(t: Seq<AttackStatsView>, x: AttackStatsView)
    ensures
        stats_total(insert_by_total(t, x)) == stats_total(t) + x.total_damage,
    decreases t.len(),
{
    if t.len() == 0 {
        lemma_stats_total_prepend(x, t);
        assert(seq![x] + t =~= seq![x]);
    } else if t[0].total_damage >= x.total_damage {
        lemma_stats_total_insert(t.drop_first(), x);
        lemma_stats_total_prepend(t[0], insert_by_total(t.drop_first(), x));
        lemma_stats_total_prepend(t[0], t.drop_first());
        assert(seq![t[0]] + t.drop_first() =~= t);
    } else {
        lemma_stats_total_prepend(x, t);
    }
}

/// Ordering statistics by total damage keeps their total.
pub proof fn lemma_stats_total_sort(s: Seq<AttackStatsView>)
    ensures
        stats_total(sort_by_total(s)) == stats_total(s),
    decreases s.len(),
{
    if s.len() > 0 {
        lemma_stats_total_sort(s.drop_last());
        lemma_stats_total_insert(sort_by_total(s.drop_last()), s.last());
    }
}

/// Recording attack `n` into statistics adds its damage to their total.
proof fn lemma_stats_after_total(ss: Seq<AttackStatsView>, attacks: Seq<AttackView>, n: int)
    requires
        0 <= n < attacks.len(),
        crate::datastructures::stats_after_ok(ss, attacks, n),
    ensures
        stats_total(stats_after(ss, attacks, n)) == stats_total(ss) + attacks[n].damage,
{
    lemma_stats_index(ss, attacks[n].attack_name);
    let j = stats_index(ss, attacks[n].attack_name);
    if j < ss.len() {
        lemma_stats_total_update(ss, j, stats_hit(ss[j], attacks, n));
    } else {
        assert(ss.push(new_stats(attacks, n)).drop_last() =~= ss);
    }
}

proof fn lemma_combatants_damage_update(cs: Seq<CombatantView>, i: int, c: CombatantView)
    requires
        0 <= i < cs.len(),
    ensures
        combatants_damage(cs.update(i, c)) + cs[i].final_damage == combatants_damage(cs) + c.final_damage,
    decreases cs.len(),
{
    let u = cs.update(i, c);
    if i < cs.len() - 1 {
        lemma_combatants_damage_update(cs.drop_last(), i, c);
        assert(u.drop_last() =~= cs.drop_last().update(i, c));
    } else {
        assert(u.drop_last() =~= cs.drop_last());
    }
}

/// Recording an attack that overflows nothing keeps the totals of a
/// consistent encounter in agreement.
#[verifier::spinoff_prover]
pub proof fn lemma_recorded_totals(l: CombatantListView, a: AttackView)
    requires
        encounter_consistent(l),
        totals_agree(l),
        record_ok(l, a),
    ensures
        totals_agree(recorded(l, a)),
{
    let t = l.attacks.push(a);
    let n = l.attacks.len() as int;
    assert(t[n] == a);
    let cs = l.combatants;
    let r = recorded(l, a);
    lemma_damage_sum_push(l.attacks, a, None, None);
    assert(selected(a, None, None));
    lemma_stats_after_total(l.attack_stats, t, n);
    lemma_combatant_index(cs, a.attacker);
    let i = combatant_index(cs, a.attacker);
    let ds = r.combatants;
    if i < cs.len() {
        let c = cs[i];
        let h = combatant_hit(c, t, n);
        assert(ds == cs.update(i, h));
        lemma_stats_after_total(c.attack_stats, t, n);
        lemma_stats_total_sort(stats_after(c.attack_stats, t, n));
        lemma_combatants_damage_update(cs, i, h);
        assert(h.final_damage == c.final_damage + a.damage);
        assert(stats_total(h.attack_stats) == h.final_damage);
        assert(combatants_damage(ds) == damage_sum(t, None, None));
        assert(stats_total(r.attack_stats) == damage_sum(t, None, None));
        assert forall|m: int| 0 <= m < ds.len() implies stats_total(#[trigger] ds[m].attack_stats)
            == ds[m].final_damage by {
            if m != i {
                assert(ds[m] == cs[m]);
            }
        }
        assert forall|m: int| 0 <= m < ds.len() implies exists|k: int|
            0 <= k < t.len() && #[trigger] t[k].attacker == #[trigger] ds[m].name by {
            assert(ds[m].name == cs[m].name);
            let k = choose|k: int| 0 <= k < l.attacks.len() && #[trigger] l.attacks[k].attacker == cs[m].name;
            assert(t[k] == l.attacks[k]);
        }
    } else {
        let x = new_combatant(a, t, n, time_of(a.timestamp).unwrap());
        assert(ds == cs.push(x));
        assert(ds.drop_last() =~= cs);
        assert(x.attack_stats == seq![new_stats(t, n)]);
        lemma_stats_total_prepend(new_stats(t, n), Seq::<AttackStatsView>::empty());
        assert(seq![new_stats(t, n)] + Seq::<AttackStatsView>::empty() =~= seq![new_stats(t, n)]);
        assert(stats_total(x.attack_stats) == x.final_damage);
        assert forall|m: int| 0 <= m < ds.len() implies stats_total(#[trigger] ds[m].attack_stats)
            == ds[m].final_damage by {
            if m < cs.len() {
                assert(ds[m] == cs[m]);
            }
        }
        assert forall|m: int| 0 <= m < ds.len() implies exists|k: int|
            0 <= k < t.len() && #[trigger] t[k].attacker == #[trigger] ds[m].name by {
            if m < cs.len() {
                assert(ds[m] == cs[m]);
                let k = choose|k: int| 0 <= k < l.attacks.len() && #[trigger] l.attacks[k].attacker == cs[m].name;
                assert(t[k] == l.attacks[k]);
            } else {
                assert(t[n].attacker == ds[m].name);
            }
        }
    }
    assert(r.attacks == t);
    assert(totals_agree(r));
}

/// Recording a batch of attacks, none of which panics or overflows, keeps a
/// consistent encounter consistent and its totals in agreement.
pub proof fn lemma_record_all_totals(l: CombatantListView, attacks: Seq<AttackView>)
    requires
        encounter_consistent(l),
        totals_agree(l),
        record_all_ok(l, attacks),
        l.attacks.len() + attacks.len() < usize::MAX,
    ensures
        encounter_consistent(record_all(l, attacks)),
        totals_agree(record_all(l, attacks)),
        record_all(l, attacks).attacks == l.attacks + attacks,
    decreases attacks.len(),
{
    if attacks.len() > 0 {
        let p = attacks.drop_last();
        let a = attacks.last();
        lemma_record_all_totals(l, p);
        let m = record_all(l, p);
        lemma_recorded_consistent(m, a);
        lemma_recorded_totals(m, a);
        assert(m.attacks.push(a) =~= l.attacks + attacks);
    } else {
        assert(l.attacks + attacks =~= l.attacks);
    }
}

/// The names of the attackers of `attacks`.
pub open spec fn attackers(attacks: Seq<AttackView>) -> Set<Seq<char>> {
    attacks.map_values(|a: AttackView| a.attacker).to_set()
}

/// The attack names of `attacks`.
pub open spec fn attack_names(attacks: Seq<AttackView>) -> Set<Seq<char>> {
    attacks.map_values(|a: AttackView| a.attack_name).to_set()
}

/// The names of the combatants `cs`.
pub open spec fn combatant_names(cs: Seq<CombatantView>) -> Set<Seq<char>> {
    cs.map_values(|c: CombatantView| c.name).to_set()
}

/// The names of the statistics `ss`.
pub open spec fn stats_names(ss: Seq<AttackStatsView>) -> Set<Seq<char>> {
    ss.map_values(|s: AttackStatsView| s.name).to_set()
}

/// In a consistent encounter whose totals agree, the combatants are the
/// attackers and the statistics are the attack names.
pub proof fn lemma_names_from_attacks(r: CombatantListView)
    requires
        encounter_consistent(r),
        totals_agree(r),
    ensures
        combatant_names(r.combatants) == attackers(r.attacks),
        stats_names(r.attack_stats) == attack_names(r.attacks),
{
    let cs = r.combatants;
    let ss = r.attack_stats;
    let at = r.attacks;
    let cn = cs.map_values(|c: CombatantView| c.name);
    let sn = ss.map_values(|s: AttackStatsView| s.name);
    let an = at.map_values(|a: AttackView| a.attacker);
    let nn = at.map_values(|a: AttackView| a.attack_name);
    assert forall|x: Seq<char>| combatant_names(cs).contains(x) implies attackers(at).contains(x) by {
        assert(cn.contains(x));
        let i = choose|i: int| 0 <= i < cn.len() && cn[i] == x;
        assert(cn[i] == cs[i].name);
        let k = choose|k: int| 0 <= k < at.len() && #[trigger] at[k].attacker == cs[i].name;
        assert(an[k] == at[k].attacker);
        assert(an.contains(x));
    }
    assert forall|x: Seq<char>| attackers(at).contains(x) implies combatant_names(cs).contains(x) by {
        assert(an.contains(x));
        let k = choose|k: int| 0 <= k < an.len() && an[k] == x;
        assert(an[k] == at[k].attacker);
        lemma_combatant_index(cs, x);
        let i = combatant_index(cs, x);
        assert(combatant_index(cs, at[k].attacker) < cs.len());
        assert(cn[i] == cs[i].name);
        assert(cn.contains(x));
    }
    assert forall|x: Seq<char>| stats_names(ss).contains(x) implies attack_names(at).contains(x) by {
        assert(sn.contains(x));
        let i = choose|i: int| 0 <= i < sn.len() && sn[i] == x;
        assert(sn[i] == ss[i].name);
        let s = ss[i];
        assert(stats_entry_ok(s, at, None));
        let m = s.attack_nmbr as int;
        assert(selected(at[m], None, Some(s.name)));
        assert(nn[m] == at[m].attack_name);
        assert(nn.contains(x));
    }
    assert forall|x: Seq<char>| attack_names(at).contains(x) implies stats_names(ss).contains(x) by {
        assert(nn.contains(x));
        let k = choose|k: int| 0 <= k < nn.len() && nn[k] == x;
        assert(nn[k] == at[k].attack_name);
        assert(selected(at[k], None, None));
        lemma_stats_index(ss, x);
        let i = stats_index(ss, x);
        assert(sn[i] == ss[i].name);
        assert(sn.contains(x));
    }
    assert(combatant_names(cs) =~= attackers(at));
    assert(stats_names(ss) =~= attack_names(at));
}

/// An encounter built from a fresh one by recording `attacks` in order, none
/// of the calls panicking or overflowing:
/// - holds exactly those attacks and is consistent (see `encounter_consistent`);
/// - its combatants are the attackers, and its statistics the attack names,
///   each once;
/// - the damage of all combatants, of all statistics and of all attacks is
///   the same;
/// - each combatant's damage is the total of its statistics.
#[verifier::spinoff_prover]
pub proof fn lemma_built_encounter(start: TimestampView, attacks: Seq<AttackView>)
    requires
        record_all_ok(empty_list(start), attacks),
        attacks.len() < usize::MAX,
    ensures
        ({
            let r = record_all(empty_list(start), attacks);
            &&& r.attacks == attacks
            &&& encounter_consistent(r)
            &&& combatant_names(r.combatants) == attackers(attacks)
            &&& stats_names(r.attack_stats) == attack_names(attacks)
            &&& combatants_damage(r.combatants) == damage_sum(attacks, None, None)
            &&& stats_total(r.attack_stats) == damage_sum(attacks, None, None)
            &&& forall|i: int|
                0 <= i < r.combatants.len() ==> #[trigger] r.combatants[i].final_damage == stats_total(
                    r.combatants[i].attack_stats,
                )
        }),
{
    let e = empty_list(start);
    let r = record_all(e, attacks);
    assert(encounter_consistent(r) && totals_agree(r) && r.attacks == attacks) by {
        lemma_empty_list_consistent(start);
        assert(e.attacks + attacks =~= attacks);
        lemma_record_all_totals(e, attacks);
    }
    lemma_names_from_attacks(r);
}

} // verus!
