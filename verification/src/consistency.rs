//! What recording attacks keeps true of an encounter: every total is the sum
//! of the damage it stands for, every highest hit is the first of the
//! highest, names are not repeated, and a combatant's statistics stay
//! ordered by damage.

use vstd::prelude::*;
use crate::datastructures::{
    AttackStatsView, AttackView, CombatantListView, CombatantView, combatant_index, combatant_hit,
    empty_list, insert_by_total, lemma_combatant_index, lemma_combatant_index_first, lemma_stats_index,
    lemma_stats_index_first, new_combatant, new_stats, record_ok, recorded, sort_by_total, stats_after,
    stats_after_ok, stats_hit, stats_index, record_all, record_all_ok,
};
use crate::parserfunctions::{TimestampView, time_of};

verus! {

/// `a` was made by `who` (anyone, where `None`) under the attack name `name`
/// (any, where `None`).
pub open spec fn selected(a: AttackView, who: Option<Seq<char>>, name: Option<Seq<char>>) -> bool {
    &&& (who matches Some(w) ==> a.attacker == w)
    &&& (name matches Some(m) ==> a.attack_name == m)
}

/// The damage of the attacks of `attacks` that `selected` picks.
pub open spec fn damage_sum(attacks: Seq<AttackView>, who: Option<Seq<char>>, name: Option<Seq<char>>) -> nat
    decreases attacks.len(),
{
    if attacks.len() == 0 {
        0
    } else {
        damage_sum(attacks.drop_last(), who, name) + if selected(attacks.last(), who, name) {
            attacks.last().damage as nat
        } else {
            0
        }
    }
}

/// `s` is true to the attacks of `who` under its name: its total is their
/// damage, and its highest hit is the first of them with the most damage.
pub open spec fn stats_entry_ok(s: AttackStatsView, attacks: Seq<AttackView>, who: Option<Seq<char>>) -> bool {
    let m = s.attack_nmbr as int;
    &&& s.total_damage == damage_sum(attacks, who, Some(s.name))
    &&& 0 <= m < attacks.len()
    &&& selected(attacks[m], who, Some(s.name))
    &&& forall|k: int|
        0 <= k < attacks.len() && #[trigger] selected(attacks[k], who, Some(s.name)) ==> attacks[k].damage
            <= attacks[m].damage
    &&& forall|k: int|
        0 <= k < m && #[trigger] selected(attacks[k], who, Some(s.name)) ==> attacks[k].damage
            < attacks[m].damage
}

/// No two statistics share a name.
pub open spec fn distinct_stats(ss: Seq<AttackStatsView>) -> bool {
    forall|i: int, j: int| 0 <= i < j < ss.len() ==> #[trigger] ss[i].name != #[trigger] ss[j].name
}

/// `ss` summarises the attacks of `who` (everyone, where `None`): one
/// statistics per attack name, each true to its attacks.
pub open spec fn stats_consistent(ss: Seq<AttackStatsView>, attacks: Seq<AttackView>, who: Option<Seq<char>>) -> bool {
    &&& distinct_stats(ss)
    &&& forall|i: int| 0 <= i < ss.len() ==> stats_entry_ok(#[trigger] ss[i], attacks, who)
    &&& forall|k: int|
        0 <= k < attacks.len() && #[trigger] selected(attacks[k], who, None) ==> stats_index(
            ss,
            attacks[k].attack_name,
        ) < ss.len()
}

/// Ordered by total damage, highest first.
pub open spec fn sorted_by_total(ss: Seq<AttackStatsView>) -> bool {
    forall|i: int, j: int| 0 <= i < j < ss.len() ==> #[trigger] ss[i].total_damage >= #[trigger] ss[j].total_damage
}

/// Combatant `c` is true to its attacks among `attacks`.
pub open spec fn combatant_consistent(c: CombatantView, attacks: Seq<AttackView>) -> bool {
    &&& c.final_damage == damage_sum(attacks, Some(c.name), None)
    &&& stats_consistent(c.attack_stats, attacks, Some(c.name))
    &&& sorted_by_total(c.attack_stats)
}

/// No two combatants share a name.
pub open spec fn distinct_combatants(cs: Seq<CombatantView>) -> bool {
    forall|i: int, j: int| 0 <= i < j < cs.len() ==> #[trigger] cs[i].name != #[trigger] cs[j].name
}

/// The encounter `l` is true to its attacks: one combatant per attacker,
/// each true to its attacks, and the encounter's statistics true to all
/// attacks.
pub open spec fn encounter_consistent(l: CombatantListView) -> bool {
    &&& distinct_combatants(l.combatants)
    &&& forall|k: int|
        0 <= k < l.attacks.len() ==> combatant_index(l.combatants, #[trigger] l.attacks[k].attacker)
            < l.combatants.len()
    &&& forall|i: int| 0 <= i < l.combatants.len() ==> combatant_consistent(#[trigger] l.combatants[i], l.attacks)
    &&& stats_consistent(l.attack_stats, l.attacks, None)
}

/// Adding an attack adds its damage where it is picked.
pub proof fn lemma_damage_sum_push(s: Seq<AttackView>, a: AttackView, who: Option<Seq<char>>, name: Option<Seq<char>>)
    ensures
        damage_sum(s.push(a), who, name) == damage_sum(s, who, name) + if selected(a, who, name) {
            a.damage as nat
        } else {
            0
        },
{
    assert(s.push(a).drop_last() =~= s);
}

/// Where no attack is picked, the sum is zero.
pub proof fn lemma_damage_sum_none(s: Seq<AttackView>, who: Option<Seq<char>>, name: Option<Seq<char>>)
    requires
        forall|k: int| 0 <= k < s.len() ==> !#[trigger] selected(s[k], who, name),
    ensures
        damage_sum(s, who, name) == 0,
    decreases s.len(),
{
    if s.len() > 0 {
        assert(!selected(s[s.len() - 1], who, name));
        assert forall|k: int| 0 <= k < s.drop_last().len() implies !#[trigger] selected(s.drop_last()[k], who, name) by {
            assert(s.drop_last()[k] == s[k]);
        }
        lemma_damage_sum_none(s.drop_last(), who, name);
    }
}

/// Picking fewer attacks never sums to more than all of them.
pub proof fn lemma_damage_sum_bound(s: Seq<AttackView>, who: Option<Seq<char>>, name: Option<Seq<char>>)
    ensures
        damage_sum(s, who, name) <= damage_sum(s, None, None),
    decreases s.len(),
{
    if s.len() > 0 {
        lemma_damage_sum_bound(s.drop_last(), who, name);
    }
}

/// Where some statistics has the name, `stats_index` finds one.
pub proof fn lemma_stats_index_found(ss: Seq<AttackStatsView>, name: Seq<char>, j: int)
    requires
        0 <= j < ss.len(),
        ss[j].name == name,
    ensures
        stats_index(ss, name) <= j,
{
    lemma_stats_index(ss, name);
}

/// `stats_index` reads only the names.
pub proof fn lemma_stats_index_same_names(ss: Seq<AttackStatsView>, tt: Seq<AttackStatsView>, name: Seq<char>)
    requires
        ss.len() == tt.len(),
        forall|i: int| 0 <= i < ss.len() ==> #[trigger] ss[i].name == tt[i].name,
    ensures
        stats_index(tt, name) == stats_index(ss, name),
{
    lemma_stats_index(ss, name);
    let j = stats_index(ss, name);
    assert forall|k: int| 0 <= k < j implies #[trigger] tt[k].name != name by {
        assert(ss[k].name != name);
    }
    lemma_stats_index_first(tt, name, j);
}

/// Appending keeps a position found in the prefix.
pub proof fn lemma_stats_index_push(ss: Seq<AttackStatsView>, x: AttackStatsView, name: Seq<char>)
    ensures
        stats_index(ss, name) < ss.len() ==> stats_index(ss.push(x), name) == stats_index(ss, name),
        stats_index(ss, name) == ss.len() && x.name == name ==> stats_index(ss.push(x), name) == ss.len(),
{
    lemma_stats_index(ss, name);
    let j = stats_index(ss, name);
    let t = ss.push(x);
    assert forall|k: int| 0 <= k < j implies #[trigger] t[k].name != name by {
        assert(t[k] == ss[k]);
    }
    if j < ss.len() {
        assert(t[j] == ss[j]);
        lemma_stats_index_first(t, name, j);
    } else if x.name == name {
        assert(t[j] == x);
        lemma_stats_index_first(t, name, j);
    }
}

/// Attacks that `ss` does not summarise leave it true to the attacks.
pub proof fn lemma_stats_unselected(ss: Seq<AttackStatsView>, attacks: Seq<AttackView>, a: AttackView, who: Option<Seq<char>>)
    requires
        stats_consistent(ss, attacks, who),
        !selected(a, who, None),
    ensures
        stats_consistent(ss, attacks.push(a), who),
{
    let t = attacks.push(a);
    assert forall|i: int| 0 <= i < ss.len() implies stats_entry_ok(#[trigger] ss[i], t, who) by {
        let s = ss[i];
        assert(stats_entry_ok(s, attacks, who));
        lemma_damage_sum_push(attacks, a, who, Some(s.name));
        assert(!selected(a, who, Some(s.name)));
        assert(t[s.attack_nmbr as int] == attacks[s.attack_nmbr as int]);
        assert forall|k: int| 0 <= k < t.len() && #[trigger] selected(t[k], who, Some(s.name)) implies t[k].damage
            <= t[s.attack_nmbr as int].damage by {
            if k < attacks.len() {
                assert(t[k] == attacks[k]);
            }
        }
        assert forall|k: int| 0 <= k < s.attack_nmbr && #[trigger] selected(t[k], who, Some(s.name)) implies t[k].damage
            < t[s.attack_nmbr as int].damage by {
            assert(t[k] == attacks[k]);
        }
    }
    assert forall|k: int| 0 <= k < t.len() && #[trigger] selected(t[k], who, None) implies stats_index(
        ss,
        t[k].attack_name,
    ) < ss.len() by {
        if k < attacks.len() {
            assert(t[k] == attacks[k]);
        }
    }
}


/// An attack that `ss` summarises is recorded into it truthfully.
pub proof fn lemma_stats_selected(ss: Seq<AttackStatsView>, attacks: Seq<AttackView>, a: AttackView, who: Option<Seq<char>>)
    requires
        stats_consistent(ss, attacks, who),
        selected(a, who, None),
        attacks.len() < usize::MAX,
        stats_after_ok(ss, attacks.push(a), attacks.len() as int),
    ensures
        stats_consistent(stats_after(ss, attacks.push(a), attacks.len() as int), attacks.push(a), who),
{
    let t = attacks.push(a);
    let n = attacks.len() as int;
    assert(t[n] == a);
    let name = a.attack_name;
    lemma_stats_index(ss, name);
    let j = stats_index(ss, name);
    let out = stats_after(ss, t, n);
    // Statistics under other names do not pick the new attack.
    assert forall|i: int| 0 <= i < ss.len() && ss[i].name != name implies stats_entry_ok(#[trigger] ss[i], t, who) by {
        let s = ss[i];
        assert(stats_entry_ok(s, attacks, who));
        lemma_damage_sum_push(attacks, a, who, Some(s.name));
        assert(!selected(a, who, Some(s.name)));
        assert(t[s.attack_nmbr as int] == attacks[s.attack_nmbr as int]);
        assert forall|k: int| 0 <= k < t.len() && #[trigger] selected(t[k], who, Some(s.name)) implies t[k].damage
            <= t[s.attack_nmbr as int].damage by {
            if k < attacks.len() {
                assert(t[k] == attacks[k]);
            }
        }
        assert forall|k: int| 0 <= k < s.attack_nmbr && #[trigger] selected(t[k], who, Some(s.name)) implies t[k].damage
            < t[s.attack_nmbr as int].damage by {
            assert(t[k] == attacks[k]);
        }
    }
    if j < ss.len() {
        let s = ss[j];
        let h = stats_hit(s, t, n);
        assert(out == ss.update(j, h));
        assert(stats_entry_ok(s, attacks, who));
        let m = s.attack_nmbr as int;
        assert(t[m] == attacks[m]);
        lemma_damage_sum_push(attacks, a, who, Some(name));
        assert(selected(a, who, Some(name)));
        // the updated statistics
        assert(stats_entry_ok(h, t, who)) by {
            let hm = h.attack_nmbr as int;
            assert(s.name == name);
            assert(hm == if attacks[m].damage < a.damage { n } else { m });
            assert forall|k: int| 0 <= k < t.len() && #[trigger] selected(t[k], who, Some(name)) implies t[k].damage
                <= t[hm].damage by {
                if k < attacks.len() {
                    assert(t[k] == attacks[k]);
                    assert(selected(attacks[k], who, Some(s.name)));
                    assert(attacks[k].damage <= attacks[m].damage);
                } else {
                    assert(k == n);
                }
            }
            assert forall|k: int| 0 <= k < hm && #[trigger] selected(t[k], who, Some(name)) implies t[k].damage
                < t[hm].damage by {
                if k < attacks.len() {
                    assert(t[k] == attacks[k]);
                    assert(selected(attacks[k], who, Some(s.name)));
                    assert(attacks[k].damage <= attacks[m].damage);
                }
            }
        }
        // names are unchanged
        assert forall|i: int| 0 <= i < ss.len() implies #[trigger] ss[i].name == out[i].name by {}
        assert(distinct_stats(out)) by {
            assert forall|x: int, y: int| 0 <= x < y < out.len() implies #[trigger] out[x].name != #[trigger] out[y].name by {
                assert(out[x].name == ss[x].name && out[y].name == ss[y].name);
            }
        }
        assert forall|i: int| 0 <= i < out.len() implies stats_entry_ok(#[trigger] out[i], t, who) by {
            if i != j {
                assert(out[i] == ss[i]);
                if ss[i].name == name {
                    if i < j {
                    } else {
                        assert(ss[j].name == ss[i].name);
                    }
                }
            }
        }
        assert forall|k: int| 0 <= k < t.len() && #[trigger] selected(t[k], who, None) implies stats_index(
            out,
            t[k].attack_name,
        ) < out.len() by {
            lemma_stats_index_same_names(ss, out, t[k].attack_name);
            if k < attacks.len() {
                assert(t[k] == attacks[k]);
            }
        }
    } else {
        let x = new_stats(t, n);
        assert(out == ss.push(x));
        // no earlier attack of `who` has this name
        assert forall|k: int| 0 <= k < attacks.len() implies !#[trigger] selected(attacks[k], who, Some(name)) by {
            if selected(attacks[k], who, Some(name)) {
                assert(selected(attacks[k], who, None));
            }
        }
        lemma_damage_sum_none(attacks, who, Some(name));
        lemma_damage_sum_push(attacks, a, who, Some(name));
        assert(stats_entry_ok(x, t, who)) by {
            assert forall|k: int| 0 <= k < t.len() && #[trigger] selected(t[k], who, Some(name)) implies t[k].damage
                <= t[n].damage by {
                if k < attacks.len() {
                    assert(t[k] == attacks[k]);
                }
            }
            assert forall|k: int| 0 <= k < n && #[trigger] selected(t[k], who, Some(name)) implies t[k].damage
                < t[n].damage by {
                assert(t[k] == attacks[k]);
            }
        }
        assert(distinct_stats(out)) by {
            assert forall|x1: int, y1: int| 0 <= x1 < y1 < out.len() implies #[trigger] out[x1].name != #[trigger] out[y1].name by {
                assert(out[x1] == ss[x1]);
                if y1 < ss.len() {
                    assert(out[y1] == ss[y1]);
                }
            }
        }
        assert forall|i: int| 0 <= i < out.len() implies stats_entry_ok(#[trigger] out[i], t, who) by {
            if i < ss.len() {
                assert(out[i] == ss[i]);
            }
        }
        assert forall|k: int| 0 <= k < t.len() && #[trigger] selected(t[k], who, None) implies stats_index(
            out,
            t[k].attack_name,
        ) < out.len() by {
            lemma_stats_index_push(ss, x, t[k].attack_name);
            if k < attacks.len() {
                assert(t[k] == attacks[k]);
            }
        }
    }
}


/// Inserting `x` gives the statistics of `t` and `x`, ordered where `t` was,
/// and without repeated names where `x`'s name is new.
pub proof fn lemma_insert_by_total(t: Seq<AttackStatsView>, x: AttackStatsView)
    ensures
        insert_by_total(t, x).len() == t.len() + 1,
        insert_by_total(t, x).contains(x),
        forall|j: int| 0 <= j < t.len() ==> insert_by_total(t, x).contains(#[trigger] t[j]),
        forall|i: int|
            0 <= i < insert_by_total(t, x).len() ==> #[trigger] insert_by_total(t, x)[i] == x || t.contains(
                insert_by_total(t, x)[i],
            ),
        sorted_by_total(t) ==> sorted_by_total(insert_by_total(t, x)),
        distinct_stats(t) && (forall|j: int| 0 <= j < t.len() ==> #[trigger] t[j].name != x.name)
            ==> distinct_stats(insert_by_total(t, x)),
    decreases t.len(),
{
    let r = insert_by_total(t, x);
    if t.len() == 0 {
        assert(r == seq![x]);
        assert(r[0] == x);
    } else if t[0].total_damage >= x.total_damage {
        let rest = t.drop_first();
        lemma_insert_by_total(rest, x);
        let q = insert_by_total(rest, x);
        assert(r == seq![t[0]] + q);
        assert(r[0] == t[0]);
        assert forall|i: int| 0 < i < r.len() implies #[trigger] r[i] == q[i - 1] by {}
        assert(r.contains(x)) by {
            let i = choose|i: int| 0 <= i < q.len() && q[i] == x;
            assert(r[i + 1] == x);
        }
        assert forall|j: int| 0 <= j < t.len() implies r.contains(#[trigger] t[j]) by {
            if j == 0 {
                assert(r[0] == t[0]);
            } else {
                assert(t[j] == rest[j - 1]);
                assert(q.contains(rest[j - 1]));
                let i = choose|i: int| 0 <= i < q.len() && q[i] == rest[j - 1];
                assert(r[i + 1] == t[j]);
            }
        }
        assert forall|i: int| 0 <= i < r.len() implies #[trigger] r[i] == x || t.contains(r[i]) by {
            if i == 0 {
                assert(t[0] == r[0]);
            } else {
                assert(r[i] == q[i - 1]);
                if q[i - 1] != x {
                    assert(rest.contains(q[i - 1]));
                    let k = choose|k: int| 0 <= k < rest.len() && rest[k] == q[i - 1];
                    assert(t[k + 1] == r[i]);
                }
            }
        }
        if sorted_by_total(t) {
            assert(sorted_by_total(rest)) by {
                assert forall|a: int, b: int| 0 <= a < b < rest.len() implies #[trigger] rest[a].total_damage
                    >= #[trigger] rest[b].total_damage by {
                    assert(rest[a] == t[a + 1] && rest[b] == t[b + 1]);
                }
            }
            assert forall|a: int, b: int| 0 <= a < b < r.len() implies #[trigger] r[a].total_damage
                >= #[trigger] r[b].total_damage by {
                if a == 0 {
                    if q[b - 1] != x {
                        let k = choose|k: int| 0 <= k < rest.len() && rest[k] == q[b - 1];
                        assert(t[k + 1] == r[b]);
                    }
                } else {
                    assert(r[a] == q[a - 1] && r[b] == q[b - 1]);
                }
            }
        }
        if distinct_stats(t) && (forall|j: int| 0 <= j < t.len() ==> #[trigger] t[j].name != x.name) {
            assert(distinct_stats(rest)) by {
                assert forall|a: int, b: int| 0 <= a < b < rest.len() implies #[trigger] rest[a].name
                    != #[trigger] rest[b].name by {
                    assert(rest[a] == t[a + 1] && rest[b] == t[b + 1]);
                }
            }
            assert forall|j: int| 0 <= j < rest.len() implies #[trigger] rest[j].name != x.name by {
                assert(rest[j] == t[j + 1]);
            }
            assert forall|a: int, b: int| 0 <= a < b < r.len() implies #[trigger] r[a].name
                != #[trigger] r[b].name by {
                if a == 0 {
                    if q[b - 1] != x {
                        let k = choose|k: int| 0 <= k < rest.len() && rest[k] == q[b - 1];
                        assert(t[k + 1] == r[b]);
                    }
                } else {
                    assert(r[a] == q[a - 1] && r[b] == q[b - 1]);
                }
            }
        }
    } else {
        assert(r == seq![x] + t);
        assert(r[0] == x);
        assert forall|i: int| 0 < i < r.len() implies #[trigger] r[i] == t[i - 1] by {}
        assert forall|j: int| 0 <= j < t.len() implies r.contains(#[trigger] t[j]) by {
            assert(r[j + 1] == t[j]);
        }
        assert forall|i: int| 0 <= i < r.len() implies #[trigger] r[i] == x || t.contains(r[i]) by {
            if i > 0 {
                assert(r[i] == t[i - 1]);
            }
        }
        if sorted_by_total(t) {
            assert forall|a: int, b: int| 0 <= a < b < r.len() implies #[trigger] r[a].total_damage
                >= #[trigger] r[b].total_damage by {
                if a == 0 {
                    assert(r[b] == t[b - 1]);
                    if b > 1 {
                        assert(t[0].total_damage >= t[b - 1].total_damage);
                    }
                } else {
                    assert(r[a] == t[a - 1] && r[b] == t[b - 1]);
                }
            }
        }
        if distinct_stats(t) && (forall|j: int| 0 <= j < t.len() ==> #[trigger] t[j].name != x.name) {
            assert forall|a: int, b: int| 0 <= a < b < r.len() implies #[trigger] r[a].name
                != #[trigger] r[b].name by {
                if a == 0 {
                    assert(r[b] == t[b - 1]);
                } else {
                    assert(r[a] == t[a - 1] && r[b] == t[b - 1]);
                }
            }
        }
    }
}

/// Ordering by total damage keeps exactly the statistics it is given, orders
/// them, and repeats no name where none was repeated.
pub proof fn lemma_sort_by_total(s: Seq<AttackStatsView>)
    ensures
        sort_by_total(s).len() == s.len(),
        forall|j: int| 0 <= j < s.len() ==> sort_by_total(s).contains(#[trigger] s[j]),
        forall|i: int| 0 <= i < s.len() ==> s.contains(#[trigger] sort_by_total(s)[i]),
        sorted_by_total(sort_by_total(s)),
        distinct_stats(s) ==> distinct_stats(sort_by_total(s)),
    decreases s.len(),
{
    if s.len() > 0 {
        let p = s.drop_last();
        let x = s.last();
        lemma_sort_by_total(p);
        let sp = sort_by_total(p);
        lemma_insert_by_total(sp, x);
        let r = sort_by_total(s);
        assert(r == insert_by_total(sp, x));
        assert forall|j: int| 0 <= j < s.len() implies r.contains(#[trigger] s[j]) by {
            if j < p.len() {
                assert(s[j] == p[j]);
                assert(sp.contains(p[j]));
                let k = choose|k: int| 0 <= k < sp.len() && sp[k] == p[j];
                assert(r.contains(sp[k]));
            }
        }
        assert forall|i: int| 0 <= i < s.len() implies s.contains(#[trigger] r[i]) by {
            if r[i] == x {
                assert(s[s.len() - 1] == x);
            } else {
                assert(sp.contains(r[i]));
                let k = choose|k: int| 0 <= k < sp.len() && sp[k] == r[i];
                assert(p.contains(sp[k]));
                let m = choose|m: int| 0 <= m < p.len() && p[m] == sp[k];
                assert(s[m] == p[m]);
            }
        }
        if distinct_stats(s) {
            assert(distinct_stats(p)) by {
                assert forall|a: int, b: int| 0 <= a < b < p.len() implies #[trigger] p[a].name
                    != #[trigger] p[b].name by {
                    assert(p[a] == s[a] && p[b] == s[b]);
                }
            }
            assert forall|j: int| 0 <= j < sp.len() implies #[trigger] sp[j].name != x.name by {
                assert(p.contains(sp[j]));
                let m = choose|m: int| 0 <= m < p.len() && p[m] == sp[j];
                assert(s[m] == p[m]);
                assert(s[m].name != s[s.len() - 1].name);
            }
        }
    } else {
        assert(sort_by_total(s) == s);
    }
}

/// Ordering statistics by total damage keeps them true to the attacks.
pub proof fn lemma_sort_keeps_stats(ss: Seq<AttackStatsView>, attacks: Seq<AttackView>, who: Option<Seq<char>>)
    requires
        stats_consistent(ss, attacks, who),
    ensures
        stats_consistent(sort_by_total(ss), attacks, who),
        sorted_by_total(sort_by_total(ss)),
{
    lemma_sort_by_total(ss);
    let r = sort_by_total(ss);
    assert forall|i: int| 0 <= i < r.len() implies stats_entry_ok(#[trigger] r[i], attacks, who) by {
        assert(ss.contains(r[i]));
        let k = choose|k: int| 0 <= k < ss.len() && ss[k] == r[i];
        assert(stats_entry_ok(ss[k], attacks, who));
    }
    assert forall|k: int| 0 <= k < attacks.len() && #[trigger] selected(attacks[k], who, None) implies stats_index(
        r,
        attacks[k].attack_name,
    ) < r.len() by {
        let name = attacks[k].attack_name;
        lemma_stats_index(ss, name);
        let j = stats_index(ss, name);
        assert(r.contains(ss[j]));
        let i = choose|i: int| 0 <= i < r.len() && r[i] == ss[j];
        lemma_stats_index_found(r, name, i);
    }
}


/// Where some combatant has the name, `combatant_index` finds one.
pub proof fn lemma_combatant_index_found(cs: Seq<CombatantView>, name: Seq<char>, j: int)
    requires
        0 <= j < cs.len(),
        cs[j].name == name,
    ensures
        combatant_index(cs, name) <= j,
{
    lemma_combatant_index(cs, name);
}

/// `combatant_index` reads only the names.
pub proof fn lemma_combatant_index_same_names(cs: Seq<CombatantView>, ds: Seq<CombatantView>, name: Seq<char>)
    requires
        cs.len() == ds.len(),
        forall|i: int| 0 <= i < cs.len() ==> #[trigger] cs[i].name == ds[i].name,
    ensures
        combatant_index(ds, name) == combatant_index(cs, name),
{
    lemma_combatant_index(cs, name);
    let j = combatant_index(cs, name);
    assert forall|k: int| 0 <= k < j implies #[trigger] ds[k].name != name by {
        assert(cs[k].name != name);
    }
    lemma_combatant_index_first(ds, name, j);
}

/// Appending keeps a position found in the prefix.
pub proof fn lemma_combatant_index_push(cs: Seq<CombatantView>, x: CombatantView, name: Seq<char>)
    ensures
        combatant_index(cs, name) < cs.len() ==> combatant_index(cs.push(x), name) == combatant_index(cs, name),
        combatant_index(cs, name) == cs.len() && x.name == name ==> combatant_index(cs.push(x), name) == cs.len(),
{
    lemma_combatant_index(cs, name);
    let j = combatant_index(cs, name);
    let t = cs.push(x);
    assert forall|k: int| 0 <= k < j implies #[trigger] t[k].name != name by {
        assert(t[k] == cs[k]);
    }
    if j < cs.len() {
        assert(t[j] == cs[j]);
        lemma_combatant_index_first(t, name, j);
    } else if x.name == name {
        assert(t[j] == x);
        lemma_combatant_index_first(t, name, j);
    }
}

/// An attack by someone else leaves a combatant true to its attacks.
pub proof fn lemma_combatant_unselected(c: CombatantView, attacks: Seq<AttackView>, a: AttackView)
    requires
        combatant_consistent(c, attacks),
        a.attacker != c.name,
    ensures
        combatant_consistent(c, attacks.push(a)),
{
    lemma_damage_sum_push(attacks, a, Some(c.name), None);
    lemma_stats_unselected(c.attack_stats, attacks, a, Some(c.name));
}

/// The combatant's own attack is recorded into it truthfully.
pub proof fn lemma_combatant_selected(c: CombatantView, attacks: Seq<AttackView>, a: AttackView)
    requires
        combatant_consistent(c, attacks),
        a.attacker == c.name,
        attacks.len() < usize::MAX,
        c.final_damage + a.damage <= u64::MAX,
        stats_after_ok(c.attack_stats, attacks.push(a), attacks.len() as int),
    ensures
        combatant_consistent(combatant_hit(c, attacks.push(a), attacks.len() as int), attacks.push(a)),
{
    let t = attacks.push(a);
    let n = attacks.len() as int;
    assert(t[n] == a);
    lemma_damage_sum_push(attacks, a, Some(c.name), None);
    lemma_stats_selected(c.attack_stats, attacks, a, Some(c.name));
    lemma_sort_keeps_stats(stats_after(c.attack_stats, t, n), t, Some(c.name));
}

/// A combatant first seen with attack `a` is true to its attacks.
pub proof fn lemma_new_combatant(attacks: Seq<AttackView>, a: AttackView, start: TimestampView)
    requires
        forall|k: int| 0 <= k < attacks.len() ==> #[trigger] attacks[k].attacker != a.attacker,
        attacks.len() < usize::MAX,
    ensures
        combatant_consistent(new_combatant(a, attacks.push(a), attacks.len() as int, start), attacks.push(a)),
{
    let t = attacks.push(a);
    let n = attacks.len() as int;
    assert(t[n] == a);
    let c = new_combatant(a, t, n, start);
    let x = new_stats(t, n);
    let who = Some(a.attacker);
    assert forall|k: int| 0 <= k < attacks.len() implies !#[trigger] selected(attacks[k], who, None) by {}
    lemma_damage_sum_none(attacks, who, None);
    lemma_damage_sum_push(attacks, a, who, None);
    assert forall|k: int| 0 <= k < attacks.len() implies !#[trigger] selected(attacks[k], who, Some(a.attack_name)) by {}
    lemma_damage_sum_none(attacks, who, Some(a.attack_name));
    lemma_damage_sum_push(attacks, a, who, Some(a.attack_name));
    let ss = c.attack_stats;
    assert(ss == seq![x]);
    assert(stats_entry_ok(x, t, who)) by {
        assert forall|k: int| 0 <= k < t.len() && #[trigger] selected(t[k], who, Some(x.name)) implies t[k].damage
            <= t[n].damage by {
            if k < n {
                assert(t[k] == attacks[k]);
            }
        }
        assert forall|k: int| 0 <= k < n && #[trigger] selected(t[k], who, Some(x.name)) implies t[k].damage
            < t[n].damage by {
            assert(t[k] == attacks[k]);
        }
    }
    assert forall|k: int| 0 <= k < t.len() && #[trigger] selected(t[k], who, None) implies stats_index(
        ss,
        t[k].attack_name,
    ) < ss.len() by {
        if k < n {
            assert(t[k] == attacks[k]);
        }
        assert(ss[0].name == t[k].attack_name);
        lemma_stats_index_found(ss, t[k].attack_name, 0);
    }
}

/// The totals that a consistent encounter records fit under the damage of all its attacks.
pub proof fn lemma_record_ok(l: CombatantListView, a: AttackView)
    requires
        encounter_consistent(l),
        time_of(a.timestamp) is Some,
        l.combatants.len() <= i32::MAX,
        damage_sum(l.attacks, None, None) + a.damage <= u64::MAX,
    ensures
        record_ok(l, a),
{
    let t = l.attacks.push(a);
    let n = l.attacks.len() as int;
    assert(t[n] == a);
    let cs = l.combatants;
    lemma_combatant_index(cs, a.attacker);
    let i = combatant_index(cs, a.attacker);
    if i < cs.len() {
        let c = cs[i];
        assert(combatant_consistent(c, l.attacks));
        lemma_damage_sum_bound(l.attacks, Some(c.name), None);
        lemma_stats_index(c.attack_stats, a.attack_name);
        let j = stats_index(c.attack_stats, a.attack_name);
        if j < c.attack_stats.len() {
            assert(stats_entry_ok(c.attack_stats[j], l.attacks, Some(c.name)));
            lemma_damage_sum_bound(l.attacks, Some(c.name), Some(c.attack_stats[j].name));
        }
    }
    lemma_stats_index(l.attack_stats, a.attack_name);
    let j = stats_index(l.attack_stats, a.attack_name);
    if j < l.attack_stats.len() {
        assert(stats_entry_ok(l.attack_stats[j], l.attacks, None));
        lemma_damage_sum_bound(l.attacks, None, Some(l.attack_stats[j].name));
    }
}

/// Recording an attack keeps an encounter true to its attacks: each
/// combatant's damage is the damage of its attacks, each statistics' total
/// is the damage of its attack name (of one combatant, or of everyone), each
/// highest hit is the first of the highest, no name repeats, and a
/// combatant's statistics stay ordered by total damage. (Nothing overflows
/// while all the damage recorded fits a `u64`.)
pub proof fn lemma_record_keeps_consistency(l: CombatantListView, a: AttackView)
    requires
        encounter_consistent(l),
        time_of(a.timestamp) is Some,
        l.combatants.len() <= i32::MAX,
        l.attacks.len() < usize::MAX,
        damage_sum(l.attacks, None, None) + a.damage <= u64::MAX,
    ensures
        record_ok(l, a),
        encounter_consistent(recorded(l, a)),
        damage_sum(recorded(l, a).attacks, None, None) == damage_sum(l.attacks, None, None) + a.damage,
{
    lemma_record_ok(l, a);
    lemma_damage_sum_push(l.attacks, a, None, None);
    lemma_recorded_consistent(l, a);
}

/// An attack that can be recorded without overflow keeps the encounter true
/// to its attacks.
pub proof fn lemma_recorded_consistent(l: CombatantListView, a: AttackView)
    requires
        encounter_consistent(l),
        record_ok(l, a),
        l.attacks.len() < usize::MAX,
    ensures
        encounter_consistent(recorded(l, a)),
{
    let t = l.attacks.push(a);
    let n = l.attacks.len() as int;
    assert(t[n] == a);
    let cs = l.combatants;
    let r = recorded(l, a);
    lemma_stats_selected(l.attack_stats, l.attacks, a, None);
    lemma_combatant_index(cs, a.attacker);
    let i = combatant_index(cs, a.attacker);
    if i < cs.len() {
        let c = cs[i];
        let ds = r.combatants;
        assert(ds == cs.update(i, combatant_hit(c, t, n)));
        lemma_combatant_selected(c, l.attacks, a);
        assert forall|m: int| 0 <= m < cs.len() implies #[trigger] cs[m].name == ds[m].name by {}
        assert forall|m: int| 0 <= m < ds.len() implies combatant_consistent(#[trigger] ds[m], t) by {
            if m != i {
                assert(ds[m] == cs[m]);
                assert(combatant_consistent(cs[m], l.attacks));
                if cs[m].name == a.attacker {
                    if m > i {
                        assert(cs[i].name == cs[m].name);
                    }
                }
                lemma_combatant_unselected(cs[m], l.attacks, a);
            }
        }
        assert(distinct_combatants(ds)) by {
            assert forall|x: int, y: int| 0 <= x < y < ds.len() implies #[trigger] ds[x].name != #[trigger] ds[y].name by {
                assert(ds[x].name == cs[x].name && ds[y].name == cs[y].name);
            }
        }
        assert forall|k: int| 0 <= k < t.len() implies combatant_index(ds, #[trigger] t[k].attacker) < ds.len() by {
            lemma_combatant_index_same_names(cs, ds, t[k].attacker);
            if k < n {
                assert(t[k] == l.attacks[k]);
            }
        }
    } else {
        let time = time_of(a.timestamp).unwrap();
        let x = new_combatant(a, t, n, time);
        let ds = r.combatants;
        assert(ds == cs.push(x));
        assert forall|k: int| 0 <= k < l.attacks.len() implies #[trigger] l.attacks[k].attacker != a.attacker by {
            if l.attacks[k].attacker == a.attacker {
                assert(combatant_index(cs, l.attacks[k].attacker) < cs.len());
            }
        }
        lemma_new_combatant(l.attacks, a, time);
        assert forall|m: int| 0 <= m < ds.len() implies combatant_consistent(#[trigger] ds[m], t) by {
            if m < cs.len() {
                assert(ds[m] == cs[m]);
                assert(combatant_consistent(cs[m], l.attacks));
                lemma_combatant_unselected(cs[m], l.attacks, a);
            } else {
                assert(ds[m] == x);
            }
        }
        assert(distinct_combatants(ds)) by {
            assert forall|x1: int, y1: int| 0 <= x1 < y1 < ds.len() implies #[trigger] ds[x1].name != #[trigger] ds[y1].name by {
                assert(ds[x1] == cs[x1]);
                if y1 < cs.len() {
                    assert(ds[y1] == cs[y1]);
                }
            }
        }
        assert forall|k: int| 0 <= k < t.len() implies combatant_index(ds, #[trigger] t[k].attacker) < ds.len() by {
            lemma_combatant_index_push(cs, x, t[k].attacker);
            if k < n {
                assert(t[k] == l.attacks[k]);
            }
        }
    }
}

/// A fresh encounter is true to its (no) attacks.
pub proof fn lemma_empty_list_consistent(start: TimestampView)
    ensures
        encounter_consistent(empty_list(start)),
{
}


/// Recording a batch of attacks, in order, keeps an encounter true to its
/// attacks, and never fails while every time can be read, the attackers are
/// fewer than 2^31 and all the damage fits a `u64`.
pub proof fn lemma_record_all_keeps_consistency(l: CombatantListView, attacks: Seq<AttackView>)
    requires
        encounter_consistent(l),
        forall|k: int| 0 <= k < attacks.len() ==> time_of(#[trigger] attacks[k].timestamp) is Some,
        l.combatants.len() + attacks.len() <= i32::MAX,
        l.attacks.len() + attacks.len() < usize::MAX,
        damage_sum(l.attacks, None, None) + damage_sum(attacks, None, None) <= u64::MAX,
    ensures
        record_all_ok(l, attacks),
        encounter_consistent(record_all(l, attacks)),
        record_all(l, attacks).attacks == l.attacks + attacks,
        record_all(l, attacks).combatants.len() <= l.combatants.len() + attacks.len(),
        damage_sum(record_all(l, attacks).attacks, None, None) == damage_sum(l.attacks, None, None)
            + damage_sum(attacks, None, None),
    decreases attacks.len(),
{
    if attacks.len() > 0 {
        let p = attacks.drop_last();
        let a = attacks.last();
        assert forall|k: int| 0 <= k < p.len() implies time_of(#[trigger] p[k].timestamp) is Some by {
            assert(p[k] == attacks[k]);
        }
        lemma_record_all_keeps_consistency(l, p);
        let m = record_all(l, p);
        assert(time_of(attacks[attacks.len() - 1].timestamp) is Some);
        lemma_record_keeps_consistency(m, a);
        assert(m.attacks.push(a) =~= l.attacks + attacks);
        lemma_combatant_index(m.combatants, a.attacker);
        assert(recorded(m, a).combatants.len() <= m.combatants.len() + 1);
    } else {
        assert(l.attacks + attacks =~= l.attacks);
    }
}


/// Statistics whose total damage is `v`.
pub open spec fn has_total(v: u64) -> spec_fn(AttackStatsView) -> bool {
    |s: AttackStatsView| s.total_damage == v
}

/// Filtering out every element leaves nothing.
proof fn lemma_filter_none(s: Seq<AttackStatsView>, p: spec_fn(AttackStatsView) -> bool)
    requires
        forall|i: int| 0 <= i < s.len() ==> !p(#[trigger] s[i]),
    ensures
        s.filter(p) == Seq::<AttackStatsView>::empty(),
    decreases s.len(),
{
    reveal(Seq::filter);
    if s.len() > 0 {
        assert forall|i: int| 0 <= i < s.drop_last().len() implies !p(#[trigger] s.drop_last()[i]) by {
            assert(s.drop_last()[i] == s[i]);
        }
        lemma_filter_none(s.drop_last(), p);
        assert(!p(s[s.len() - 1]));
    } else {
        assert(s =~= Seq::<AttackStatsView>::empty());
    }
}

/// A one-element sequence, filtered.
proof fn lemma_filter_single(x: AttackStatsView, p: spec_fn(AttackStatsView) -> bool)
    ensures
        seq![x].filter(p) == if p(x) {
            seq![x]
        } else {
            Seq::<AttackStatsView>::empty()
        },
{
    reveal_with_fuel(Seq::filter, 2);
    assert(seq![x].drop_last() =~= Seq::<AttackStatsView>::empty());
    assert(Seq::<AttackStatsView>::empty().push(x) =~= seq![x]);
}

/// Inserting into ordered statistics puts the new one after those of equal total.
proof fn lemma_insert_stable(t: Seq<AttackStatsView>, x: AttackStatsView, v: u64)
    requires
        sorted_by_total(t),
    ensures
        insert_by_total(t, x).filter(has_total(v)) == t.filter(has_total(v)) + if x.total_damage == v {
            seq![x]
        } else {
            Seq::<AttackStatsView>::empty()
        },
    decreases t.len(),
{
    let p = has_total(v);
    let tail = if x.total_damage == v {
        seq![x]
    } else {
        Seq::<AttackStatsView>::empty()
    };
    lemma_filter_single(x, p);
    if t.len() == 0 {
        assert(insert_by_total(t, x) == seq![x]);
        reveal(Seq::filter);
        assert(t.filter(p) =~= Seq::<AttackStatsView>::empty());
        assert(Seq::<AttackStatsView>::empty() + tail =~= tail);
    } else if t[0].total_damage >= x.total_damage {
        let rest = t.drop_first();
        assert(sorted_by_total(rest)) by {
            assert forall|a: int, b: int| 0 <= a < b < rest.len() implies #[trigger] rest[a].total_damage
                >= #[trigger] rest[b].total_damage by {
                assert(rest[a] == t[a + 1] && rest[b] == t[b + 1]);
            }
        }
        lemma_insert_stable(rest, x, v);
        let q = insert_by_total(rest, x);
        assert(insert_by_total(t, x) == seq![t[0]] + q);
        Seq::filter_distributes_over_add(seq![t[0]], q, p);
        assert(t =~= seq![t[0]] + rest);
        Seq::filter_distributes_over_add(seq![t[0]], rest, p);
        assert(seq![t[0]].filter(p) + (rest.filter(p) + tail) =~= (seq![t[0]].filter(p) + rest.filter(p)) + tail);
    } else {
        assert(insert_by_total(t, x) == seq![x] + t);
        Seq::filter_distributes_over_add(seq![x], t, p);
        if x.total_damage == v {
            assert forall|i: int| 0 <= i < t.len() implies !p(#[trigger] t[i]) by {
                if i > 0 {
                    assert(t[0].total_damage >= t[i].total_damage);
                }
            }
            lemma_filter_none(t, p);
            assert(seq![x] + Seq::<AttackStatsView>::empty() =~= Seq::<AttackStatsView>::empty() + seq![x]);
        } else {
            assert(Seq::<AttackStatsView>::empty() + t.filter(p) =~= t.filter(p) + Seq::<AttackStatsView>::empty());
        }
    }
}

/// Ordering by total damage is stable: the statistics of any one total keep
/// their order.
pub proof fn lemma_sort_is_stable(s: Seq<AttackStatsView>, v: u64)
    ensures
        sort_by_total(s).filter(has_total(v)) == s.filter(has_total(v)),
    decreases s.len(),
{
    let p = has_total(v);
    if s.len() > 0 {
        let pre = s.drop_last();
        let x = s.last();
        lemma_sort_is_stable(pre, v);
        lemma_sort_by_total(pre);
        lemma_insert_stable(sort_by_total(pre), x, v);
        reveal(Seq::filter);
        if x.total_damage == v {
            assert(pre.filter(p) + seq![x] =~= pre.filter(p).push(x));
        } else {
            assert(pre.filter(p) + Seq::<AttackStatsView>::empty() =~= pre.filter(p));
        }
    }
}


/// The indices of `idx`, in order, whose attack carries the name `name`.
pub open spec fn hits_named(v: Seq<AttackView>, name: Seq<char>, idx: Seq<int>) -> Seq<int>
    decreases idx.len(),
{
    if idx.len() == 0 {
        Seq::empty()
    } else {
        hits_named(v, name, idx.drop_last()) + if v[idx.last()].attack_name == name {
            seq![idx.last()]
        } else {
            Seq::empty()
        }
    }
}

/// The damage of the attacks at the indices `m`.
pub open spec fn hits_damage(v: Seq<AttackView>, m: Seq<int>) -> nat
    decreases m.len(),
{
    if m.len() == 0 {
        0
    } else {
        hits_damage(v, m.drop_last()) + v[m.last()].damage as nat
    }
}

/// Statistics `s` after `find_attackname` with each index of `idx`, in order.
pub open spec fn stats_after_hits(s: AttackStatsView, v: Seq<AttackView>, idx: Seq<int>) -> AttackStatsView
    decreases idx.len(),
{
    if idx.len() == 0 {
        s
    } else {
        let t = stats_after_hits(s, v, idx.drop_last());
        let i = idx.last();
        if t.name == v[i].attack_name {
            stats_hit(t, v, i)
        } else {
            t
        }
    }
}

/// Statistics made for attack `i0` and then offered the attacks at `idx`
/// keep `i0`'s name, hold the damage of the hits with that name (`i0` and
/// those of `idx`), and their highest hit is the first of those hits with
/// the most damage.
pub proof fn lemma_stats_after_hits(v: Seq<AttackView>, i0: int, idx: Seq<int>)
    requires
        0 <= i0 < v.len() <= usize::MAX,
        forall|k: int| 0 <= k < idx.len() ==> 0 <= #[trigger] idx[k] < v.len(),
        hits_damage(v, seq![i0] + hits_named(v, v[i0].attack_name, idx)) <= u64::MAX,
    ensures
        ({
            let s = stats_after_hits(new_stats(v, i0), v, idx);
            let m = seq![i0] + hits_named(v, v[i0].attack_name, idx);
            &&& s.name == v[i0].attack_name
            &&& s.total_damage == hits_damage(v, m)
            &&& exists|p: int|
                0 <= p < m.len() && m[p] == s.attack_nmbr as int && (forall|q: int|
                    0 <= q < m.len() ==> v[#[trigger] m[q]].damage <= v[s.attack_nmbr as int].damage) && (
                forall|q: int| 0 <= q < p ==> v[#[trigger] m[q]].damage < v[s.attack_nmbr as int].damage)
        }),
    decreases idx.len(),
{
    let name = v[i0].attack_name;
    let m = seq![i0] + hits_named(v, name, idx);
    if idx.len() == 0 {
        assert(m =~= seq![i0]);
        assert(m.drop_last() =~= Seq::<int>::empty());
        assert(m.last() == i0);
        assert(hits_damage(v, m.drop_last()) == 0);
        assert(hits_damage(v, m) == v[i0].damage);
        let s = new_stats(v, i0);
        assert(m[0] == s.attack_nmbr as int);
    } else {
        let pre = idx.drop_last();
        let i = idx.last();
        assert(i == idx[idx.len() - 1]);
        let mp = seq![i0] + hits_named(v, name, pre);
        assert forall|k: int| 0 <= k < pre.len() implies 0 <= #[trigger] pre[k] < v.len() by {
            assert(pre[k] == idx[k]);
        }
        let matches = v[i].attack_name == name;
        if matches {
            assert(m =~= mp.push(i));
            assert(m.drop_last() =~= mp);
            assert(m.last() == i);
            assert(hits_damage(v, m) == hits_damage(v, mp) + v[i].damage);
        } else {
            assert(m =~= mp);
        }
        assert(hits_damage(v, mp) <= hits_damage(v, m));
        lemma_stats_after_hits(v, i0, pre);
        let t = stats_after_hits(new_stats(v, i0), v, pre);
        let p = choose|p: int|
            0 <= p < mp.len() && mp[p] == t.attack_nmbr as int && (forall|q: int|
                0 <= q < mp.len() ==> v[#[trigger] mp[q]].damage <= v[t.attack_nmbr as int].damage) && (
            forall|q: int| 0 <= q < p ==> v[#[trigger] mp[q]].damage < v[t.attack_nmbr as int].damage);
        let s = stats_after_hits(new_stats(v, i0), v, idx);
        if matches {
            assert(s == stats_hit(t, v, i));
            if v[t.attack_nmbr as int].damage < v[i].damage {
                let p2 = m.len() - 1;
                assert(m[p2] == i);
                assert forall|q: int| 0 <= q < m.len() implies v[#[trigger] m[q]].damage <= v[s.attack_nmbr as int].damage by {
                    if q < mp.len() {
                        assert(m[q] == mp[q]);
                    }
                }
                assert forall|q: int| 0 <= q < p2 implies v[#[trigger] m[q]].damage < v[s.attack_nmbr as int].damage by {
                    assert(m[q] == mp[q]);
                }
            } else {
                assert(m[p] == mp[p]);
                assert forall|q: int| 0 <= q < m.len() implies v[#[trigger] m[q]].damage <= v[s.attack_nmbr as int].damage by {
                    if q < mp.len() {
                        assert(m[q] == mp[q]);
                    }
                }
                assert forall|q: int| 0 <= q < p implies v[#[trigger] m[q]].damage < v[s.attack_nmbr as int].damage by {
                    assert(m[q] == mp[q]);
                }
            }
        } else {
            assert(s == t);
        }
    }
}


/// Recording attack `a` keeps every combatant's name and start; where `a`'s
/// attacker is not yet a combatant, a combatant of that name is added whose
/// start is the moment of `a` itself (whatever the encounter held before),
/// and otherwise no combatant is added.
pub proof fn lemma_combatant_starts_at_own_attack(l: CombatantListView, a: AttackView)
    requires
        time_of(a.timestamp) is Some,
    ensures
        ({
            let r = recorded(l, a);
            &&& forall|i: int|
                0 <= i < l.combatants.len() ==> #[trigger] r.combatants[i].combatstart == l.combatants[i].combatstart
                    && r.combatants[i].name == l.combatants[i].name
            &&& (forall|i: int| 0 <= i < l.combatants.len() ==> #[trigger] l.combatants[i].name != a.attacker) ==> {
                &&& r.combatants.len() == l.combatants.len() + 1
                &&& r.combatants.last().name == a.attacker
                &&& r.combatants.last().combatstart == time_of(a.timestamp).unwrap()
            }
            &&& (exists|i: int| 0 <= i < l.combatants.len() && #[trigger] l.combatants[i].name == a.attacker)
                ==> r.combatants.len() == l.combatants.len()
        }),
{
    let r = recorded(l, a);
    let cs = l.combatants;
    lemma_combatant_index(cs, a.attacker);
    let i = combatant_index(cs, a.attacker);
    if i < cs.len() {
        assert forall|m: int| 0 <= m < cs.len() implies #[trigger] r.combatants[m].combatstart == cs[m].combatstart
            && r.combatants[m].name == cs[m].name by {
            if m == i {
                assert(r.combatants[m] == combatant_hit(cs[i], l.attacks.push(a), l.attacks.len() as int));
            }
        }
        assert(!(forall|m: int| 0 <= m < cs.len() ==> #[trigger] cs[m].name != a.attacker)) by {
            assert(cs[i].name == a.attacker);
        }
    } else {
        assert forall|m: int| 0 <= m < cs.len() implies #[trigger] r.combatants[m].combatstart == cs[m].combatstart
            && r.combatants[m].name == cs[m].name by {
            assert(r.combatants[m] == cs[m]);
        }
        assert forall|m: int| 0 <= m < cs.len() implies #[trigger] cs[m].name != a.attacker by {}
        assert(!(exists|m: int| 0 <= m < cs.len() && #[trigger] cs[m].name == a.attacker));
    }
}

/// Recording attack `a` ends the encounter at the moment of `a`; the
/// encounter starts at the moment of its first attack and keeps that start.
pub proof fn lemma_encounter_times(l: CombatantListView, a: AttackView)
    requires
        time_of(a.timestamp) is Some,
    ensures
        recorded(l, a).encounter_end == time_of(a.timestamp).unwrap(),
        l.attacks.len() == 0 ==> recorded(l, a).encounter_start == time_of(a.timestamp).unwrap(),
        l.attacks.len() > 0 ==> recorded(l, a).encounter_start == l.encounter_start,
        recorded(l, a).attacks == l.attacks.push(a),
{
}

} // verus!
