//! What the encounters are after a whole run of handed-on batches: the log
//! starts with one encounter, each new fight adds one, and every attack
//! handed on lands, once and in order, in the encounter that was current
//! when it came.

use vstd::prelude::*;
use crate::datastructures::{AttackView, CombatantListView, empty_list, record_all, recorded};
use crate::eventloop::{base_lists, fresh_start, received, with_duration};

verus! {

/// One batch handed on by the log-following loop: whether a new fight began
/// with it, and its attacks.
pub type Batch = (bool, Seq<AttackView>);

/// The encounters after the log began (one encounter, starting at
/// `fresh_start`) and then received each of `msgs` in order.
pub open spec fn log_after(msgs: Seq<Batch>) -> Seq<CombatantListView>
    decreases msgs.len(),
{
    if msgs.len() == 0 {
        seq![empty_list(fresh_start().unwrap())]
    } else {
        received(log_after(msgs.drop_last()), msgs.last().0, msgs.last().1)
    }
}

/// How many of `msgs` began a new fight.
pub open spec fn new_fights(msgs: Seq<Batch>) -> nat
    decreases msgs.len(),
{
    if msgs.len() == 0 {
        0
    } else {
        new_fights(msgs.drop_last()) + if msgs.last().0 {
            1nat
        } else {
            0nat
        }
    }
}

/// The attacks of all of `msgs`, one batch after the other.
pub open spec fn all_batches(msgs: Seq<Batch>) -> Seq<AttackView>
    decreases msgs.len(),
{
    if msgs.len() == 0 {
        Seq::empty()
    } else {
        all_batches(msgs.drop_last()) + msgs.last().1
    }
}

/// The attacks of all of `encs`, one encounter after the other.
pub open spec fn all_attacks(encs: Seq<CombatantListView>) -> Seq<AttackView>
    decreases encs.len(),
{
    if encs.len() == 0 {
        Seq::empty()
    } else {
        all_attacks(encs.drop_last()) + encs.last().attacks
    }
}

/// Recording a batch appends it to the encounter's attacks.
pub proof fn lemma_record_all_attacks(l: CombatantListView, attacks: Seq<AttackView>)
    ensures
        record_all(l, attacks).attacks == l.attacks + attacks,
    decreases attacks.len(),
{
    if attacks.len() > 0 {
        lemma_record_all_attacks(l, attacks.drop_last());
        assert(recorded(record_all(l, attacks.drop_last()), attacks.last()).attacks =~= l.attacks
            + attacks);
    } else {
        assert(l.attacks + attacks =~= l.attacks);
    }
}

/// Receiving a batch, where there is a current encounter, adds one encounter
/// where a new fight began and appends the batch to the attacks of all
/// encounters.
proof fn lemma_received_step(encs: Seq<CombatantListView>, new_fight: bool, attacks: Seq<AttackView>)
    requires
        encs.len() > 0,
    ensures
        received(encs, new_fight, attacks).len() == encs.len() + if new_fight {
            1nat
        } else {
            0nat
        },
        all_attacks(received(encs, new_fight, attacks)) == all_attacks(encs) + attacks,
{
    let base = base_lists(encs, new_fight);
    let n = base.len();
    if new_fight {
        assert(base.drop_last() =~= encs);
        assert(base.last().attacks == Seq::<AttackView>::empty());
        assert(all_attacks(base) =~= all_attacks(encs));
    }
    let last = base.last();
    let x = with_duration(record_all(last, attacks));
    lemma_record_all_attacks(last, attacks);
    let r = received(encs, new_fight, attacks);
    assert(r == base.update(n - 1, x));
    assert(r.drop_last() =~= base.drop_last());
    assert(r.last() == x);
    assert(all_attacks(base) == all_attacks(base.drop_last()) + last.attacks);
    assert(all_attacks(r) =~= all_attacks(encs) + attacks);
}

/// The encounters after any run of batches: there is one more than the new
/// fights among them, so never none, and the attacks of all encounters, one
/// after the other, are the attacks of all batches, in the order handed on.
pub proof fn lemma_log_after(msgs: Seq<Batch>)
    ensures
        log_after(msgs).len() == 1 + new_fights(msgs),
        log_after(msgs).len() > 0,
        all_attacks(log_after(msgs)) == all_batches(msgs),
    decreases msgs.len(),
{
    if msgs.len() == 0 {
        let s = seq![empty_list(fresh_start().unwrap())];
        assert(s.drop_last() =~= Seq::<CombatantListView>::empty());
        assert(all_attacks(s.drop_last()) == Seq::<AttackView>::empty());
        assert(s.last().attacks == Seq::<AttackView>::empty());
        assert(all_attacks(s) =~= Seq::<AttackView>::empty());
    } else {
        lemma_log_after(msgs.drop_last());
        lemma_received_step(log_after(msgs.drop_last()), msgs.last().0, msgs.last().1);
    }
}

/// Receiving a batch changes only the current encounter (or the fresh one it
/// adds): every earlier encounter stays as it was.
proof fn lemma_received_keeps_earlier(encs: Seq<CombatantListView>, new_fight: bool, attacks: Seq<AttackView>)
    requires
        encs.len() > 0,
    ensures
        forall|e: int| 0 <= e < encs.len() - 1 ==> #[trigger] received(encs, new_fight, attacks)[e] == encs[e],
        received(encs, new_fight, attacks).len() >= encs.len(),
{
    let base = base_lists(encs, new_fight);
    assert forall|e: int| 0 <= e < encs.len() - 1 implies #[trigger] received(encs, new_fight, attacks)[e] == encs[e] by {
        assert(base[e] == encs[e]);
    }
}

/// Once a later encounter has begun, an encounter is never changed again:
/// after more batches, every encounter but the current one is as it was.
pub proof fn lemma_earlier_encounters_kept(msgs: Seq<Batch>, i: int)
    requires
        0 <= i <= msgs.len(),
    ensures
        forall|e: int|
            0 <= e < log_after(msgs.take(i)).len() - 1 ==> #[trigger] log_after(msgs)[e] == log_after(
                msgs.take(i),
            )[e],
    decreases msgs.len(),
{
    if i == msgs.len() {
        assert(msgs.take(i) =~= msgs);
    } else {
        let p = msgs.drop_last();
        assert(p.take(i) =~= msgs.take(i));
        lemma_earlier_encounters_kept(p, i);
        lemma_log_after(p);
        lemma_log_after(msgs.take(i));
        lemma_received_keeps_earlier(log_after(p), msgs.last().0, msgs.last().1);
        if i < p.len() {
            lemma_log_length_grows(p, i);
        }
    }
}

/// More batches never mean fewer encounters.
proof fn lemma_log_length_grows(msgs: Seq<Batch>, i: int)
    requires
        0 <= i <= msgs.len(),
    ensures
        log_after(msgs.take(i)).len() <= log_after(msgs).len(),
    decreases msgs.len(),
{
    if i < msgs.len() {
        let p = msgs.drop_last();
        assert(p.take(i) =~= msgs.take(i));
        lemma_log_length_grows(p, i);
        lemma_log_after(p);
        lemma_received_keeps_earlier(log_after(p), msgs.last().0, msgs.last().1);
    } else {
        assert(msgs.take(i) =~= msgs);
    }
}

/// What the log holds after `new` and then a `receive` of each of `msgs`, in
/// order, each of them succeeding (`states[0]` is what `new` gives,
/// `states[i + 1]` what the `receive` of `msgs[i]` leaves), is `log_after(msgs)`.
pub proof fn lemma_log_is_fold(msgs: Seq<Batch>, states: Seq<Seq<CombatantListView>>)
    requires
        fresh_start() is Some,
        states.len() == msgs.len() + 1,
        states[0] == seq![empty_list(fresh_start().unwrap())],
        forall|i: int|
            0 <= i < msgs.len() ==> #[trigger] states[i + 1] == received(states[i], msgs[i].0, msgs[i].1),
    ensures
        states.last() == log_after(msgs),
    decreases msgs.len(),
{
    if msgs.len() > 0 {
        let p = msgs.drop_last();
        let ps = states.drop_last();
        assert forall|i: int| 0 <= i < p.len() implies #[trigger] ps[i + 1] == received(ps[i], p[i].0, p[i].1) by {
            assert(ps[i + 1] == states[i + 1]);
            assert(ps[i] == states[i]);
            assert(p[i] == msgs[i]);
        }
        lemma_log_is_fold(p, ps);
        let k = msgs.len() - 1;
        assert(states[k + 1] == received(states[k], msgs[k].0, msgs[k].1));
        assert(ps.last() == states[k]);
    }
}

} // verus!
