//! How attacks, statistics, attackers and combatants compare: by damage
//! (statistics, attackers and combatants highest first).

use vstd::prelude::*;
use core::cmp::Ordering;
use vstd::std_specs::cmp::{PartialEqSpecImpl, PartialOrdSpecImpl};
use crate::datastructures::{Attack, AttackStats, Attacker, Combatant};

verus! {

/// How `a` compares to `b` as numbers.
pub open spec fn number_order(a: u64, b: u64) -> Ordering {
    if a < b {
        Ordering::Less
    } else if a == b {
        Ordering::Equal
    } else {
        Ordering::Greater
    }
}

/// `a.cmp(&b)` for numbers.
fn compare_numbers(a: u64, b: u64) -> (r: Ordering)
    ensures
        r == number_order(a, b),
{
    if a < b {
        Ordering::Less
    } else if a == b {
        Ordering::Equal
    } else {
        Ordering::Greater
    }
}

impl PartialEq for Attack {
    fn eq(&self, other: &Attack) -> (r: bool) {
        self.damage == other.damage
    }
}

impl PartialEqSpecImpl for Attack {
    open spec fn obeys_eq_spec() -> bool {
        true
    }

    open spec fn eq_spec(&self, other: &Attack) -> bool {
        self.damage == other.damage
    }
}

impl Eq for Attack {
}

impl PartialOrd for Attack {
    fn partial_cmp(&self, other: &Attack) -> (r: Option<Ordering>) {
        Some(compare_numbers(self.damage, other.damage))
    }
}

impl PartialOrdSpecImpl for Attack {
    open spec fn obeys_partial_cmp_spec() -> bool {
        true
    }

    open spec fn partial_cmp_spec(&self, other: &Attack) -> Option<Ordering> {
        Some(number_order(self.damage, other.damage))
    }
}

impl PartialEq for AttackStats {
    fn eq(&self, other: &AttackStats) -> (r: bool) {
        other.total_damage == self.total_damage
    }
}

impl PartialEqSpecImpl for AttackStats {
    open spec fn obeys_eq_spec() -> bool {
        true
    }

    open spec fn eq_spec(&self, other: &AttackStats) -> bool {
        other.total_damage == self.total_damage
    }
}

impl Eq for AttackStats {
}

impl PartialOrd for AttackStats {
    fn partial_cmp(&self, other: &AttackStats) -> (r: Option<Ordering>) {
        Some(compare_numbers(other.total_damage, self.total_damage))
    }
}

impl PartialOrdSpecImpl for AttackStats {
    open spec fn obeys_partial_cmp_spec() -> bool {
        true
    }

    open spec fn partial_cmp_spec(&self, other: &AttackStats) -> Option<Ordering> {
        Some(number_order(other.total_damage, self.total_damage))
    }
}

impl PartialEq for Attacker {
    fn eq(&self, other: &Attacker) -> (r: bool) {
        self.final_damage == other.final_damage
    }
}

impl PartialEqSpecImpl for Attacker {
    open spec fn obeys_eq_spec() -> bool {
        true
    }

    open spec fn eq_spec(&self, other: &Attacker) -> bool {
        self.final_damage == other.final_damage
    }
}

impl Eq for Attacker {
}

impl PartialOrd for Attacker {
    fn partial_cmp(&self, other: &Attacker) -> (r: Option<Ordering>) {
        Some(compare_numbers(other.final_damage, self.final_damage))
    }
}

impl PartialOrdSpecImpl for Attacker {
    open spec fn obeys_partial_cmp_spec() -> bool {
        true
    }

    open spec fn partial_cmp_spec(&self, other: &Attacker) -> Option<Ordering> {
        Some(number_order(other.final_damage, self.final_damage))
    }
}

impl PartialEq for Combatant {
    fn eq(&self, other: &Combatant) -> (r: bool) {
        if self.sort_by_dps {
            other.final_damage == self.final_damage
        } else {
            other.final_healed == self.final_healed
        }
    }
}

impl PartialEqSpecImpl for Combatant {
    open spec fn obeys_eq_spec() -> bool {
        true
    }

    open spec fn eq_spec(&self, other: &Combatant) -> bool {
        if self.sort_by_dps {
            other.final_damage == self.final_damage
        } else {
            other.final_healed == self.final_healed
        }
    }
}

impl Eq for Combatant {
}

impl PartialOrd for Combatant {
    fn partial_cmp(&self, other: &Combatant) -> (r: Option<Ordering>) {
        if self.sort_by_dps {
            Some(compare_numbers(other.final_damage, self.final_damage))
        } else {
            Some(compare_numbers(other.final_healed, self.final_healed))
        }
    }
}

impl PartialOrdSpecImpl for Combatant {
    open spec fn obeys_partial_cmp_spec() -> bool {
        true
    }

    open spec fn partial_cmp_spec(&self, other: &Combatant) -> Option<Ordering> {
        if self.sort_by_dps {
            Some(number_order(other.final_damage, self.final_damage))
        } else {
            Some(number_order(other.final_healed, self.final_healed))
        }
    }
}

} // verus!
