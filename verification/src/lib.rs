//! Combat-log parsing: turning log lines into attacks, and keeping the
//! per-encounter statistics (combatants, damage totals, highest hits).

pub mod text;
pub mod std_calls;
pub mod pattern;
pub mod parserfunctions;
pub mod datastructures;
pub mod eventloop;
pub mod consistency;
pub mod order;
pub mod words;
pub mod totals;
pub mod history;
pub mod render;
