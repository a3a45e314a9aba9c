# combat_parser

A parser for game combat logs, written in Verus. It follows a log file,
turns each line that reports a hit into an attack, keeps per-encounter
statistics (who did how much damage, with which attack, and their highest
hit), and answers a user interface over channels in JSON.

Layout:

- `src/` — the verified library.
  - `text.rs`: decimal numbers (reading as `str::parse` does, writing as `{}`
    does), fixed-width columns, substring search, whitespace-separated words.
  - `pattern.rs`: regular-expression matching through the `regex` crate.
  - `parserfunctions.rs`: timestamps; reading them out of log text; the
    calendar facts that come from `chrono`.
  - `datastructures.rs`: attacks, attack statistics, attackers, combatants
    and encounters, with the exact effect of recording an attack.
  - `consistency.rs`: what recording keeps true of an encounter (totals are
    sums, highest hits are the first of the highest, names are not
    repeated, statistics stay ordered by damage; the ordering is stable).
  - `eventloop.rs`: the decisions of the log-following loops: reading a
    line, spoken triggers, handing on gathered attacks, recording them.
  - `totals.rs`: the totals of an encounter agree (combatants, statistics
    and attacks hold the same damage; names come from the attacks).
  - `words.rs`: a filter of several words is each of its words.
  - `history.rs`: the encounters after a whole run of handed-on batches.
  - `render.rs`: how moments and durations are shown.
  - `order.rs`: how the records compare.
  - `std_calls.rs`: std calls that need a stated contract.
- `app/` — threads, files, channels, JSON, speech and percentages.
- `tests/` — tests of the library.
