# advisor

Advice on what coding assistants cost: from the sessions of a period, and of the one before it, a
report with figures, changes and recommendations. The library is written in Verus, and what each
function returns is stated in its contract and proved.

- `src/double.rs`, `src/rounding.rs`, `src/numbers.rs`: binary64 arithmetic on bit patterns
- `src/text.rs`: numbers as decimal text
- `src/entries.rs`, `src/ledger.rs`, `src/ranking.rs`: sessions, sums by name, stable orders
- `src/summary.rs`: the figures of a period and how they changed
- `src/rules/`: the rules, one file each
- `src/recommendation.rs`, `src/report.rs`: recommendations in order, and the whole report
- `src/window.rs`, `src/clock.rs`: which periods to look at
- `src/render.rs`, `src/paint.rs`: a report as styled text, and as a terminal takes it
- `app/`: the `diagnose` and `optimize` commands around the library

What is taken on trust is said in a doc comment where it is declared: the machine's clock and its
time zone (`src/clock.rs`, through chrono) and the control sequences of styles (`src/paint.rs`,
through colored).
