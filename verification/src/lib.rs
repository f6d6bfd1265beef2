//! Advice on what coding assistants cost.
//!
//! Sessions of one period, and of the one before it if there is one, go in; a report comes out:
//! the figures of the period (`summary`), how they changed, and recommendations, the most severe
//! first (`report`). Each recommendation is the finding of a rule (`rules`). `window` says which
//! periods to look at, `render` turns a report into styled text, and `paint` that into what a
//! terminal takes.
//!
//! Amounts are binary64 numbers throughout. `double` computes with them on their bit patterns,
//! `text` formats them, and both are exact: every sum, ratio and rounded figure of a report is
//! specified to the last digit. Where the figures cannot be computed within 64 bits, or where
//! there is something to compare that is not a number, a function asks its caller to check first;
//! for each such condition there is a function that checks it. `exact` shows where that arithmetic
//! agrees with whole numbers, and `ordinary` that reports can be made on ordinary sessions.

pub mod clock;
pub mod double;
pub mod entries;
pub mod exact;
pub mod ledger;
pub mod numbers;
pub mod ordinary;
pub mod paint;
pub mod ranking;
pub mod recommendation;
pub mod render;
pub mod report;
pub mod rounding;
pub mod rules;
pub mod summary;
pub mod text;
pub mod window;
