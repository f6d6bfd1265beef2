//! The periods that are reported on and compared with.

use crate::clock::{LAST_SECOND, unix_now};
use crate::entries::{SessionEntry, fits};
use vstd::prelude::*;

verus! {

/// Seven days, in seconds.
pub const TRAILING_SECONDS: i64 = 604_800;

/// The bounds that were asked for if there are any, else the seven days up to `now`.
pub open spec fn window_at(
    since: Option<i64>,
    until: Option<i64>,
    now: i64,
) -> (Option<i64>, Option<i64>) {
    if since is Some || until is Some {
        (since, until)
    } else {
        (Some((now - TRAILING_SECONDS) as i64), Some(now))
    }
}

/// The window of a report that is made at `now`.
pub fn trailing_window(since: Option<i64>, until: Option<i64>, now: i64) -> (window: (
    Option<i64>,
    Option<i64>,
))
    requires
        since is None && until is None ==> fits(now - TRAILING_SECONDS),
    ensures
        window == window_at(since, until, now),
{
    if since.is_some() || until.is_some() {
        (since, until)
    } else {
        (Some(now - TRAILING_SECONDS), Some(now))
    }
}

/// The window of a report that is made now.
pub fn resolve_trailing_7d_window(since: Option<i64>, until: Option<i64>) -> (window: (
    Option<i64>,
    Option<i64>,
))
    ensures
        exists|now: i64|
            0 <= now <= LAST_SECOND && window == #[trigger] window_at(since, until, now),
        since is Some || until is Some ==> window == (since, until),
{
    if since.is_some() || until.is_some() {
        assert((since, until) == window_at(since, until, 0));
        return (since, until);
    }
    let now = unix_now();
    let window = trailing_window(since, until, now);
    assert(window == window_at(since, until, now));
    window
}

/// The earliest start of sessions; zero if there are none.
pub open spec fn earliest(entries: Seq<SessionEntry>) -> int
    decreases entries.len(),
{
    if entries.len() == 0 {
        0
    } else if entries.len() == 1 {
        entries[0].created_at as int
    } else {
        let e = earliest(entries.drop_last());
        if entries.last().created_at < e {
            entries.last().created_at as int
        } else {
            e
        }
    }
}

/// The latest start of sessions; zero if there are none.
pub open spec fn latest(entries: Seq<SessionEntry>) -> int
    decreases entries.len(),
{
    if entries.len() == 0 {
        0
    } else if entries.len() == 1 {
        entries[0].created_at as int
    } else {
        let l = latest(entries.drop_last());
        if entries.last().created_at > l {
            entries.last().created_at as int
        } else {
            l
        }
    }
}

/// The period before the one of some sessions: as long, and ending a second before it begins.
/// There is none where all sessions begin at the same time.
pub open spec fn previous_window_of(entries: Seq<SessionEntry>) -> Option<(int, int)> {
    let span = latest(entries) - earliest(entries);
    if span > 0 {
        Some((earliest(entries) - span, earliest(entries) - 1))
    } else {
        None
    }
}

/// The bounds of the previous period can be computed within 64 bits.
pub open spec fn previous_window_defined(entries: Seq<SessionEntry>) -> bool {
    &&& fits(latest(entries) - earliest(entries))
    &&& previous_window_of(entries) matches Some(w) ==> fits(w.0) && fits(w.1)
}

/// All sessions begin between the earliest and the latest start.
pub proof fn lemma_bounds(entries: Seq<SessionEntry>)
    ensures
        forall|i: int|
            0 <= i < entries.len() ==> earliest(entries) <= (#[trigger] entries[i]).created_at
                <= latest(entries),
        entries.len() > 0 ==> exists|i: int|
            0 <= i < entries.len() && (#[trigger] entries[i]).created_at == earliest(entries),
        entries.len() > 0 ==> exists|i: int|
            0 <= i < entries.len() && (#[trigger] entries[i]).created_at == latest(entries),
        fits(earliest(entries)),
        fits(latest(entries)),
    decreases entries.len(),
{
    if entries.len() == 1 {
        assert(entries[0].created_at == earliest(entries));
    }
    if entries.len() > 1 {
        let fewer = entries.drop_last();
        lemma_bounds(fewer);
        let last = entries.len() - 1;
        assert forall|i: int| 0 <= i < entries.len() implies earliest(entries) <= (
        #[trigger] entries[i]).created_at <= latest(entries) by {
            if i < last {
                assert(fewer[i] == entries[i]);
            }
        }
        let i = choose|i: int|
            0 <= i < fewer.len() && (#[trigger] fewer[i]).created_at == earliest(fewer);
        let j = choose|j: int|
            0 <= j < fewer.len() && (#[trigger] fewer[j]).created_at == latest(fewer);
        assert(entries[i] == fewer[i] && entries[j] == fewer[j]);
        assert(entries[last].created_at == entries.last().created_at);
    }
}

/// The previous period is a proper one, ends before any of the sessions begins, and spans the same
/// time as they do.
pub proof fn lemma_previous_window(entries: Seq<SessionEntry>)
    ensures
        previous_window_of(entries) matches Some((since, until)) ==> {
            &&& since <= until
            &&& until - since + 1 == latest(entries) - earliest(entries)
            &&& forall|i: int|
                0 <= i < entries.len() ==> until < (#[trigger] entries[i]).created_at
        },
        previous_window_of(entries) is None <==> forall|i: int, j: int|
            0 <= i < entries.len() && 0 <= j < entries.len() ==> (
            #[trigger] entries[i]).created_at == (#[trigger] entries[j]).created_at,
{
    lemma_bounds(entries);
    if entries.len() > 0 {
        let i = choose|i: int|
            0 <= i < entries.len() && (#[trigger] entries[i]).created_at == earliest(entries);
        let j = choose|j: int|
            0 <= j < entries.len() && (#[trigger] entries[j]).created_at == latest(entries);
        assert(entries[i].created_at == earliest(entries));
        assert(entries[j].created_at == latest(entries));
        if previous_window_of(entries) is None {
            assert forall|a: int, b: int|
                0 <= a < entries.len() && 0 <= b < entries.len() implies (
            #[trigger] entries[a]).created_at == (#[trigger] entries[b]).created_at by {}
        }
    }
}

fn bounds(entries: &[SessionEntry]) -> (b: (i64, i64))
    ensures
        b.0 == earliest(entries@),
        b.1 == latest(entries@),
{
    if entries.len() == 0 {
        return (0, 0);
    }
    let mut low = entries[0].created_at;
    let mut high = entries[0].created_at;
    let mut i: usize = 1;
    while i < entries.len()
        invariant
            1 <= i <= entries@.len(),
            low == earliest(entries@.take(i as int)),
            high == latest(entries@.take(i as int)),
        decreases entries@.len() - i,
    {
        assert(entries@.take(i + 1).drop_last() =~= entries@.take(i as int));
        let at = entries[i].created_at;
        if at < low {
            low = at;
        }
        if at > high {
            high = at;
        }
        i = i + 1;
    }
    assert(entries@.take(i as int) =~= entries@);
    (low, high)
}

/// Whether the bounds of the previous period can be computed.
pub fn is_previous_window_defined(entries: &[SessionEntry]) -> (r: bool)
    ensures
        r == previous_window_defined(entries@),
{
    let (low, high) = bounds(entries);
    match high.checked_sub(low) {
        Some(span) => span <= 0 || (low.checked_sub(span).is_some() && low.checked_sub(
            1,
        ).is_some()),
        None => false,
    }
}

/// The window of the previous period.
pub fn previous_window(entries: &[SessionEntry]) -> (window: Option<(i64, i64)>)
    requires
        previous_window_defined(entries@),
    ensures
        window is Some <==> previous_window_of(entries@) is Some,
        window matches Some(w) ==> previous_window_of(entries@) == Some((w.0 as int, w.1 as int)),
{
    let (low, high) = bounds(entries);
    let span = high - low;
    if span <= 0 {
        return None;
    }
    Some((low - span, low - 1))
}

/// What is left to do once the sessions of a period are known.
#[derive(Clone, Copy, Debug, PartialEq, Eq, Structural)]
pub enum Step {
    /// Nothing: there are no sessions to report on.
    Stop,
    /// To report on the period, with none to compare it with.
    Report,
    /// To look up the sessions between two seconds, and to report on the period in comparison.
    Compare { since: i64, until: i64 },
}

pub open spec fn step_after(entries: Seq<SessionEntry>) -> Step {
    if entries.len() == 0 {
        Step::Stop
    } else {
        match previous_window_of(entries) {
            Some((since, until)) => Step::Compare { since: since as i64, until: until as i64 },
            None => Step::Report,
        }
    }
}

/// What to do next, given the sessions of a period.
pub fn next_step(entries: &[SessionEntry]) -> (step: Step)
    requires
        previous_window_defined(entries@),
    ensures
        step == step_after(entries@),
{
    if entries.len() == 0 {
        return Step::Stop;
    }
    match previous_window(entries) {
        Some((since, until)) => Step::Compare { since, until },
        None => Step::Report,
    }
}

/// Without bounds the window is the seven days up to now; with any bound it is what was asked for.
pub proof fn lemma_seven_days(since: Option<i64>, until: Option<i64>, now: i64)
    requires
        fits(now - 7 * 24 * 60 * 60),
    ensures
        window_at(None, None, now) == (Some((now - 7 * 24 * 60 * 60) as i64), Some(now)),
        since is Some || until is Some ==> window_at(since, until, now) == (since, until),
{
}

/// The previous period ends a second before the first session and begins as long before that
/// session as the last one is after it.
pub proof fn lemma_previous_adjoins(entries: Seq<SessionEntry>, first: int, last: int)
    requires
        0 <= first < entries.len(),
        0 <= last < entries.len(),
        forall|i: int|
            0 <= i < entries.len() ==> entries[first].created_at <= (
            #[trigger] entries[i]).created_at <= entries[last].created_at,
    ensures
        ({
            let (low, high) = (entries[first].created_at, entries[last].created_at);
            &&& low < high ==> previous_window_of(entries) == Some((low - (high - low), low - 1))
            &&& low == high ==> previous_window_of(entries) is None
        }),
{
    lemma_bounds(entries);
    let i = choose|i: int|
        0 <= i < entries.len() && (#[trigger] entries[i]).created_at == earliest(entries);
    let j = choose|j: int|
        0 <= j < entries.len() && (#[trigger] entries[j]).created_at == latest(entries);
    assert(entries[first].created_at <= entries[i].created_at);
    assert(entries[j].created_at <= entries[last].created_at);
}

/// Without sessions there is nothing to do. With sessions a report follows: in comparison with the
/// period that ends a second before the first of them, where they do not all begin at one time.
pub proof fn lemma_steps(entries: Seq<SessionEntry>, first: int, last: int)
    requires
        previous_window_defined(entries),
    ensures
        step_after(Seq::empty()) == Step::Stop,
        0 <= first < entries.len() && 0 <= last < entries.len() && (forall|i: int|
            0 <= i < entries.len() ==> entries[first].created_at <= (
            #[trigger] entries[i]).created_at <= entries[last].created_at) ==> {
            let (low, high) = (entries[first].created_at, entries[last].created_at);
            &&& low == high ==> step_after(entries) == Step::Report
            &&& low < high ==> (step_after(entries) matches Step::Compare { since, until } && since
                == low - (high - low) && until == low - 1)
        },
{
    if 0 <= first < entries.len() && 0 <= last < entries.len() && (forall|i: int|
        0 <= i < entries.len() ==> entries[first].created_at <= (#[trigger] entries[i]).created_at
            <= entries[last].created_at) {
        lemma_previous_adjoins(entries, first, last);
    }
}

/// The previous period is defined where no session begins before the year 1970, nor very late.
pub proof fn lemma_window_defined(entries: Seq<SessionEntry>)
    requires
        forall|i: int|
            0 <= i < entries.len() ==> 0 <= (#[trigger] entries[i]).created_at <= LAST_SECOND,
    ensures
        previous_window_defined(entries),
{
    lemma_bounds(entries);
    if entries.len() > 0 {
        let i = choose|i: int|
            0 <= i < entries.len() && (#[trigger] entries[i]).created_at == earliest(entries);
        let j = choose|j: int|
            0 <= j < entries.len() && (#[trigger] entries[j]).created_at == latest(entries);
        assert(0 <= entries[i].created_at && entries[j].created_at <= LAST_SECOND);
    }
}

} // verus!
