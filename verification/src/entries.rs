//! Session records and the sums over them.

use crate::double::{Double, SIGN_BIT, lemma_integer_exact, lemma_integer_sum, of_int};
use crate::exact::lemma_neutral;
use crate::rounding::SIGNIFICAND_LIMIT;
use vstd::prelude::*;

verus! {

/// Longer sessions than this, in minutes, are recording errors.
pub const MAX_VALID_DURATION_MINUTES: i64 = 1440;

/// One recorded session.
#[derive(Debug)]
pub struct SessionEntry {
    /// When it began, in seconds since the Unix epoch.
    pub created_at: i64,
    pub duration_minutes: i64,
    pub message_count: i64,
    pub workspace: Option<String>,
    pub task_category: Option<String>,
    pub models_used: Vec<String>,
    pub total_cost: Double,
    pub total_input_tokens: i64,
    pub total_output_tokens: i64,
    pub total_cache_read: i64,
}

/// A count that sessions have and that sums are taken of.
#[derive(Clone, Copy, Debug)]
pub enum Measure {
    Input,
    Output,
    InputAndOutput,
    CacheRead,
    Messages,
}

/// The count of one session.
pub open spec fn measured(e: SessionEntry, m: Measure) -> int {
    match m {
        Measure::Input => e.total_input_tokens as int,
        Measure::Output => e.total_output_tokens as int,
        Measure::InputAndOutput => e.total_input_tokens + e.total_output_tokens,
        Measure::CacheRead => e.total_cache_read as int,
        Measure::Messages => e.message_count as int,
    }
}

/// The sum of a count over sessions.
pub open spec fn total(entries: Seq<SessionEntry>, m: Measure) -> int
    decreases entries.len(),
{
    if entries.len() == 0 {
        0
    } else {
        total(entries.drop_last(), m) + measured(entries.last(), m)
    }
}

pub open spec fn fits(n: int) -> bool {
    i64::MIN <= n <= i64::MAX
}

/// Adding up a count in order stays within 64 bits throughout.
pub open spec fn total_fits(entries: Seq<SessionEntry>, m: Measure) -> bool
    decreases entries.len(),
{
    entries.len() > 0 ==> {
        &&& total_fits(entries.drop_last(), m)
        &&& fits(measured(entries.last(), m))
        &&& fits(total(entries, m))
    }
}

/// The costs of sessions, added in order. The sum of nothing is negative zero, the neutral element
/// of addition.
pub open spec fn spend(entries: Seq<SessionEntry>) -> Double
    decreases entries.len(),
{
    if entries.len() == 0 {
        Double { bits: SIGN_BIT }
    } else {
        spend(entries.drop_last()).plus(entries.last().total_cost)
    }
}

/// The sessions whose flag is set.
pub open spec fn picked(entries: Seq<SessionEntry>, flags: Seq<bool>) -> Seq<SessionEntry>
    decreases entries.len(),
{
    if entries.len() == 0 {
        Seq::empty()
    } else {
        let earlier = picked(entries.drop_last(), flags.drop_last());
        if flags.last() {
            earlier.push(entries.last())
        } else {
            earlier
        }
    }
}

/// The sessions of a period that may be missing.
pub open spec fn optional_entries(entries: Option<&[SessionEntry]>) -> Option<Seq<SessionEntry>> {
    match entries {
        Some(e) => Some(e@),
        None => None,
    }
}

/// Picking by flags that a test sets is filtering by the test.
pub proof fn lemma_picked_filter(
    entries: Seq<SessionEntry>,
    flags: Seq<bool>,
    test: spec_fn(SessionEntry) -> bool,
)
    requires
        flags.len() == entries.len(),
        forall|i: int| 0 <= i < entries.len() ==> flags[i] == test(#[trigger] entries[i]),
    ensures
        picked(entries, flags) == entries.filter(test),
    decreases entries.len(),
{
    reveal(Seq::filter);
    if entries.len() > 0 {
        let (fewer, first) = (entries.drop_last(), flags.drop_last());
        assert forall|i: int| 0 <= i < fewer.len() implies first[i] == test(#[trigger] fewer[i]) by {
            assert(fewer[i] == entries[i]);
        }
        lemma_picked_filter(fewer, first, test);
        assert(flags.last() == test(entries[entries.len() - 1]));
    } else {
        assert(entries.filter(test) =~= Seq::<SessionEntry>::empty());
    }
}

/// A session used a model.
pub open spec fn uses(e: SessionEntry, model: Seq<char>) -> bool {
    exists|i: int| 0 <= i < e.models_used@.len() && (#[trigger] e.models_used@[i])@ == model
}

/// Whether a session used a model.
pub fn used_by(e: &SessionEntry, model: &String) -> (r: bool)
    ensures
        r == uses(*e, model@),
{
    let mut i: usize = 0;
    while i < e.models_used.len()
        invariant
            i <= e.models_used@.len(),
            forall|j: int| 0 <= j < i ==> (#[trigger] e.models_used@[j])@ != model@,
        decreases e.models_used@.len() - i,
    {
        if e.models_used[i] == *model {
            return true;
        }
        i = i + 1;
    }
    false
}

/// References to all sessions.
pub fn all<'a>(entries: &'a [SessionEntry]) -> (list: Vec<&'a SessionEntry>)
    ensures
        list@.unref() == entries@,
        list@.len() == entries@.len(),
{
    let mut list: Vec<&'a SessionEntry> = Vec::new();
    let mut i: usize = 0;
    while i < entries.len()
        invariant
            i <= entries@.len(),
            list@.len() == i,
            forall|j: int| 0 <= j < i ==> *(#[trigger] list@[j]) == entries@[j],
        decreases entries@.len() - i,
    {
        list.push(&entries[i]);
        i = i + 1;
    }
    assert(list@.unref() =~= entries@);
    list
}

/// References to the sessions whose flag is set.
pub fn pick<'a>(entries: &'a [SessionEntry], flags: &Vec<bool>) -> (list: Vec<&'a SessionEntry>)
    requires
        flags@.len() == entries@.len(),
    ensures
        list@.unref() == picked(entries@, flags@),
        list@.len() <= entries@.len(),
{
    let mut list: Vec<&'a SessionEntry> = Vec::new();
    let mut i: usize = 0;
    assert(list@.unref() =~= Seq::<SessionEntry>::empty());
    while i < entries.len()
        invariant
            i <= entries@.len(),
            flags@.len() == entries@.len(),
            list@.unref() == picked(entries@.take(i as int), flags@.take(i as int)),
            list@.len() <= i,
        decreases entries@.len() - i,
    {
        proof {
            assert(entries@.take(i + 1).drop_last() =~= entries@.take(i as int));
            assert(flags@.take(i + 1).drop_last() =~= flags@.take(i as int));
        }
        if flags[i] {
            let ghost before = list@;
            list.push(&entries[i]);
            assert(list@.unref() =~= before.unref().push(entries@[i as int]));
        }
        i = i + 1;
    }
    assert(entries@.take(i as int) =~= entries@);
    assert(flags@.take(i as int) =~= flags@);
    list
}

/// The sum of the costs.
pub fn total_spend(list: &Vec<&SessionEntry>) -> (sum: Double)
    ensures
        sum == spend(list@.unref()),
{
    let mut sum = Double { bits: SIGN_BIT };
    let mut i: usize = 0;
    while i < list.len()
        invariant
            i <= list@.len(),
            sum == spend(list@.unref().take(i as int)),
        decreases list@.len() - i,
    {
        assert(list@.unref().take(i + 1).drop_last() =~= list@.unref().take(i as int));
        sum = sum.plus(list[i].total_cost);
        i = i + 1;
    }
    assert(list@.unref().take(i as int) =~= list@.unref());
    sum
}

/// The count of one session, if it fits.
pub fn measure(e: &SessionEntry, m: Measure) -> (r: Option<i64>)
    ensures
        r is Some <==> fits(measured(*e, m)),
        r matches Some(n) ==> n == measured(*e, m),
{
    match m {
        Measure::Input => Some(e.total_input_tokens),
        Measure::Output => Some(e.total_output_tokens),
        Measure::InputAndOutput => e.total_input_tokens.checked_add(e.total_output_tokens),
        Measure::CacheRead => Some(e.total_cache_read),
        Measure::Messages => Some(e.message_count),
    }
}

proof fn lemma_total_fits_take(entries: Seq<SessionEntry>, m: Measure, k: int)
    requires
        0 <= k <= entries.len(),
        total_fits(entries, m),
    ensures
        total_fits(entries.take(k), m),
    decreases entries.len(),
{
    if k < entries.len() {
        lemma_total_fits_take(entries.drop_last(), m, k);
        assert(entries.drop_last().take(k) =~= entries.take(k));
    } else {
        assert(entries.take(k) =~= entries);
    }
}

/// The sum of a count, if adding it up stays within 64 bits.
pub fn checked_total(list: &Vec<&SessionEntry>, m: Measure) -> (r: Option<i64>)
    ensures
        r is Some <==> total_fits(list@.unref(), m),
        r matches Some(n) ==> n == total(list@.unref(), m),
{
    let mut sum: i64 = 0;
    let mut i: usize = 0;
    let ghost all = list@.unref();
    while i < list.len()
        invariant
            i <= list@.len(),
            all == list@.unref(),
            sum == total(all.take(i as int), m),
            total_fits(all.take(i as int), m),
        decreases list@.len() - i,
    {
        let ghost next = all.take(i + 1);
        assert(next.drop_last() =~= all.take(i as int));
        assert(next.last() == *list@[i as int]);
        proof {
            if total_fits(all, m) {
                lemma_total_fits_take(all, m, i + 1);
            }
        }
        match measure(list[i], m) {
            Some(n) => {
                match sum.checked_add(n) {
                    Some(s) => {
                        sum = s;
                    },
                    None => {
                        return None;
                    },
                }
            },
            None => {
                return None;
            },
        }
        i = i + 1;
    }
    assert(all.take(i as int) =~= all);
    Some(sum)
}

pub open spec fn valid_duration() -> spec_fn(SessionEntry) -> bool {
    |e: SessionEntry| e.duration_minutes <= MAX_VALID_DURATION_MINUTES
}

/// Drops the sessions whose duration is a recording error.
pub fn retain_valid(entries: Vec<SessionEntry>) -> (kept: Vec<SessionEntry>)
    ensures
        kept@ == entries@.filter(valid_duration()),
{
    let mut list = entries;
    let mut i: usize = 0;
    let ghost mut seen: int = 0;
    proof {
        reveal(Seq::filter);
        assert(list@.take(0) =~= Seq::<SessionEntry>::empty());
        assert(entries@.take(0).filter(valid_duration()) =~= Seq::<SessionEntry>::empty());
        assert(entries@.skip(0) =~= entries@);
        assert(list@.skip(0) =~= list@);
    }
    while i < list.len()
        invariant
            i <= list@.len(),
            0 <= seen <= entries@.len(),
            list@.take(i as int) == entries@.take(seen).filter(valid_duration()),
            list@.skip(i as int) == entries@.skip(seen),
        decreases list@.len() - i,
    {
        let ghost before = list@;
        proof {
            reveal(Seq::filter);
            assert(before.skip(i as int).len() == entries@.skip(seen).len());
            assert(before.skip(i as int)[0] == before[i as int]);
            assert(entries@.skip(seen)[0] == entries@[seen]);
            assert(entries@.take(seen + 1).drop_last() =~= entries@.take(seen));
            assert(entries@.take(seen + 1).last() == before[i as int]);
            assert(entries@.skip(seen + 1) =~= entries@.skip(seen).skip(1));
        }
        if list[i].duration_minutes <= MAX_VALID_DURATION_MINUTES {
            proof {
                assert(before.take(i + 1) =~= before.take(i as int).push(before[i as int]));
                assert(before.skip(i + 1) =~= before.skip(i as int).skip(1));
            }
            i = i + 1;
        } else {
            let _ = list.remove(i);
            proof {
                assert(list@.take(i as int) =~= before.take(i as int));
                assert(list@.skip(i as int) =~= before.skip(i as int).skip(1));
            }
        }
        proof {
            seen = seen + 1;
        }
    }
    proof {
        assert(list@.skip(i as int).len() == 0);
        assert(entries@.take(seen) =~= entries@);
        assert(list@.take(i as int) =~= list@);
    }
    list
}

/// Sums over two lists of sessions add up.
pub proof fn lemma_totals_add(a: Seq<SessionEntry>, b: Seq<SessionEntry>, m: Measure)
    ensures
        total(a + b, m) == total(a, m) + total(b, m),
    decreases b.len(),
{
    if b.len() > 0 {
        lemma_totals_add(a, b.drop_last(), m);
        assert((a + b).drop_last() =~= a + b.drop_last());
    } else {
        assert(a + b =~= a);
    }
}

/// The sums over one session are its counts.
pub proof fn lemma_totals_of_one(e: SessionEntry)
    ensures
        total(seq![e], Measure::Input) == e.total_input_tokens,
        total(seq![e], Measure::Output) == e.total_output_tokens,
        total(seq![e], Measure::InputAndOutput) == e.total_input_tokens + e.total_output_tokens,
        total(seq![e], Measure::CacheRead) == e.total_cache_read,
        total(seq![e], Measure::Messages) == e.message_count,
{
    reveal_with_fuel(total, 2);
    let one = seq![e];
    assert(one.drop_last() =~= Seq::<SessionEntry>::empty());
    assert(one.last() == e);
}

/// Input and output tokens are all tokens.
pub proof fn lemma_all_tokens(entries: Seq<SessionEntry>)
    ensures
        total(entries, Measure::InputAndOutput) == total(entries, Measure::Input) + total(
            entries,
            Measure::Output,
        ),
    decreases entries.len(),
{
    if entries.len() > 0 {
        lemma_all_tokens(entries.drop_last());
    }
}

/// The spend of sessions grows by the cost of each; that of one session is its cost.
pub proof fn lemma_spend_grows(entries: Seq<SessionEntry>, e: SessionEntry)
    ensures
        spend(entries.push(e)) == spend(entries).plus(e.total_cost),
        !e.total_cost.is_nan() ==> spend(seq![e]) == e.total_cost,
{
    reveal_with_fuel(spend, 2);
    assert(entries.push(e).drop_last() =~= entries);
    let one = seq![e];
    assert(one.drop_last() =~= Seq::<SessionEntry>::empty());
    if !e.total_cost.is_nan() {
        lemma_neutral(e.total_cost);
    }
}

/// The sum of whole numbers.
pub open spec fn whole_sum(list: Seq<int>) -> int
    decreases list.len(),
{
    if list.len() == 0 {
        0
    } else {
        whole_sum(list.drop_last()) + list.last()
    }
}

/// Sessions cost whole dollars, and few enough in all to be counted exactly.
pub open spec fn cost_whole_dollars(entries: Seq<SessionEntry>, dollars: Seq<int>) -> bool {
    &&& dollars.len() == entries.len()
    &&& forall|i: int| 0 <= i < dollars.len() ==> 0 <= #[trigger] dollars[i]
    &&& forall|i: int|
        0 <= i < entries.len() ==> (#[trigger] entries[i]).total_cost == of_int(dollars[i])
    &&& whole_sum(dollars) < SIGNIFICAND_LIMIT
}

/// The spend of sessions that cost whole dollars is their sum.
pub proof fn lemma_whole_spend(entries: Seq<SessionEntry>, dollars: Seq<int>)
    requires
        cost_whole_dollars(entries, dollars),
        entries.len() > 0,
    ensures
        spend(entries) == of_int(whole_sum(dollars)),
        whole_sum(dollars) >= 0,
    decreases entries.len(),
{
    reveal_with_fuel(spend, 2);
    reveal_with_fuel(whole_sum, 2);
    let (fewer, less) = (entries.drop_last(), dollars.drop_last());
    let last = entries.len() - 1;
    assert(entries[last].total_cost == of_int(dollars[last]));
    assert(dollars[last] >= 0);
    lemma_whole_sum(less);
    if fewer.len() > 0 {
        assert forall|i: int| 0 <= i < fewer.len() implies (#[trigger] fewer[i]).total_cost
            == of_int(less[i]) by {
            assert(entries[i].total_cost == of_int(dollars[i]));
        }
        lemma_whole_spend(fewer, less);
        lemma_integer_sum(whole_sum(less), dollars[last]);
    } else {
        lemma_integer_exact(dollars[last]);
        lemma_neutral(of_int(dollars[last]));
    }
}

proof fn lemma_whole_sum(list: Seq<int>)
    requires
        forall|i: int| 0 <= i < list.len() ==> 0 <= #[trigger] list[i],
    ensures
        whole_sum(list) >= 0,
    decreases list.len(),
{
    if list.len() > 0 {
        assert(list[list.len() - 1] >= 0);
        lemma_whole_sum(list.drop_last());
    }
}

/// Sessions of up to a day are kept, and no others.
pub proof fn lemma_valid_durations(entries: Seq<SessionEntry>, e: SessionEntry)
    ensures
        entries.filter(valid_duration()).contains(e) <==> entries.contains(e)
            && e.duration_minutes <= 1440,
{
    if entries.contains(e) && e.duration_minutes <= 1440 {
        entries.lemma_filter_contains(valid_duration(), entries.index_of(e));
    }
    if entries.filter(valid_duration()).contains(e) {
        entries.lemma_filter_contains_rev(valid_duration(), e);
        entries.lemma_filter_pred(
            valid_duration(),
            entries.filter(valid_duration()).index_of(e),
        );
    }
}

/// The sessions that are kept are those of up to 1440 minutes, in their order.
pub proof fn lemma_kept_in_order(entries: Seq<SessionEntry>)
    ensures
        entries.filter(valid_duration()) == entries.filter(
            |e: SessionEntry| e.duration_minutes <= 1440,
        ),
{
    assert(valid_duration() =~= |e: SessionEntry| e.duration_minutes <= 1440);
}

} // verus!
