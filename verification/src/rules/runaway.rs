//! Sessions that cost far more than usual.

use crate::double::{
    Double, lemma_integer_exact, lemma_integer_sum, lemma_larger, lemma_midpoint,
    lemma_times_number, of_int,
};
use crate::entries::{
    SessionEntry, cost_whole_dollars, lemma_picked_filter, pick, spend, total_spend,
};
use crate::exact::{lemma_whole_limits, lemma_whole_product};
use crate::numbers::{FIFTH, HUNDRED, ONE, TENTH, THOUSANDTH, THREE, TWO, num};
use crate::ranking::{
    Key, as_ints, is_arrangement, lemma_ranking_sorts, rank, ranking,
};
use crate::recommendation::{Level, Recommendation, RecommendationView, lemma_views_push, views};
use crate::rounding::HIDDEN_BIT;
use crate::summary::{PeriodSummary, fraction, fraction_of};
use crate::text::{count, decimal, integer, integer_text, join, joined, number, number_text, texts};
use vstd::prelude::*;

verus! {

/// The rule has only numbers to compare.
pub open spec fn runaway_defined(entries: Seq<SessionEntry>) -> bool {
    entries.len() >= 5 ==> forall|i: int|
        0 <= i < entries.len() ==> !(#[trigger] entries[i]).total_cost.is_nan()
}

/// Keys that rank sessions from the cheapest on.
pub open spec fn cheapest_first(entries: Seq<SessionEntry>) -> Seq<Key> {
    entries.map_values(|e: SessionEntry| Key { class: 0, amount: e.total_cost.negated() })
}

/// The cost of the session at a position when sessions are sorted by cost.
pub open spec fn cost_at(entries: Seq<SessionEntry>, position: int) -> Double {
    entries[ranking(cheapest_first(entries))[position]].total_cost
}

/// The cost in the middle when sessions are sorted by cost; half the sum of two where there are two
/// in the middle.
pub open spec fn median(entries: Seq<SessionEntry>) -> Double {
    let half = entries.len() as int / 2;
    if entries.len() % 2 == 1 {
        cost_at(entries, half)
    } else {
        cost_at(entries, half - 1).plus(cost_at(entries, half)).over(num(TWO))
    }
}

/// Three times the median, but at least $1.
pub open spec fn threshold(entries: Seq<SessionEntry>) -> Double {
    median(entries).times(num(THREE)).larger(num(ONE))
}

pub open spec fn costs_more_than(limit: Double) -> spec_fn(SessionEntry) -> bool {
    |e: SessionEntry| limit.less(e.total_cost)
}

pub open spec fn runaways(entries: Seq<SessionEntry>) -> Seq<SessionEntry> {
    entries.filter(costs_more_than(threshold(entries)))
}

/// At least five sessions, some of them runaways, and these three at least or a tenth of the spend.
pub open spec fn some_ran_away(entries: Seq<SessionEntry>, total_cost: Double) -> bool {
    &&& entries.len() >= 5
    &&& runaways(entries).len() > 0
    &&& !fraction_of(spend(runaways(entries)), total_cost).less(num(TENTH)) || runaways(
        entries,
    ).len() >= 3
}

/// A session in a few words.
pub open spec fn session_text(e: SessionEntry) -> Seq<char> {
    "$"@ + number_text(e.total_cost, 2, false) + " / "@ + integer_text(
        e.message_count as int,
        false,
    ) + "msg / "@ + (if e.models_used@.len() > 0 {
        e.models_used@[0]@
    } else {
        "?"@
    }) + " ("@ + (match e.task_category {
        Some(c) => c@,
        None => "?"@,
    }) + ")"@
}

/// The first three sessions, each in a few words.
pub open spec fn first_three(entries: Seq<SessionEntry>) -> Seq<Seq<char>> {
    entries.take(if entries.len() < 3 { entries.len() as int } else { 3 }).map_values(
        |e: SessionEntry| session_text(e),
    )
}

pub open spec fn runaway_finding(
    entries: Seq<SessionEntry>,
    total_cost: Double,
) -> RecommendationView {
    let list = runaways(entries);
    let cost = spend(list);
    RecommendationView {
        id: "runaway_sessions"@,
        severity: Level::Medium,
        confidence: Level::High,
        title: decimal(list.len()) + " session(s) cost >3x the median ($"@ + number_text(
            median(entries),
            2,
            false,
        ) + ")"@,
        evidence: seq![
            "Median session cost: $"@ + number_text(median(entries), 2, false)
                + ", threshold: $"@ + number_text(threshold(entries), 2, false),
            "Runaway sessions total: $"@ + number_text(cost, 2, false) + " ("@ + number_text(
                fraction_of(cost, total_cost).times(num(HUNDRED)),
                0,
                false,
            ) + "% of period spend)"@,
            "Top sessions: "@ + joined(first_three(list), " | "@),
        ],
        action: "For similar work, consider splitting into smaller sessions (plan → implement → review). Long sessions accumulate context that inflates input costs."@,
        estimated_savings: Some(cost.times(num(FIFTH))),
    }
}

pub open spec fn runaway_findings(
    entries: Seq<SessionEntry>,
    total_cost: Double,
) -> Seq<RecommendationView> {
    if some_ran_away(entries, total_cost) {
        seq![runaway_finding(entries, total_cost)]
    } else {
        Seq::empty()
    }
}

/// The two costs in the middle have a finite sum, or are infinite and have a sum at all.
pub open spec fn middle_fits(entries: Seq<SessionEntry>) -> bool {
    let half = entries.len() as int / 2;
    let (lower, upper) = (cost_at(entries, half - 1), cost_at(entries, half));
    entries.len() % 2 == 0 ==> {
        &&& !lower.plus(upper).is_nan()
        &&& lower.is_finite() && upper.is_finite() ==> lower.plus(upper).is_finite()
    }
}

/// The median divides the sessions: sorted by cost, those in the first half cost no more, and those
/// in the second half no less. With an odd number of sessions the one in the middle is in both.
pub proof fn lemma_median(entries: Seq<SessionEntry>)
    requires
        entries.len() > 0,
        forall|i: int| 0 <= i < entries.len() ==> !(#[trigger] entries[i]).total_cost.is_nan(),
        middle_fits(entries),
    ensures
        is_arrangement(ranking(cheapest_first(entries)), entries.len()),
        forall|i: int|
            0 <= 2 * i < entries.len() ==> (#[trigger] cost_at(entries, i)).at_most(
                median(entries),
            ),
        forall|i: int|
            entries.len() <= 2 * i + 1 && i < entries.len() ==> median(entries).at_most(
                #[trigger] cost_at(entries, i),
            ),
{
    let keys = cheapest_first(entries);
    let half = entries.len() as int / 2;
    assert forall|i: int| 0 <= i < keys.len() implies !(#[trigger] keys[i]).amount.is_nan() by {
        assert(!entries[i].total_cost.is_nan());
    }
    lemma_ranking_sorts(keys);
    assert forall|i: int, j: int| 0 <= i <= j < entries.len() implies (#[trigger] cost_at(
        entries,
        i,
    )).at_most(#[trigger] cost_at(entries, j)) by {
        let order = ranking(keys);
        assert(0 <= order[i] < entries.len() && 0 <= order[j] < entries.len());
        assert(!entries[order[i]].total_cost.is_nan() && !entries[order[j]].total_cost.is_nan());
        assert(keys[order[i]].amount == entries[order[i]].total_cost.negated());
        assert(keys[order[j]].amount == entries[order[j]].total_cost.negated());
    }
    if entries.len() % 2 == 0 {
        lemma_midpoint(cost_at(entries, half - 1), cost_at(entries, half));
        assert forall|i: int| 0 <= 2 * i < entries.len() implies (#[trigger] cost_at(
            entries,
            i,
        )).at_most(median(entries)) by {
            assert(cost_at(entries, i).at_most(cost_at(entries, half - 1)));
        }
        assert forall|i: int| entries.len() <= 2 * i + 1 && i < entries.len() implies median(
            entries,
        ).at_most(#[trigger] cost_at(entries, i)) by {
            assert(cost_at(entries, half).at_most(cost_at(entries, i)));
        }
    }
}

/// The runaways are the sessions that cost more than three times the median, and more than $1.
pub proof fn lemma_runaways(entries: Seq<SessionEntry>)
    requires
        !median(entries).is_nan(),
    ensures
        forall|i: int|
            0 <= i < runaways(entries).len() ==> {
                let cost = (#[trigger] runaways(entries)[i]).total_cost;
                &&& entries.contains(runaways(entries)[i])
                &&& median(entries).times(num(THREE)).less(cost)
                &&& num(ONE).less(cost)
            },
        forall|i: int|
            0 <= i < entries.len() && median(entries).times(num(THREE)).less(
                (#[trigger] entries[i]).total_cost,
            ) && num(ONE).less(entries[i].total_cost) ==> runaways(entries).contains(entries[i]),
{
    let test = costs_more_than(threshold(entries));
    lemma_times_number(median(entries), num(THREE));
    lemma_larger(median(entries).times(num(THREE)), num(ONE));
    assert forall|i: int| 0 <= i < runaways(entries).len() implies {
        let cost = (#[trigger] runaways(entries)[i]).total_cost;
        &&& entries.contains(runaways(entries)[i])
        &&& median(entries).times(num(THREE)).less(cost)
        &&& num(ONE).less(cost)
    } by {
        entries.lemma_filter_pred(test, i);
        assert(runaways(entries).contains(runaways(entries)[i]));
        entries.lemma_filter_contains_rev(test, runaways(entries)[i]);
    }
    assert forall|i: int|
        0 <= i < entries.len() && median(entries).times(num(THREE)).less(
            (#[trigger] entries[i]).total_cost,
        ) && num(ONE).less(entries[i].total_cost) implies runaways(entries).contains(
        entries[i],
    ) by {
        entries.lemma_filter_contains(test, i);
    }
}

/// Whether the rule has only numbers to compare.
pub fn is_runaway_defined(entries: &[SessionEntry]) -> (r: bool)
    ensures
        r == runaway_defined(entries@),
{
    if entries.len() < 5 {
        return true;
    }
    let mut i: usize = 0;
    while i < entries.len()
        invariant
            5 <= entries@.len(),
            i <= entries@.len(),
            forall|j: int| 0 <= j < i ==> !(#[trigger] entries@[j]).total_cost.is_nan(),
        decreases entries@.len() - i,
    {
        if entries[i].total_cost.nan() {
            return false;
        }
        i = i + 1;
    }
    true
}

fn find_median(entries: &[SessionEntry]) -> (m: Double)
    requires
        entries@.len() > 0,
    ensures
        m == median(entries@),
{
    let mut keys: Vec<Key> = Vec::new();
    let mut i: usize = 0;
    while i < entries.len()
        invariant
            i <= entries@.len(),
            keys@.len() == i,
            forall|j: int|
                0 <= j < i ==> #[trigger] keys@[j] == (Key {
                    class: 0,
                    amount: entries@[j].total_cost.negated(),
                }),
        decreases entries@.len() - i,
    {
        keys.push(Key { class: 0, amount: entries[i].total_cost.negated() });
        i = i + 1;
    }
    assert(keys@ =~= cheapest_first(entries@));
    let order = rank(&keys);
    let half = entries.len() / 2;
    assert forall|i: int| 0 <= i < entries@.len() implies (#[trigger] order@[i]) < entries@.len()
        && entries@[order@[i] as int].total_cost == cost_at(entries@, i) by {
        assert(as_ints(order@)[i] == order@[i] as int);
        assert(0 <= as_ints(order@)[i] < entries@.len());
    }
    let upper = entries[order[half]].total_cost;
    if entries.len() % 2 == 1 {
        upper
    } else {
        entries[order[half - 1]].total_cost.plus(upper).over(num(TWO))
    }
}

fn runaway_list<'a>(entries: &'a [SessionEntry], limit: Double) -> (list: Vec<&'a SessionEntry>)
    requires
        limit == threshold(entries@),
    ensures
        list@.unref() == runaways(entries@),
        list@.len() == runaways(entries@).len(),
{
    let mut flags: Vec<bool> = Vec::new();
    let mut i: usize = 0;
    while i < entries.len()
        invariant
            i <= entries@.len(),
            flags@.len() == i,
            forall|j: int| 0 <= j < i ==> flags@[j] == costs_more_than(limit)(#[trigger] entries@[j]),
        decreases entries@.len() - i,
    {
        flags.push(limit.less(entries[i].total_cost));
        i = i + 1;
    }
    proof {
        lemma_picked_filter(entries@, flags@, costs_more_than(limit));
    }
    let list = pick(entries, &flags);
    assert(list@.unref().len() == list@.len());
    list
}

fn describe(e: &SessionEntry) -> (s: String)
    ensures
        s@ == session_text(*e),
{
    let model = if e.models_used.len() > 0 {
        e.models_used[0].clone()
    } else {
        "?".to_owned()
    };
    let category = match &e.task_category {
        Some(c) => c.clone(),
        None => "?".to_owned(),
    };
    "$".to_owned().concat(number(e.total_cost, 2, false).as_str()).concat(" / ").concat(
        integer(e.message_count, false).as_str(),
    ).concat("msg / ").concat(model.as_str()).concat(" (").concat(category.as_str()).concat(")")
}

fn describe_three(list: &Vec<&SessionEntry>) -> (lines: Vec<String>)
    ensures
        texts(lines@) == first_three(list@.unref()),
{
    let mut lines: Vec<String> = Vec::new();
    let mut i: usize = 0;
    let ghost all = list@.unref();
    while i < list.len() && i < 3
        invariant
            i <= list@.len(),
            i <= 3,
            all == list@.unref(),
            lines@.len() == i,
            forall|j: int| 0 <= j < i ==> (#[trigger] lines@[j])@ == session_text(all[j]),
        decreases list@.len() - i,
    {
        lines.push(describe(list[i]));
        i = i + 1;
    }
    assert(texts(lines@) =~= first_three(all));
    lines
}

/// Points out sessions that ran away.
pub fn rule_runaway_sessions(
    entries: &[SessionEntry],
    summary: &PeriodSummary,
    recs: &mut Vec<Recommendation>,
)
    requires
        runaway_defined(entries@),
    ensures
        views(final(recs)@) == views(old(recs)@) + runaway_findings(entries@, summary.total_cost),
{
    assert(views(recs@) + Seq::<RecommendationView>::empty() =~= views(recs@));
    if entries.len() < 5 {
        return;
    }
    let middle = find_median(entries);
    let limit = middle.times(num(THREE)).larger(num(ONE));
    let list = runaway_list(entries, limit);
    if list.len() == 0 {
        return;
    }
    let cost = total_spend(&list);
    let share = fraction(cost, summary.total_cost);
    if share.less(num(TENTH)) && list.len() < 3 {
        return;
    }
    let top = describe_three(&list);
    let r = Recommendation {
        id: "runaway_sessions".to_owned(),
        severity: Level::Medium,
        confidence: Level::High,
        title: count(list.len()).concat(" session(s) cost >3x the median ($").concat(
            number(middle, 2, false).as_str(),
        ).concat(")"),
        evidence: vec![
            "Median session cost: $".to_owned().concat(number(middle, 2, false).as_str()).concat(
                ", threshold: $",
            ).concat(number(limit, 2, false).as_str()),
            "Runaway sessions total: $".to_owned().concat(number(cost, 2, false).as_str()).concat(
                " (",
            ).concat(number(share.times(num(HUNDRED)), 0, false).as_str()).concat(
                "% of period spend)",
            ),
            "Top sessions: ".to_owned().concat(join(&top, " | ").as_str()),
        ],
        action: "For similar work, consider splitting into smaller sessions (plan → implement → review). Long sessions accumulate context that inflates input costs.".to_owned(),
        estimated_savings: Some(cost.times(num(FIFTH))),
    };
    proof {
        let wanted = runaway_finding(entries@, summary.total_cost);
        assert(texts(r.evidence@) =~= wanted.evidence);
        assert(r@ =~= wanted);
        lemma_views_push(recs@, r);
    }
    recs.push(r);
}

/// There is a finding exactly if there are five sessions at least, some of them cost more than three
/// times the median and more than $1, and these are three at least or take a tenth of the spend at
/// least. It is of medium severity and would save a fifth of what they cost.
pub proof fn lemma_runaways_found(entries: Seq<SessionEntry>, total_cost: Double)
    ensures
        ({
            let found = runaway_findings(entries, total_cost);
            let limit = median(entries).times(num(THREE)).larger(num(ONE));
            let ran = entries.filter(|e: SessionEntry| limit.less(e.total_cost));
            &&& found.len() <= 1
            &&& found.len() == 1 <==> entries.len() >= 5 && ran.len() >= 1 && (ran.len() >= 3
                || !spend(ran).over(total_cost.larger(num(THOUSANDTH))).less(num(TENTH)))
            &&& found.len() == 1 ==> {
                &&& found[0].id == "runaway_sessions"@
                &&& found[0].severity == Level::Medium
                &&& found[0].confidence == Level::High
                &&& found[0].estimated_savings == Some(spend(ran).times(num(FIFTH)))
            }
        }),
{
    let limit = median(entries).times(num(THREE)).larger(num(ONE));
    assert(costs_more_than(threshold(entries)) =~= |e: SessionEntry| limit.less(e.total_cost));
}

/// The median is the cost in the middle when sessions are sorted by cost, or half the sum of the two
/// costs in the middle; and the costs are sorted.
pub proof fn lemma_median_is_middle(entries: Seq<SessionEntry>, k: int)
    requires
        forall|i: int| 0 <= i < entries.len() ==> !(#[trigger] entries[i]).total_cost.is_nan(),
        k >= 0,
    ensures
        entries.len() == 2 * k + 1 ==> median(entries) == cost_at(entries, k),
        entries.len() == 2 * k && k > 0 ==> median(entries) == cost_at(entries, k - 1).plus(
            cost_at(entries, k),
        ).over(num(TWO)),
        is_arrangement(ranking(cheapest_first(entries)), entries.len()),
        forall|i: int, j: int|
            0 <= i <= j < entries.len() ==> (#[trigger] cost_at(entries, i)).at_most(
                #[trigger] cost_at(entries, j),
            ),
{
    let keys = cheapest_first(entries);
    assert forall|i: int| 0 <= i < keys.len() implies !(#[trigger] keys[i]).amount.is_nan() by {
        assert(!entries[i].total_cost.is_nan());
    }
    lemma_ranking_sorts(keys);
    assert forall|i: int, j: int| 0 <= i <= j < entries.len() implies (#[trigger] cost_at(
        entries,
        i,
    )).at_most(#[trigger] cost_at(entries, j)) by {
        let order = ranking(keys);
        assert(0 <= order[i] < entries.len() && 0 <= order[j] < entries.len());
        assert(!entries[order[i]].total_cost.is_nan() && !entries[order[j]].total_cost.is_nan());
        assert(keys[order[i]].amount == entries[order[i]].total_cost.negated());
        assert(keys[order[j]].amount == entries[order[j]].total_cost.negated());
    }
}

/// With whole dollars and a whole median, a session runs away exactly if it costs more than three
/// times the median and more than one dollar.
pub proof fn lemma_whole_runaway(
    entries: Seq<SessionEntry>,
    dollars: Seq<int>,
    middle: int,
    i: int,
)
    requires
        cost_whole_dollars(entries, dollars),
        0 <= i < entries.len(),
        median(entries) == of_int(middle),
        0 <= middle < HIDDEN_BIT / 16,
        dollars[i] < HIDDEN_BIT,
    ensures
        runaways(entries).contains(entries[i]) <==> dollars[i] > 3 * middle && dollars[i] > 1,
{
    lemma_whole_limits();
    lemma_whole_product(middle, 3);
    assert(entries[i].total_cost == of_int(dollars[i]));
    lemma_integer_exact(dollars[i]);
    lemma_integer_exact(3 * middle);
    lemma_integer_exact(middle);
    lemma_integer_sum(3 * middle, dollars[i]);
    lemma_integer_sum(1, dollars[i]);
    lemma_runaways(entries);
    if runaways(entries).contains(entries[i]) {
        let k = runaways(entries).index_of(entries[i]);
        assert(runaways(entries)[k] == entries[i]);
    }
}

/// The finding gives the number of the runaways, the median, the limit, and what the runaways cost,
/// also in percent of the spend; and it lists the first three of them.
pub proof fn lemma_runaways_told(entries: Seq<SessionEntry>, total_cost: Double)
    requires
        runaway_findings(entries, total_cost).len() > 0,
    ensures
        ({
            let r = runaway_findings(entries, total_cost)[0];
            let limit = median(entries).times(num(THREE)).larger(num(ONE));
            let ran = entries.filter(|e: SessionEntry| limit.less(e.total_cost));
            let middle = number_text(median(entries), 2, false);
            &&& r.title == decimal(ran.len()) + " session(s) cost >3x the median ($"@ + middle
                + ")"@
            &&& r.evidence.len() == 3
            &&& r.evidence[0] == "Median session cost: $"@ + middle + ", threshold: $"@
                + number_text(limit, 2, false)
            &&& r.evidence[1] == "Runaway sessions total: $"@ + number_text(spend(ran), 2, false)
                + " ("@ + number_text(
                spend(ran).over(total_cost.larger(num(THOUSANDTH))).times(num(HUNDRED)),
                0,
                false,
            ) + "% of period spend)"@
            &&& ran.len() <= 3 ==> r.evidence[2] == "Top sessions: "@ + joined(
                ran.map_values(|e: SessionEntry| session_text(e)),
                " | "@,
            )
            &&& ran.len() > 3 ==> r.evidence[2] == "Top sessions: "@ + joined(
                seq![session_text(ran[0]), session_text(ran[1]), session_text(ran[2])],
                " | "@,
            )
        }),
{
    let limit = median(entries).times(num(THREE)).larger(num(ONE));
    assert(costs_more_than(threshold(entries)) =~= |e: SessionEntry| limit.less(e.total_cost));
    let ran = runaways(entries);
    if ran.len() > 3 {
        assert(first_three(ran) =~= seq![
            session_text(ran[0]),
            session_text(ran[1]),
            session_text(ran[2]),
        ]);
    } else {
        assert(ran.take(ran.len() as int) =~= ran);
    }
}

/// A session is told by its cost, the number of its messages, its first model and its category; a
/// question mark stands for what it does not have.
pub proof fn lemma_session_told(e: SessionEntry)
    ensures
        ({
            let start = "$"@ + number_text(e.total_cost, 2, false) + " / "@ + integer_text(
                e.message_count as int,
                false,
            ) + "msg / "@;
            let model = if e.models_used@.len() > 0 {
                e.models_used@[0]@
            } else {
                "?"@
            };
            &&& (e.task_category matches Some(c) ==> session_text(e) == start + model + " ("@ + c@
                + ")"@)
            &&& e.task_category is None ==> session_text(e) == start + model + " ("@ + "?"@ + ")"@
        }),
{
}

} // verus!
