//! A period that cost far more than the one before.

use crate::double::{lemma_integer_sum, of_int};
use crate::exact::{
    lemma_fraction_limits, lemma_quotients_compare, lemma_whole_difference, lemma_whole_limits,
    lemma_whole_product, lemma_whole_quotient,
};
use crate::numbers::{FIVE, HALF, HUNDRED, ZERO, num};
use crate::recommendation::{Level, Recommendation, RecommendationView, lemma_views_push, views};
use crate::rounding::HIDDEN_BIT;
use crate::summary::{PeriodSummary, PeriodSummaryView};
use crate::text::{
    count, decimal, integer, integer_text, lemma_whole_number_text, number, number_text, texts,
};
use vstd::prelude::*;

verus! {

/// Spend rose by more than $5 and by more than half.
pub open spec fn spend_spiked(current: PeriodSummaryView, previous: PeriodSummaryView) -> bool {
    let increase = current.total_cost.minus(previous.total_cost);
    &&& num(ZERO).less(previous.total_cost)
    &&& num(FIVE).less(increase)
    &&& num(HALF).less(increase.over(previous.total_cost))
}

pub open spec fn spend_spike_finding(
    current: PeriodSummaryView,
    previous: PeriodSummaryView,
) -> RecommendationView {
    let increase = current.total_cost.minus(previous.total_cost);
    RecommendationView {
        id: "spend_spike"@,
        severity: Level::High,
        confidence: Level::High,
        title: "Significant spend increase vs previous period"@,
        evidence: seq![
            "Current: $"@ + number_text(current.total_cost, 2, false) + " vs Previous: $"@
                + number_text(previous.total_cost, 2, false) + " ("@ + number_text(
                increase.over(previous.total_cost).times(num(HUNDRED)),
                0,
                true,
            ) + "%)"@,
            "Absolute increase: $"@ + number_text(increase, 2, false),
            "Sessions: "@ + decimal(current.sessions) + " vs "@ + decimal(previous.sessions)
                + " ("@ + integer_text(current.sessions - previous.sessions, true) + ")"@,
        ],
        action: "Review the 'What Changed' section below to identify the main cost driver. Consider whether the increase reflects productive work or inefficiency."@,
        estimated_savings: None,
    }
}

/// A finding if there is a previous period and spend spiked.
pub open spec fn spend_spike_findings(
    current: PeriodSummaryView,
    previous: Option<PeriodSummaryView>,
) -> Seq<RecommendationView> {
    match previous {
        Some(p) => if spend_spiked(current, p) {
            seq![spend_spike_finding(current, p)]
        } else {
            Seq::empty()
        },
        None => Seq::empty(),
    }
}

/// The figures of a period that may be missing.
pub open spec fn optional_view(summary: Option<PeriodSummary>) -> Option<PeriodSummaryView> {
    match summary {
        Some(s) => Some(s@),
        None => None,
    }
}

/// Points out a sudden rise in spend.
pub fn rule_spend_spike(
    current: &PeriodSummary,
    previous: &Option<PeriodSummary>,
    recs: &mut Vec<Recommendation>,
)
    requires
        current.sessions <= i64::MAX,
        previous matches Some(p) ==> p.sessions <= i64::MAX,
    ensures
        views(final(recs)@) == views(old(recs)@) + spend_spike_findings(
            current@,
            optional_view(*previous),
        ),
{
    assert(views(recs@) + Seq::<RecommendationView>::empty() =~= views(recs@));
    match previous {
        Some(prev) => {
            if !num(ZERO).less(prev.total_cost) {
                return;
            }
            let increase = current.total_cost.minus(prev.total_cost);
            let increase_pct = increase.over(prev.total_cost);
            if num(FIVE).less(increase) && num(HALF).less(increase_pct) {
                let change = current.sessions as i64 - prev.sessions as i64;
                let r = Recommendation {
                    id: "spend_spike".to_owned(),
                    severity: Level::High,
                    confidence: Level::High,
                    title: "Significant spend increase vs previous period".to_owned(),
                    evidence: vec![
                        "Current: $".to_owned().concat(
                            number(current.total_cost, 2, false).as_str(),
                        ).concat(" vs Previous: $").concat(
                            number(prev.total_cost, 2, false).as_str(),
                        ).concat(" (").concat(
                            number(increase_pct.times(num(HUNDRED)), 0, true).as_str(),
                        ).concat("%)"),
                        "Absolute increase: $".to_owned().concat(
                            number(increase, 2, false).as_str(),
                        ),
                        "Sessions: ".to_owned().concat(count(current.sessions).as_str()).concat(
                            " vs ",
                        ).concat(count(prev.sessions).as_str()).concat(" (").concat(
                            integer(change, true).as_str(),
                        ).concat(")"),
                    ],
                    action: "Review the 'What Changed' section below to identify the main cost driver. Consider whether the increase reflects productive work or inefficiency.".to_owned(),
                    estimated_savings: None,
                };
                proof {
                    let wanted = spend_spike_finding(current@, prev@);
                    assert(texts(r.evidence@) =~= wanted.evidence);
                    assert(r@ =~= wanted);
                    lemma_views_push(recs@, r);
                }
                recs.push(r);
            }
        },
        None => {},
    }
}

/// Against a previous period with a positive spend there is a finding exactly if spend rose by more
/// than $5 and by more than half; otherwise there is none. It is a severe one, without an estimate.
pub proof fn lemma_spike_found(current: PeriodSummaryView, previous: Option<PeriodSummaryView>)
    ensures
        ({
            let found = spend_spike_findings(current, previous);
            &&& found.len() > 0 <==> (previous matches Some(p) && {
                let rise = current.total_cost.minus(p.total_cost);
                &&& num(ZERO).less(p.total_cost)
                &&& num(FIVE).less(rise)
                &&& num(HALF).less(rise.over(p.total_cost))
            })
            &&& found.len() <= 1
            &&& found.len() == 1 ==> found[0].severity == Level::High && found[0].confidence
                == Level::High && found[0].estimated_savings is None
        }),
{
}

/// With whole dollars: a rise from `before` to `now` is found exactly if it is more than 5 and more
/// than half of `before`.
pub proof fn lemma_whole_spike(
    current: PeriodSummaryView,
    previous: PeriodSummaryView,
    now: int,
    before: int,
)
    requires
        current.total_cost == of_int(now),
        previous.total_cost == of_int(before),
        0 <= now < HIDDEN_BIT / 2,
        0 <= before < HIDDEN_BIT / 2,
    ensures
        spend_spike_findings(current, Some(previous)).len() > 0 <==> before > 0 && now - before > 5
            && 2 * (now - before) > before,
{
    lemma_whole_limits();
    lemma_fraction_limits();
    lemma_whole_difference(now, before);
    lemma_integer_sum(0, before);
    lemma_integer_sum(5, now - before);
    if before > 0 && now - before > 5 {
        lemma_quotients_compare(1, 2, now - before, before);
    }
}

/// The finding gives the spend of both periods, the rise in dollars and in percent of the previous
/// spend, and how the number of sessions changed.
pub proof fn lemma_spike_told(current: PeriodSummaryView, previous: PeriodSummaryView)
    requires
        spend_spike_findings(current, Some(previous)).len() > 0,
    ensures
        ({
            let told = spend_spike_findings(current, Some(previous))[0].evidence;
            let (now, then) = (current.total_cost, previous.total_cost);
            &&& told.len() == 3
            &&& told[0] == "Current: $"@ + number_text(now, 2, false) + " vs Previous: $"@
                + number_text(then, 2, false) + " ("@ + number_text(
                now.minus(then).over(then).times(num(HUNDRED)),
                0,
                true,
            ) + "%)"@
            &&& told[1] == "Absolute increase: $"@ + number_text(now.minus(then), 2, false)
            &&& told[2] == "Sessions: "@ + decimal(current.sessions) + " vs "@ + decimal(
                previous.sessions,
            ) + " ("@ + integer_text(current.sessions - previous.sessions, true) + ")"@
        }),
{
}

/// Where the spend has grown by a whole multiple of the previous spend, the finding says so in
/// percent.
pub proof fn lemma_whole_spike_told(
    current: PeriodSummaryView,
    previous: PeriodSummaryView,
    before: int,
    times: int,
)
    requires
        5 < before < 0x100_0000,
        1 <= times < 0x100_0000,
        previous.total_cost == of_int(before),
        current.total_cost == of_int(before + times * before),
    ensures
        spend_spike_findings(current, Some(previous)).len() == 1,
        spend_spike_findings(current, Some(previous))[0].evidence[0] == "Current: $"@
            + integer_text(before + times * before, false) + ".00"@ + " vs Previous: $"@
            + integer_text(before, false) + ".00"@ + " ("@ + integer_text(100 * times, true)
            + "%)"@,
        spend_spike_findings(current, Some(previous))[0].evidence[1] == "Absolute increase: $"@
            + integer_text(times * before, false) + ".00"@,
{
    let more = times * before;
    assert(before <= more <= 0x100_0000 * 0x100_0000) by (nonlinear_arith)
        requires
            5 < before < 0x100_0000,
            1 <= times < 0x100_0000,
            more == times * before,
    ;
    lemma_whole_limits();
    lemma_whole_spike(current, previous, before + more, before);
    lemma_spike_told(current, previous);
    lemma_whole_difference(before + more, before);
    lemma_whole_quotient(times, before);
    lemma_whole_product(times, 100);
    lemma_whole_number_text(before, false);
    lemma_whole_number_text(before + more, false);
    lemma_whole_number_text(more, false);
    lemma_whole_number_text(100 * times, true);
    let (a, b) = (integer_text(before + more, false), integer_text(before, false));
    assert("Current: $"@ + (a + ".00"@) =~= "Current: $"@ + a + ".00"@);
    assert("Current: $"@ + a + ".00"@ + " vs Previous: $"@ + (b + ".00"@) =~= "Current: $"@ + a
        + ".00"@ + " vs Previous: $"@ + b + ".00"@);
    let c = integer_text(more, false);
    assert("Absolute increase: $"@ + (c + ".00"@) =~= "Absolute increase: $"@ + c + ".00"@);
}

} // verus!
