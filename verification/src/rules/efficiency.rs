//! Messages that take more input tokens than they did in the previous period.

use crate::double::{
    Double, lemma_integer_exact, lemma_integer_sum, lemma_of_int_positive, lemma_quotient_sign,
    of_int,
};
use crate::entries::{
    Measure, SessionEntry, all, checked_total, optional_entries, spend, total, total_fits,
    total_spend,
};
use crate::exact::{
    lemma_fraction_limits, lemma_over_one, lemma_quotients_compare, lemma_whole_difference,
    lemma_whole_limits,
};
use crate::numbers::{HALF, HUNDRED, ONE, THOUSAND, THREE_TENTHS, TWENTY_THOUSAND, ZERO, num};
use crate::recommendation::{Level, Recommendation, RecommendationView, lemma_views_push, views};
use crate::rounding::HIDDEN_BIT;
use crate::text::{number, number_text, texts};
use vstd::prelude::*;

verus! {

/// Both periods have at least five sessions.
pub open spec fn both_periods_busy(
    current: Seq<SessionEntry>,
    previous: Option<Seq<SessionEntry>>,
) -> bool {
    previous matches Some(p) && p.len() >= 5 && current.len() >= 5
}

/// The sums of the rule stay within 64 bits.
pub open spec fn efficiency_defined(
    current: Seq<SessionEntry>,
    previous: Option<Seq<SessionEntry>>,
) -> bool {
    both_periods_busy(current, previous) ==> {
        &&& total_fits(current, Measure::Input)
        &&& total_fits(current, Measure::Messages)
        &&& total_fits(previous->0, Measure::Input)
        &&& total_fits(previous->0, Measure::Messages)
    }
}

pub open spec fn input_per_message(entries: Seq<SessionEntry>) -> Double {
    of_int(total(entries, Measure::Input)).over(of_int(total(entries, Measure::Messages)))
}

/// How much more input a message takes, relative to the previous period.
pub open spec fn input_increase(
    current: Seq<SessionEntry>,
    previous: Seq<SessionEntry>,
) -> Double {
    input_per_message(current).minus(input_per_message(previous)).over(input_per_message(previous))
}

/// More than 30% more input tokens a message, and more than 20000.
pub open spec fn efficiency_declined(
    current: Seq<SessionEntry>,
    previous: Seq<SessionEntry>,
) -> bool {
    &&& total(current, Measure::Messages) != 0
    &&& total(previous, Measure::Messages) != 0
    &&& !input_per_message(previous).at_most(num(ZERO))
    &&& num(THREE_TENTHS).less(input_increase(current, previous))
    &&& num(TWENTY_THOUSAND).less(input_per_message(current))
}

pub open spec fn efficiency_finding(
    current: Seq<SessionEntry>,
    previous: Seq<SessionEntry>,
) -> RecommendationView {
    let now = input_per_message(current);
    let then = input_per_message(previous);
    let increase = input_increase(current, previous).times(num(HUNDRED));
    RecommendationView {
        id: "token_efficiency_decline"@,
        severity: Level::Medium,
        confidence: Level::Medium,
        title: "Input tokens/message up "@ + number_text(increase, 0, false)
            + "% vs previous period"@,
        evidence: seq![
            "Current: "@ + number_text(now.over(num(THOUSAND)), 0, false)
                + "k tokens/msg, Previous: "@ + number_text(then.over(num(THOUSAND)), 0, false)
                + "k tokens/msg"@,
            "Increase: "@ + number_text(increase, 0, true) + "% ("@ + number_text(
                now.minus(then).over(num(THOUSAND)),
                0,
                true,
            ) + "k tokens/msg)"@,
            "This often indicates growing system prompts, larger file includes, or context accumulation"@,
        ],
        action: "Review what changed in your prompts or workflow. Common causes: new tools/plugins adding context, larger codebases being included, or session history growing without pruning. Consider .kiroignore rules or explicit context selection."@,
        estimated_savings: Some(
            spend(current).times(num(ONE).minus(then.over(now))).times(num(HALF)),
        ),
    }
}

pub open spec fn efficiency_findings(
    current: Seq<SessionEntry>,
    previous: Option<Seq<SessionEntry>>,
) -> Seq<RecommendationView> {
    if both_periods_busy(current, previous) && efficiency_declined(current, previous->0) {
        seq![efficiency_finding(current, previous->0)]
    } else {
        Seq::empty()
    }
}

/// Whether the sums of the rule stay within 64 bits.
pub fn is_efficiency_defined(
    current_entries: &[SessionEntry],
    previous_entries: Option<&[SessionEntry]>,
) -> (r: bool)
    ensures
        r == efficiency_defined(current_entries@, optional_entries(previous_entries)),
{
    match previous_entries {
        Some(previous) => {
            if previous.len() < 5 || current_entries.len() < 5 {
                return true;
            }
            let now = all(current_entries);
            let then = all(previous);
            checked_total(&now, Measure::Input).is_some() && checked_total(
                &now,
                Measure::Messages,
            ).is_some() && checked_total(&then, Measure::Input).is_some() && checked_total(
                &then,
                Measure::Messages,
            ).is_some()
        },
        None => true,
    }
}

/// Points out prompts that grow.
pub fn rule_token_efficiency_decline(
    current_entries: &[SessionEntry],
    previous_entries: Option<&[SessionEntry]>,
    recs: &mut Vec<Recommendation>,
)
    requires
        efficiency_defined(current_entries@, optional_entries(previous_entries)),
    ensures
        views(final(recs)@) == views(old(recs)@) + efficiency_findings(
            current_entries@,
            optional_entries(previous_entries),
        ),
{
    assert(views(recs@) + Seq::<RecommendationView>::empty() =~= views(recs@));
    let previous = match previous_entries {
        Some(p) => p,
        None => {
            return;
        },
    };
    if previous.len() < 5 || current_entries.len() < 5 {
        return;
    }
    let now = all(current_entries);
    let then = all(previous);
    let cur_input = checked_total(&now, Measure::Input).unwrap();
    let cur_msgs = checked_total(&now, Measure::Messages).unwrap();
    let prev_input = checked_total(&then, Measure::Input).unwrap();
    let prev_msgs = checked_total(&then, Measure::Messages).unwrap();
    if cur_msgs == 0 || prev_msgs == 0 {
        return;
    }
    let cur_ratio = Double::from_i64(cur_input).over(Double::from_i64(cur_msgs));
    let prev_ratio = Double::from_i64(prev_input).over(Double::from_i64(prev_msgs));
    if prev_ratio.at_most(num(ZERO)) {
        return;
    }
    let growth = cur_ratio.minus(prev_ratio);
    let increase = growth.over(prev_ratio);
    if num(THREE_TENTHS).less(increase) && num(TWENTY_THOUSAND).less(cur_ratio) {
        let excess = num(ONE).minus(prev_ratio.over(cur_ratio));
        let percent = increase.times(num(HUNDRED));
        let r = Recommendation {
            id: "token_efficiency_decline".to_owned(),
            severity: Level::Medium,
            confidence: Level::Medium,
            title: "Input tokens/message up ".to_owned().concat(
                number(percent, 0, false).as_str(),
            ).concat("% vs previous period"),
            evidence: vec![
                "Current: ".to_owned().concat(
                    number(cur_ratio.over(num(THOUSAND)), 0, false).as_str(),
                ).concat("k tokens/msg, Previous: ").concat(
                    number(prev_ratio.over(num(THOUSAND)), 0, false).as_str(),
                ).concat("k tokens/msg"),
                "Increase: ".to_owned().concat(number(percent, 0, true).as_str()).concat(
                    "% (",
                ).concat(number(growth.over(num(THOUSAND)), 0, true).as_str()).concat(
                    "k tokens/msg)",
                ),
                "This often indicates growing system prompts, larger file includes, or context accumulation".to_owned(),
            ],
            action: "Review what changed in your prompts or workflow. Common causes: new tools/plugins adding context, larger codebases being included, or session history growing without pruning. Consider .kiroignore rules or explicit context selection.".to_owned(),
            estimated_savings: Some(total_spend(&now).times(excess).times(num(HALF))),
        };
        proof {
            let wanted = efficiency_finding(current_entries@, previous@);
            assert(texts(r.evidence@) =~= wanted.evidence);
            assert(r@ =~= wanted);
            lemma_views_push(recs@, r);
        }
        recs.push(r);
    }
}

/// There is a finding exactly if both periods have five sessions at least and messages, input per
/// message was positive and rose by more than 30%, to more than 20000 tokens. It would save half of
/// the part of the spend by which input per message exceeds what it was.
pub proof fn lemma_decline_found(
    current: Seq<SessionEntry>,
    previous: Option<Seq<SessionEntry>>,
)
    ensures
        ({
            let found = efficiency_findings(current, previous);
            let now = of_int(total(current, Measure::Input)).over(
                of_int(total(current, Measure::Messages)),
            );
            &&& found.len() > 0 <==> (previous matches Some(p) && {
                let then = of_int(total(p, Measure::Input)).over(
                    of_int(total(p, Measure::Messages)),
                );
                &&& p.len() >= 5
                &&& current.len() >= 5
                &&& total(current, Measure::Messages) != 0
                &&& total(p, Measure::Messages) != 0
                &&& !then.at_most(num(ZERO))
                &&& num(THREE_TENTHS).less(now.minus(then).over(then))
                &&& num(TWENTY_THOUSAND).less(now)
            })
            &&& found.len() <= 1
            &&& found.len() == 1 ==> (previous matches Some(p) && {
                let then = of_int(total(p, Measure::Input)).over(
                    of_int(total(p, Measure::Messages)),
                );
                &&& found[0].severity == Level::Medium
                &&& found[0].confidence == Level::Medium
                &&& found[0].estimated_savings == Some(
                    spend(current).times(num(ONE).minus(then.over(now))).times(num(HALF)),
                )
            })
        }),
{
}

/// With whole averages: input per message rose from `then` to `now` by more than three tenths of
/// `then`, to more than 20000.
pub proof fn lemma_whole_decline(
    current: Seq<SessionEntry>,
    previous: Seq<SessionEntry>,
    now: int,
    then: int,
)
    requires
        current.len() >= 5,
        previous.len() >= 5,
        total(current, Measure::Messages) != 0,
        total(previous, Measure::Messages) != 0,
        of_int(total(current, Measure::Input)).over(of_int(total(current, Measure::Messages)))
            == of_int(now),
        of_int(total(previous, Measure::Input)).over(of_int(total(previous, Measure::Messages)))
            == of_int(then),
        0 <= now < HIDDEN_BIT / 16,
        0 < then < HIDDEN_BIT / 16,
    ensures
        efficiency_findings(current, Some(previous)).len() > 0 <==> 10 * (now - then) > 3 * then
            && now > 20_000,
{
    lemma_whole_limits();
    lemma_fraction_limits();
    lemma_whole_difference(now, then);
    lemma_integer_sum(0, then);
    lemma_integer_sum(20_000, now);
    lemma_integer_exact(then);
    lemma_integer_exact(0);
    if now >= then {
        lemma_quotients_compare(3, 10, now - then, then);
    } else {
        lemma_integer_exact(now - then);
        lemma_of_int_positive(then);
        lemma_quotient_sign(of_int(now - then), of_int(then));
        lemma_integer_sum(now - then, 0);
        lemma_quotients_compare(0, 1, 3, 10);
        lemma_integer_exact(1);
        lemma_over_one(of_int(0));
    }
}

/// The finding gives the input of a message in both periods in thousands of tokens, and the rise,
/// also in percent of what it was.
pub proof fn lemma_decline_told(current: Seq<SessionEntry>, previous: Seq<SessionEntry>)
    requires
        efficiency_findings(current, Some(previous)).len() > 0,
    ensures
        ({
            let r = efficiency_findings(current, Some(previous))[0];
            let now = of_int(total(current, Measure::Input)).over(
                of_int(total(current, Measure::Messages)),
            );
            let then = of_int(total(previous, Measure::Input)).over(
                of_int(total(previous, Measure::Messages)),
            );
            let percent = now.minus(then).over(then).times(num(HUNDRED));
            &&& r.title == "Input tokens/message up "@ + number_text(percent, 0, false)
                + "% vs previous period"@
            &&& r.evidence[0] == "Current: "@ + number_text(now.over(num(THOUSAND)), 0, false)
                + "k tokens/msg, Previous: "@ + number_text(then.over(num(THOUSAND)), 0, false)
                + "k tokens/msg"@
            &&& r.evidence[1] == "Increase: "@ + number_text(percent, 0, true) + "% ("@
                + number_text(now.minus(then).over(num(THOUSAND)), 0, true) + "k tokens/msg)"@
        }),
{
}

} // verus!
