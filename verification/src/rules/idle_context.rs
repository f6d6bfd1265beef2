//! Large contexts sent with every message, for little output.

use crate::double::{Double, lemma_integer_exact, of_int};
use crate::entries::{
    Measure, SessionEntry, all, checked_total, spend, total, total_fits, total_spend,
};
use crate::exact::{
    lemma_fraction_limits, lemma_over_one, lemma_quotients_compare, lemma_whole_limits,
};
use crate::numbers::{
    FIFTEEN_HUNDREDTHS, FIFTY_THOUSAND, HUNDRED, MILLION, THOUSAND, THREE_TENTHS, num,
};
use crate::recommendation::{Level, Recommendation, RecommendationView, lemma_views_push, views};
use crate::rounding::HIDDEN_BIT;
use crate::text::{integer, integer_text, number, number_text, texts};
use vstd::prelude::*;

verus! {

/// The sums of the rule stay within 64 bits.
pub open spec fn idle_context_defined(entries: Seq<SessionEntry>) -> bool {
    entries.len() >= 3 ==> {
        &&& total_fits(entries, Measure::Input)
        &&& total_fits(entries, Measure::Output)
        &&& total_fits(entries, Measure::Messages)
    }
}

/// At least three sessions, more than 50000 input tokens a message, and output below 15% of input.
pub open spec fn context_is_idle(entries: Seq<SessionEntry>) -> bool {
    let input = total(entries, Measure::Input);
    let output = total(entries, Measure::Output);
    let messages = total(entries, Measure::Messages);
    &&& entries.len() >= 3
    &&& messages != 0
    &&& input != 0
    &&& num(FIFTY_THOUSAND).less(of_int(input).over(of_int(messages)))
    &&& of_int(output).over(of_int(input)).less(num(FIFTEEN_HUNDREDTHS))
}

pub open spec fn idle_context_finding(entries: Seq<SessionEntry>) -> RecommendationView {
    let input = total(entries, Measure::Input);
    let output = total(entries, Measure::Output);
    let messages = total(entries, Measure::Messages);
    RecommendationView {
        id: "idle_context_bloat"@,
        severity: Level::Medium,
        confidence: Level::Medium,
        title: "Large context sent per message with low output ratio"@,
        evidence: seq![
            "Avg input/message: "@ + number_text(
                of_int(input).over(of_int(messages)).over(num(THOUSAND)),
                0,
                false,
            ) + "k tokens"@,
            "Output/input ratio: "@ + number_text(
                of_int(output).over(of_int(input)).times(num(HUNDRED)),
                1,
                false,
            ) + "% (healthy: >20%)"@,
            "Total messages: "@ + integer_text(messages, false) + ", total input: "@ + number_text(
                of_int(input).over(num(MILLION)),
                1,
                false,
            ) + "M tokens"@,
        ],
        action: "Reduce repeated context by using session continuation, smaller file includes, or summarized context instead of full file contents. Consider .kiroignore or context pruning strategies."@,
        estimated_savings: Some(spend(entries).times(num(THREE_TENTHS))),
    }
}

pub open spec fn idle_context_findings(entries: Seq<SessionEntry>) -> Seq<RecommendationView> {
    if context_is_idle(entries) {
        seq![idle_context_finding(entries)]
    } else {
        Seq::empty()
    }
}

/// Whether the sums of the rule stay within 64 bits.
pub fn is_idle_context_defined(entries: &[SessionEntry]) -> (r: bool)
    ensures
        r == idle_context_defined(entries@),
{
    let list = all(entries);
    entries.len() < 3 || (checked_total(&list, Measure::Input).is_some() && checked_total(
        &list,
        Measure::Output,
    ).is_some() && checked_total(&list, Measure::Messages).is_some())
}

/// Recommends smaller contexts.
pub fn rule_idle_context_bloat(entries: &[SessionEntry], recs: &mut Vec<Recommendation>)
    requires
        idle_context_defined(entries@),
    ensures
        views(final(recs)@) == views(old(recs)@) + idle_context_findings(entries@),
{
    assert(views(recs@) + Seq::<RecommendationView>::empty() =~= views(recs@));
    if entries.len() < 3 {
        return;
    }
    let list = all(entries);
    let total_input = checked_total(&list, Measure::Input).unwrap();
    let total_output = checked_total(&list, Measure::Output).unwrap();
    let total_messages = checked_total(&list, Measure::Messages).unwrap();
    if total_messages == 0 || total_input == 0 {
        return;
    }
    let input = Double::from_i64(total_input);
    let input_per_msg = input.over(Double::from_i64(total_messages));
    let output_input_ratio = Double::from_i64(total_output).over(input);
    if num(FIFTY_THOUSAND).less(input_per_msg) && output_input_ratio.less(num(FIFTEEN_HUNDREDTHS)) {
        let r = Recommendation {
            id: "idle_context_bloat".to_owned(),
            severity: Level::Medium,
            confidence: Level::Medium,
            title: "Large context sent per message with low output ratio".to_owned(),
            evidence: vec![
                "Avg input/message: ".to_owned().concat(
                    number(input_per_msg.over(num(THOUSAND)), 0, false).as_str(),
                ).concat("k tokens"),
                "Output/input ratio: ".to_owned().concat(
                    number(output_input_ratio.times(num(HUNDRED)), 1, false).as_str(),
                ).concat("% (healthy: >20%)"),
                "Total messages: ".to_owned().concat(
                    integer(total_messages, false).as_str(),
                ).concat(", total input: ").concat(
                    number(input.over(num(MILLION)), 1, false).as_str(),
                ).concat("M tokens"),
            ],
            action: "Reduce repeated context by using session continuation, smaller file includes, or summarized context instead of full file contents. Consider .kiroignore or context pruning strategies.".to_owned(),
            estimated_savings: Some(total_spend(&list).times(num(THREE_TENTHS))),
        };
        proof {
            let wanted = idle_context_finding(entries@);
            assert(texts(r.evidence@) =~= wanted.evidence);
            assert(r@ =~= wanted);
            lemma_views_push(recs@, r);
        }
        recs.push(r);
    }
}

/// There is a finding exactly if there are three sessions at least, with messages and input, more
/// than 50000 input tokens a message, and output below 15% of input. It would save 30% of the spend.
pub proof fn lemma_idle_found(entries: Seq<SessionEntry>)
    ensures
        ({
            let input = total(entries, Measure::Input);
            let output = total(entries, Measure::Output);
            let messages = total(entries, Measure::Messages);
            let found = idle_context_findings(entries);
            &&& found.len() > 0 <==> entries.len() >= 3 && messages != 0 && input != 0 && num(
                FIFTY_THOUSAND,
            ).less(of_int(input).over(of_int(messages))) && of_int(output).over(
                of_int(input),
            ).less(num(FIFTEEN_HUNDREDTHS))
            &&& found.len() <= 1
            &&& found.len() == 1 ==> found[0].severity == Level::Medium && found[0].confidence
                == Level::Medium && found[0].estimated_savings == Some(
                spend(entries).times(num(THREE_TENTHS)),
            )
        }),
{
}

/// In whole numbers: more than 50000 times as much input as messages, and output below 15 hundredths
/// of input.
pub proof fn lemma_whole_idle(entries: Seq<SessionEntry>)
    requires
        0 < total(entries, Measure::Input) < HIDDEN_BIT / 4,
        0 <= total(entries, Measure::Output) < HIDDEN_BIT / 4,
        0 < total(entries, Measure::Messages) < HIDDEN_BIT / 4,
    ensures
        idle_context_findings(entries).len() > 0 <==> {
            let input = total(entries, Measure::Input);
            &&& entries.len() >= 3
            &&& input > 50_000 * total(entries, Measure::Messages)
            &&& 100 * total(entries, Measure::Output) < 15 * input
        },
{
    let input = total(entries, Measure::Input);
    lemma_whole_limits();
    lemma_fraction_limits();
    lemma_integer_exact(50_000);
    lemma_over_one(of_int(50_000));
    lemma_quotients_compare(50_000, 1, input, total(entries, Measure::Messages));
    lemma_quotients_compare(total(entries, Measure::Output), input, 3, 20);
}

/// The finding gives the input of a message in thousands of tokens, the output in percent of the
/// input, the number of messages, and the input in millions of tokens.
pub proof fn lemma_idle_told(entries: Seq<SessionEntry>)
    requires
        idle_context_findings(entries).len() > 0,
    ensures
        ({
            let told = idle_context_findings(entries)[0].evidence;
            let input = of_int(total(entries, Measure::Input));
            let output = of_int(total(entries, Measure::Output));
            let messages = total(entries, Measure::Messages);
            &&& told.len() == 3
            &&& told[0] == "Avg input/message: "@ + number_text(
                input.over(of_int(messages)).over(num(THOUSAND)),
                0,
                false,
            ) + "k tokens"@
            &&& told[1] == "Output/input ratio: "@ + number_text(
                output.over(input).times(num(HUNDRED)),
                1,
                false,
            ) + "% (healthy: >20%)"@
            &&& told[2] == "Total messages: "@ + integer_text(messages, false) + ", total input: "@
                + number_text(input.over(num(MILLION)), 1, false) + "M tokens"@
        }),
{
}

} // verus!
