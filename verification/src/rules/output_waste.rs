//! Large outputs from sessions of few messages.

use crate::double::{Double, lemma_integer_exact, of_int};
use crate::entries::{
    Measure, SessionEntry, all, checked_total, lemma_picked_filter, pick, spend, total, total_fits,
    total_spend,
};
use crate::exact::{
    lemma_fraction_limits, lemma_over_one, lemma_quotients_compare, lemma_whole_limits,
};
use crate::numbers::{EIGHT_THOUSAND, FIFTH, HUNDRED, QUARTER, THOUSAND, THREE, num};
use crate::recommendation::{Level, Recommendation, RecommendationView, lemma_views_push, views};
use crate::rounding::HIDDEN_BIT;
use crate::text::{count, decimal, number, number_text, texts};
use vstd::prelude::*;

verus! {

/// Output is high relative to input above this ratio, 0.2, where the output of a healthy
/// conversation begins.
pub const HIGH_OUTPUT_RATIO: u64 = FIFTH;

/// The sums of the rule stay within 64 bits.
pub open spec fn output_waste_defined(entries: Seq<SessionEntry>) -> bool {
    entries.len() >= 5 ==> {
        &&& total_fits(entries, Measure::Input)
        &&& total_fits(entries, Measure::Output)
        &&& total_fits(entries, Measure::Messages)
    }
}

/// At most three messages, but more than 10000 output tokens.
pub open spec fn is_single_shot() -> spec_fn(SessionEntry) -> bool {
    |e: SessionEntry| e.message_count <= 3 && e.total_output_tokens > 10_000
}

pub open spec fn single_shots(entries: Seq<SessionEntry>) -> Seq<SessionEntry> {
    entries.filter(is_single_shot())
}

pub open spec fn output_per_message(entries: Seq<SessionEntry>) -> Double {
    of_int(total(entries, Measure::Output)).over(of_int(total(entries, Measure::Messages)))
}

/// Output tokens per input token.
pub open spec fn output_ratio(entries: Seq<SessionEntry>) -> Double {
    of_int(total(entries, Measure::Output)).over(of_int(total(entries, Measure::Input)))
}

pub open spec fn single_shot_ratio(entries: Seq<SessionEntry>) -> Double {
    of_int(single_shots(entries).len() as int).over(of_int(entries.len() as int))
}

/// At least five sessions and $3, high output relative to input, more than 8000 output tokens a
/// message, and more than a fifth of the sessions single shots.
pub open spec fn output_is_wasted(entries: Seq<SessionEntry>) -> bool {
    &&& entries.len() >= 5
    &&& total(entries, Measure::Messages) != 0
    &&& !spend(entries).less(num(THREE))
    &&& num(HIGH_OUTPUT_RATIO).less(output_ratio(entries))
    &&& num(EIGHT_THOUSAND).less(output_per_message(entries))
    &&& num(FIFTH).less(single_shot_ratio(entries))
}

pub open spec fn output_waste_finding(entries: Seq<SessionEntry>) -> RecommendationView {
    let shots = single_shots(entries);
    let thousands = number_text(output_per_message(entries).over(num(THOUSAND)), 0, false);
    RecommendationView {
        id: "output_waste"@,
        severity: Level::Low,
        confidence: Level::Low,
        title: "High output generation ("@ + thousands + "k tokens/msg avg)"@,
        evidence: seq![
            "Avg output per message: "@ + thousands + "k tokens"@,
            decimal(shots.len()) + " sessions ("@ + number_text(
                single_shot_ratio(entries).times(num(HUNDRED)),
                0,
                false,
            ) + "%) have ≤3 messages but >10k output tokens"@,
            "Cost of low-interaction high-output sessions: $"@ + number_text(
                spend(shots),
                2,
                false,
            ),
        ],
        action: "Large single-shot generations often produce code that needs heavy editing. Consider iterative prompting (plan → implement → refine) to reduce wasted output. Use max_tokens limits if your client supports them."@,
        estimated_savings: Some(spend(shots).times(num(QUARTER))),
    }
}

pub open spec fn output_waste_findings(entries: Seq<SessionEntry>) -> Seq<RecommendationView> {
    if output_is_wasted(entries) {
        seq![output_waste_finding(entries)]
    } else {
        Seq::empty()
    }
}

/// Whether the sums of the rule stay within 64 bits.
pub fn is_output_waste_defined(entries: &[SessionEntry]) -> (r: bool)
    ensures
        r == output_waste_defined(entries@),
{
    let list = all(entries);
    entries.len() < 5 || (checked_total(&list, Measure::Input).is_some() && checked_total(
        &list,
        Measure::Output,
    ).is_some() && checked_total(&list, Measure::Messages).is_some())
}

fn single_shot_list<'a>(entries: &'a [SessionEntry]) -> (list: Vec<&'a SessionEntry>)
    ensures
        list@.unref() == single_shots(entries@),
        list@.len() == single_shots(entries@).len(),
{
    let mut flags: Vec<bool> = Vec::new();
    let mut i: usize = 0;
    while i < entries.len()
        invariant
            i <= entries@.len(),
            flags@.len() == i,
            forall|j: int| 0 <= j < i ==> flags@[j] == is_single_shot()(#[trigger] entries@[j]),
        decreases entries@.len() - i,
    {
        flags.push(entries[i].message_count <= 3 && entries[i].total_output_tokens > 10_000);
        i = i + 1;
    }
    proof {
        lemma_picked_filter(entries@, flags@, is_single_shot());
    }
    let list = pick(entries, &flags);
    assert(list@.unref().len() == list@.len());
    list
}

/// Recommends smaller steps.
pub fn rule_output_waste(entries: &[SessionEntry], recs: &mut Vec<Recommendation>)
    requires
        output_waste_defined(entries@),
    ensures
        views(final(recs)@) == views(old(recs)@) + output_waste_findings(entries@),
{
    assert(views(recs@) + Seq::<RecommendationView>::empty() =~= views(recs@));
    if entries.len() < 5 {
        return;
    }
    let list = all(entries);
    let total_input = checked_total(&list, Measure::Input).unwrap();
    let total_output = checked_total(&list, Measure::Output).unwrap();
    let total_messages = checked_total(&list, Measure::Messages).unwrap();
    let total_cost = total_spend(&list);
    if total_messages == 0 || total_cost.less(num(THREE)) {
        return;
    }
    let per_input = Double::from_i64(total_output).over(Double::from_i64(total_input));
    let per_message = Double::from_i64(total_output).over(Double::from_i64(total_messages));
    if num(HIGH_OUTPUT_RATIO).less(per_input) && num(EIGHT_THOUSAND).less(per_message) {
        let shots = single_shot_list(entries);
        let ratio = Double::from_usize(shots.len()).over(Double::from_usize(entries.len()));
        if num(FIFTH).less(ratio) {
            let waste_cost = total_spend(&shots);
            let thousands = number(per_message.over(num(THOUSAND)), 0, false);
            let r = Recommendation {
                id: "output_waste".to_owned(),
                severity: Level::Low,
                confidence: Level::Low,
                title: "High output generation (".to_owned().concat(thousands.as_str()).concat(
                    "k tokens/msg avg)",
                ),
                evidence: vec![
                    "Avg output per message: ".to_owned().concat(thousands.as_str()).concat(
                        "k tokens",
                    ),
                    count(shots.len()).concat(" sessions (").concat(
                        number(ratio.times(num(HUNDRED)), 0, false).as_str(),
                    ).concat("%) have ≤3 messages but >10k output tokens"),
                    "Cost of low-interaction high-output sessions: $".to_owned().concat(
                        number(waste_cost, 2, false).as_str(),
                    ),
                ],
                action: "Large single-shot generations often produce code that needs heavy editing. Consider iterative prompting (plan → implement → refine) to reduce wasted output. Use max_tokens limits if your client supports them.".to_owned(),
                estimated_savings: Some(waste_cost.times(num(QUARTER))),
            };
            proof {
                let wanted = output_waste_finding(entries@);
                assert(texts(r.evidence@) =~= wanted.evidence);
                assert(r@ =~= wanted);
                lemma_views_push(recs@, r);
            }
            recs.push(r);
        }
    }
}

/// There is a finding exactly if there are five sessions at least, with messages and $3 at least,
/// output above a fifth of input, more than 8000 output tokens a message, and more than a fifth of
/// the sessions with three messages at most but more than 10000 output tokens. It would save a
/// quarter of what these cost.
pub proof fn lemma_waste_found(entries: Seq<SessionEntry>)
    ensures
        ({
            let input = total(entries, Measure::Input);
            let output = total(entries, Measure::Output);
            let messages = total(entries, Measure::Messages);
            let shots = entries.filter(
                |e: SessionEntry| e.message_count <= 3 && e.total_output_tokens > 10_000,
            );
            let found = output_waste_findings(entries);
            &&& found.len() > 0 <==> entries.len() >= 5 && messages != 0 && !spend(entries).less(
                num(THREE),
            ) && num(FIFTH).less(of_int(output).over(of_int(input))) && num(EIGHT_THOUSAND).less(
                of_int(output).over(of_int(messages)),
            ) && num(FIFTH).less(of_int(shots.len() as int).over(of_int(entries.len() as int)))
            &&& found.len() <= 1
            &&& found.len() == 1 ==> found[0].severity == Level::Low && found[0].confidence
                == Level::Low && found[0].estimated_savings == Some(
                spend(shots).times(num(QUARTER)),
            )
        }),
{
    assert(is_single_shot() =~= |e: SessionEntry|
        e.message_count <= 3 && e.total_output_tokens > 10_000);
}

/// In whole numbers: with $3 at least, five times the output is more than the input, the output is
/// more than 8000 times the messages, and five times the single shots are more than the sessions.
pub proof fn lemma_whole_waste(entries: Seq<SessionEntry>)
    requires
        entries.len() < HIDDEN_BIT / 16,
        0 < total(entries, Measure::Input) < HIDDEN_BIT / 16,
        0 <= total(entries, Measure::Output) < HIDDEN_BIT / 16,
        0 < total(entries, Measure::Messages) < HIDDEN_BIT / 16,
        !spend(entries).less(num(THREE)),
    ensures
        output_waste_findings(entries).len() > 0 <==> {
            let output = total(entries, Measure::Output);
            &&& entries.len() >= 5
            &&& 5 * output > total(entries, Measure::Input)
            &&& output > 8_000 * total(entries, Measure::Messages)
            &&& 5 * entries.filter(
                |e: SessionEntry| e.message_count <= 3 && e.total_output_tokens > 10_000,
            ).len() > entries.len()
        },
{
    let test = |e: SessionEntry| e.message_count <= 3 && e.total_output_tokens > 10_000;
    let output = total(entries, Measure::Output);
    assert(is_single_shot() =~= test);
    entries.lemma_filter_len(test);
    lemma_whole_limits();
    lemma_fraction_limits();
    lemma_integer_exact(8_000);
    lemma_over_one(of_int(8_000));
    lemma_quotients_compare(1, 5, output, total(entries, Measure::Input));
    lemma_quotients_compare(8_000, 1, output, total(entries, Measure::Messages));
    if entries.len() > 0 {
        lemma_quotients_compare(1, 5, entries.filter(test).len() as int, entries.len() as int);
    }
}

/// The finding gives the output of a message in thousands of tokens, how many sessions are single
/// shots, also in percent of all sessions, and what they cost.
pub proof fn lemma_waste_told(entries: Seq<SessionEntry>)
    requires
        output_waste_findings(entries).len() > 0,
    ensures
        ({
            let r = output_waste_findings(entries)[0];
            let shots = entries.filter(
                |e: SessionEntry| e.message_count <= 3 && e.total_output_tokens > 10_000,
            );
            let output = of_int(total(entries, Measure::Output));
            let thousands = number_text(
                output.over(of_int(total(entries, Measure::Messages))).over(num(THOUSAND)),
                0,
                false,
            );
            &&& r.title == "High output generation ("@ + thousands + "k tokens/msg avg)"@
            &&& r.evidence.len() == 3
            &&& r.evidence[0] == "Avg output per message: "@ + thousands + "k tokens"@
            &&& r.evidence[1] == decimal(shots.len()) + " sessions ("@ + number_text(
                of_int(shots.len() as int).over(of_int(entries.len() as int)).times(num(HUNDRED)),
                0,
                false,
            ) + "%) have ≤3 messages but >10k output tokens"@
            &&& r.evidence[2] == "Cost of low-interaction high-output sessions: $"@ + number_text(
                spend(shots),
                2,
                false,
            )
        }),
{
    assert(is_single_shot() =~= |e: SessionEntry|
        e.message_count <= 3 && e.total_output_tokens > 10_000);
}

} // verus!
