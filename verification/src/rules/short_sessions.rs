//! Many sessions that end within minutes.

use crate::double::{
    Double, SIGN_BIT, lemma_integer_exact, lemma_integer_sum, lemma_no_units, of_int,
};
use crate::entries::{
    Measure, SessionEntry, all, lemma_picked_filter, pick, spend, total, total_spend,
};
use crate::exact::{
    lemma_fraction_limits, lemma_quotients_compare, lemma_same_sum, same_number,
};
use crate::numbers::{HUNDRED, THOUSANDTH, THREE_TENTHS, num};
use crate::recommendation::{Level, Recommendation, RecommendationView, lemma_views_push, views};
use crate::rounding::{HIDDEN_BIT, ONE_EXPONENT, SIGNIFICAND_LIMIT};
use crate::summary::{fraction, fraction_of};
use crate::text::{count, decimal, number, number_text, texts};
use vstd::arithmetic::power2::pow2;
use vstd::prelude::*;

verus! {

/// Under five minutes.
pub open spec fn is_short() -> spec_fn(SessionEntry) -> bool {
    |e: SessionEntry| e.duration_minutes < 5
}

pub open spec fn short_sessions(entries: Seq<SessionEntry>) -> Seq<SessionEntry> {
    entries.filter(is_short())
}

/// The message counts of sessions as numbers, added in order.
pub open spec fn message_sum(entries: Seq<SessionEntry>) -> Double
    decreases entries.len(),
{
    if entries.len() == 0 {
        Double { bits: SIGN_BIT }
    } else {
        message_sum(entries.drop_last()).plus(of_int(entries.last().message_count as int))
    }
}

pub open spec fn short_ratio(entries: Seq<SessionEntry>) -> Double {
    of_int(short_sessions(entries).len() as int).over(of_int(entries.len() as int))
}

pub open spec fn short_sessions_finding(entries: Seq<SessionEntry>) -> RecommendationView {
    let short = short_sessions(entries);
    let some = if short.len() == 0 { 1 } else { short.len() as int };
    RecommendationView {
        id: "short_session_churn"@,
        severity: Level::Medium,
        confidence: Level::Medium,
        title: number_text(short_ratio(entries).times(num(HUNDRED)), 0, false)
            + "% of sessions are under 5 minutes"@,
        evidence: seq![
            decimal(short.len()) + " of "@ + decimal(entries.len()) + " sessions lasted <5min"@,
            "Short session spend: $"@ + number_text(spend(short), 2, false) + " ("@ + number_text(
                fraction_of(spend(short), spend(entries)).times(num(HUNDRED)),
                0,
                false,
            ) + "% of total)"@,
            "Avg messages in short sessions: "@ + number_text(
                message_sum(short).over(of_int(some)),
                1,
                false,
            ),
        ],
        action: "Frequent short sessions invalidate prompt caches and repeat system prompts. Try continuing existing sessions instead of starting new ones. Check if your client auto-creates sessions on each command."@,
        estimated_savings: Some(spend(short).times(num(THREE_TENTHS))),
    }
}

/// A finding if there are ten sessions at least and more than 30% of them are short.
pub open spec fn short_sessions_findings(entries: Seq<SessionEntry>) -> Seq<RecommendationView> {
    if entries.len() >= 10 && num(THREE_TENTHS).less(short_ratio(entries)) {
        seq![short_sessions_finding(entries)]
    } else {
        Seq::empty()
    }
}

fn short_list<'a>(entries: &'a [SessionEntry]) -> (list: Vec<&'a SessionEntry>)
    ensures
        list@.unref() == short_sessions(entries@),
        list@.len() == short_sessions(entries@).len(),
{
    let mut flags: Vec<bool> = Vec::new();
    let mut i: usize = 0;
    while i < entries.len()
        invariant
            i <= entries@.len(),
            flags@.len() == i,
            forall|j: int| 0 <= j < i ==> flags@[j] == is_short()(#[trigger] entries@[j]),
        decreases entries@.len() - i,
    {
        flags.push(entries[i].duration_minutes < 5);
        i = i + 1;
    }
    proof {
        lemma_picked_filter(entries@, flags@, is_short());
    }
    let list = pick(entries, &flags);
    assert(list@.unref().len() == list@.len());
    list
}

fn sum_messages(list: &Vec<&SessionEntry>) -> (sum: Double)
    ensures
        sum == message_sum(list@.unref()),
{
    let mut sum = Double { bits: SIGN_BIT };
    let mut i: usize = 0;
    while i < list.len()
        invariant
            i <= list@.len(),
            sum == message_sum(list@.unref().take(i as int)),
        decreases list@.len() - i,
    {
        assert(list@.unref().take(i + 1).drop_last() =~= list@.unref().take(i as int));
        sum = sum.plus(Double::from_i64(list[i].message_count));
        i = i + 1;
    }
    assert(list@.unref().take(i as int) =~= list@.unref());
    sum
}

/// Recommends continuing sessions.
pub fn rule_short_session_churn(entries: &[SessionEntry], recs: &mut Vec<Recommendation>)
    ensures
        views(final(recs)@) == views(old(recs)@) + short_sessions_findings(entries@),
{
    assert(views(recs@) + Seq::<RecommendationView>::empty() =~= views(recs@));
    if entries.len() < 10 {
        return;
    }
    let short = short_list(entries);
    let ratio = Double::from_usize(short.len()).over(Double::from_usize(entries.len()));
    if num(THREE_TENTHS).less(ratio) {
        let short_cost = total_spend(&short);
        let total_cost = total_spend(&all(entries));
        let some = if short.len() == 0 { 1 } else { short.len() };
        let avg_short_msgs = sum_messages(&short).over(Double::from_usize(some));
        let r = Recommendation {
            id: "short_session_churn".to_owned(),
            severity: Level::Medium,
            confidence: Level::Medium,
            title: number(ratio.times(num(HUNDRED)), 0, false).concat(
                "% of sessions are under 5 minutes",
            ),
            evidence: vec![
                count(short.len()).concat(" of ").concat(count(entries.len()).as_str()).concat(
                    " sessions lasted <5min",
                ),
                "Short session spend: $".to_owned().concat(
                    number(short_cost, 2, false).as_str(),
                ).concat(" (").concat(
                    number(fraction(short_cost, total_cost).times(num(HUNDRED)), 0, false).as_str(),
                ).concat("% of total)"),
                "Avg messages in short sessions: ".to_owned().concat(
                    number(avg_short_msgs, 1, false).as_str(),
                ),
            ],
            action: "Frequent short sessions invalidate prompt caches and repeat system prompts. Try continuing existing sessions instead of starting new ones. Check if your client auto-creates sessions on each command.".to_owned(),
            estimated_savings: Some(short_cost.times(num(THREE_TENTHS))),
        };
        proof {
            let wanted = short_sessions_finding(entries@);
            assert(texts(r.evidence@) =~= wanted.evidence);
            assert(r@ =~= wanted);
            lemma_views_push(recs@, r);
        }
        recs.push(r);
    }
}

/// There is a finding exactly if there are ten sessions at least and more than 30% of them took less
/// than five minutes. It would save 30% of what the short ones cost.
pub proof fn lemma_churn_found(entries: Seq<SessionEntry>)
    ensures
        ({
            let short = entries.filter(|e: SessionEntry| e.duration_minutes < 5);
            let found = short_sessions_findings(entries);
            &&& found.len() > 0 <==> entries.len() >= 10 && num(THREE_TENTHS).less(
                of_int(short.len() as int).over(of_int(entries.len() as int)),
            )
            &&& found.len() <= 1
            &&& found.len() == 1 ==> found[0].severity == Level::Medium && found[0].confidence
                == Level::Medium && found[0].estimated_savings == Some(
                spend(short).times(num(THREE_TENTHS)),
            )
        }),
{
    assert(is_short() =~= |e: SessionEntry| e.duration_minutes < 5);
}

/// In whole numbers: ten times as many short sessions are more than three times as many as all.
pub proof fn lemma_whole_churn(entries: Seq<SessionEntry>)
    requires
        entries.len() < HIDDEN_BIT / 16,
    ensures
        short_sessions_findings(entries).len() > 0 <==> entries.len() >= 10 && 10 * entries.filter(
            |e: SessionEntry| e.duration_minutes < 5,
        ).len() > 3 * entries.len(),
{
    let short = entries.filter(|e: SessionEntry| e.duration_minutes < 5);
    assert(is_short() =~= |e: SessionEntry| e.duration_minutes < 5);
    entries.lemma_filter_len(|e: SessionEntry| e.duration_minutes < 5);
    lemma_fraction_limits();
    if entries.len() > 0 {
        lemma_quotients_compare(3, 10, short.len() as int, entries.len() as int);
    }
}

/// With whole numbers the messages are added exactly.
pub proof fn lemma_whole_messages(entries: Seq<SessionEntry>)
    requires
        forall|i: int| 0 <= i < entries.len() ==> 0 <= (#[trigger] entries[i]).message_count,
        total(entries, Measure::Messages) < SIGNIFICAND_LIMIT,
    ensures
        total(entries, Measure::Messages) >= 0,
        same_number(message_sum(entries), of_int(total(entries, Measure::Messages))),
    decreases entries.len(),
{
    if entries.len() > 0 {
        let fewer = entries.drop_last();
        let own = entries.last().message_count as int;
        assert(entries[entries.len() - 1].message_count >= 0);
        assert forall|i: int| 0 <= i < fewer.len() implies 0 <= (#[trigger] fewer[i]).message_count by {
            assert(fewer[i] == entries[i]);
        }
        lemma_whole_messages(fewer);
        let sum = total(fewer, Measure::Messages);
        lemma_integer_sum(sum, own);
        lemma_same_sum(message_sum(fewer), of_int(sum), of_int(own));
    } else {
        lemma_integer_exact(0);
        lemma_no_units(0);
        assert(0 * pow2(ONE_EXPONENT as nat) == 0) by (nonlinear_arith);
    }
}

/// The finding gives the part of the sessions that are short in percent, how many they are, what
/// they cost in dollars and in percent of all spend, and how many messages they have on average.
pub proof fn lemma_churn_told(entries: Seq<SessionEntry>)
    requires
        short_sessions_findings(entries).len() > 0,
    ensures
        ({
            let r = short_sessions_findings(entries)[0];
            let short = entries.filter(|e: SessionEntry| e.duration_minutes < 5);
            let (few, all) = (short.len() as int, entries.len() as int);
            &&& r.title == number_text(of_int(few).over(of_int(all)).times(num(HUNDRED)), 0, false)
                + "% of sessions are under 5 minutes"@
            &&& r.evidence.len() == 3
            &&& r.evidence[0] == decimal(short.len()) + " of "@ + decimal(entries.len())
                + " sessions lasted <5min"@
            &&& r.evidence[1] == "Short session spend: $"@ + number_text(spend(short), 2, false)
                + " ("@ + number_text(
                spend(short).over(spend(entries).larger(num(THOUSANDTH))).times(num(HUNDRED)),
                0,
                false,
            ) + "% of total)"@
            &&& few > 0 ==> r.evidence[2] == "Avg messages in short sessions: "@ + number_text(
                message_sum(short).over(of_int(few)),
                1,
                false,
            )
        }),
{
    assert(is_short() =~= |e: SessionEntry| e.duration_minutes < 5);
}

} // verus!
