//! Sessions at night that use expensive models more than those by day, and cost more.

use crate::clock::{FIRST_SECOND, LAST_SECOND, local_hour};
use crate::double::{Double, of_int};
use crate::entries::{SessionEntry, pick, picked, spend, total_spend, used_by, uses};
use crate::ledger::{
    Account, AccountView, Basis, account_views, accounts, lemma_costs_fit, tally,
};
use crate::numbers::{HUNDRED, ONE, THOUSANDTH, THREE, THREE_HALVES, THREE_TENTHS, num};
use crate::recommendation::{Level, Recommendation, RecommendationView, lemma_views_push, views};
use crate::summary::{fraction, fraction_of};
use crate::text::{count, decimal, number, number_text, texts};
use vstd::prelude::*;

verus! {

/// The sessions that began before six.
pub open spec fn at_night(entries: Seq<SessionEntry>, hours: Seq<u32>) -> Seq<SessionEntry> {
    picked(entries, hours.map_values(|h: u32| h < 6))
}

/// The sessions that began at six or later.
pub open spec fn by_day(entries: Seq<SessionEntry>, hours: Seq<u32>) -> Seq<SessionEntry> {
    picked(entries, hours.map_values(|h: u32| h >= 6))
}

pub open spec fn average_cost(entries: Seq<SessionEntry>) -> Double {
    spend(entries).over(of_int(entries.len() as int))
}

/// What a session spends on a model on average, of those that used it. A session that used several
/// models is divided among them.
pub open spec fn model_average(a: AccountView) -> Double {
    a.cost.over(of_int(a.count as int))
}

/// The position of the account with the highest average, of several the first one.
pub open spec fn dearest(accounts: Seq<AccountView>) -> int
    decreases accounts.len(),
{
    if accounts.len() <= 1 {
        0
    } else {
        let best = dearest(accounts.drop_last());
        if model_average(accounts[best]).less(model_average(accounts.last())) {
            accounts.len() - 1
        } else {
            best
        }
    }
}

/// The number of sessions that used a model.
pub open spec fn times_used(entries: Seq<SessionEntry>, model: Seq<char>) -> nat
    decreases entries.len(),
{
    if entries.len() == 0 {
        0
    } else {
        times_used(entries.drop_last(), model) + (if uses(entries.last(), model) {
            1nat
        } else {
            0
        })
    }
}

/// The part of the sessions in `some` that used a model is larger than that of those in `others`.
pub open spec fn used_more(
    model: Seq<char>,
    some: Seq<SessionEntry>,
    others: Seq<SessionEntry>,
) -> bool {
    times_used(some, model) * others.len() > times_used(others, model) * some.len()
}

/// The most expensive model, by what a session spends on it on average, is used by a larger part of
/// the sessions at night than of those by day.
pub open spec fn nights_prefer_expensive(entries: Seq<SessionEntry>, hours: Seq<u32>) -> bool {
    let models = accounts(Basis::ModelSpend, entries);
    models.len() > 0 && used_more(
        models[dearest(models)].name,
        at_night(entries, hours),
        by_day(entries, hours),
    )
}

/// At least ten sessions, three of them at night and one by day; those at night use the most
/// expensive model more than those by day, cost half as much again on average, and more than $3 in
/// all.
pub open spec fn nights_cost_more(entries: Seq<SessionEntry>, hours: Seq<u32>) -> bool {
    let night = at_night(entries, hours);
    let day = by_day(entries, hours);
    &&& entries.len() >= 10
    &&& night.len() >= 3
    &&& day.len() > 0
    &&& nights_prefer_expensive(entries, hours)
    &&& average_cost(day).times(num(THREE_HALVES)).less(average_cost(night))
    &&& num(THREE).less(spend(night))
}

pub open spec fn night_owl_finding(
    entries: Seq<SessionEntry>,
    hours: Seq<u32>,
) -> RecommendationView {
    let night = at_night(entries, hours);
    let night_average = average_cost(night);
    let day_average = average_cost(by_day(entries, hours));
    RecommendationView {
        id: "night_owl_premium"@,
        severity: Level::Low,
        confidence: Level::Low,
        title: "Late-night sessions use more expensive models"@,
        evidence: seq![
            decimal(night.len()) + " sessions between 00:00–06:00 (avg $"@ + number_text(
                night_average,
                2,
                false,
            ) + "/session)"@,
            "Daytime avg: $"@ + number_text(day_average, 2, false) + "/session ("@ + number_text(
                num(ONE).minus(fraction_of(day_average, night_average)).times(num(HUNDRED)),
                0,
                false,
            ) + "% cheaper)"@,
            "Night spend total: $"@ + number_text(spend(night), 2, false),
        ],
        action: "If late-night work is automated (CI, batch jobs, scheduled tasks), configure a cheaper model for those runs. If it's manual work, consider whether fatigue-driven sessions are cost-efficient."@,
        estimated_savings: Some(spend(night).times(num(THREE_TENTHS))),
    }
}

pub open spec fn night_owl_findings(
    entries: Seq<SessionEntry>,
    hours: Seq<u32>,
) -> Seq<RecommendationView> {
    if nights_cost_more(entries, hours) {
        seq![night_owl_finding(entries, hours)]
    } else {
        Seq::empty()
    }
}

/// Each session began at night or by day, and none of them both.
pub proof fn lemma_night_or_day(entries: Seq<SessionEntry>, hours: Seq<u32>)
    requires
        hours.len() == entries.len(),
    ensures
        at_night(entries, hours).len() + by_day(entries, hours).len() == entries.len(),
    decreases entries.len(),
{
    if entries.len() > 0 {
        let fewer = hours.drop_last();
        lemma_night_or_day(entries.drop_last(), fewer);
        assert(hours.map_values(|h: u32| h < 6).drop_last() =~= fewer.map_values(|h: u32| h < 6));
        assert(hours.map_values(|h: u32| h >= 6).drop_last() =~= fewer.map_values(|h: u32| h >= 6));
    }
}

/// No model costs a session more on average than the most expensive one.
pub proof fn lemma_dearest(accounts: Seq<AccountView>)
    requires
        accounts.len() > 0,
        forall|i: int|
            0 <= i < accounts.len() ==> !model_average(#[trigger] accounts[i]).is_nan(),
    ensures
        0 <= dearest(accounts) < accounts.len(),
        forall|i: int|
            0 <= i < accounts.len() ==> model_average(#[trigger] accounts[i]).at_most(
                model_average(accounts[dearest(accounts)]),
            ),
    decreases accounts.len(),
{
    assert(!model_average(accounts[0]).is_nan());
    if accounts.len() > 1 {
        let fewer = accounts.drop_last();
        assert forall|i: int| 0 <= i < fewer.len() implies !model_average(
            #[trigger] fewer[i],
        ).is_nan() by {
            assert(fewer[i] == accounts[i]);
        }
        lemma_dearest(fewer);
        let best = dearest(fewer);
        assert(fewer[best] == accounts[best]);
        assert(!model_average(accounts[accounts.len() - 1]).is_nan());
        assert forall|i: int| 0 <= i < accounts.len() implies model_average(
            #[trigger] accounts[i],
        ).at_most(model_average(accounts[dearest(accounts)])) by {
            if i < fewer.len() {
                assert(fewer[i] == accounts[i]);
            }
        }
    }
}

/// Sessions of which all used a model, or none did.
proof fn lemma_times_used(entries: Seq<SessionEntry>, model: Seq<char>, used: bool)
    requires
        forall|i: int| 0 <= i < entries.len() ==> uses(#[trigger] entries[i], model) == used,
    ensures
        times_used(entries, model) == (if used {
            entries.len()
        } else {
            0
        }),
    decreases entries.len(),
{
    if entries.len() > 0 {
        let fewer = entries.drop_last();
        assert(uses(entries[entries.len() - 1], model) == used);
        assert forall|i: int| 0 <= i < fewer.len() implies uses(#[trigger] fewer[i], model)
            == used by {
            assert(fewer[i] == entries[i]);
        }
        lemma_times_used(fewer, model, used);
    }
}

proof fn lemma_picked_used(
    entries: Seq<SessionEntry>,
    flags: Seq<bool>,
    model: Seq<char>,
    used: bool,
)
    requires
        forall|i: int| 0 <= i < entries.len() ==> uses(#[trigger] entries[i], model) == used,
    ensures
        forall|i: int|
            0 <= i < picked(entries, flags).len() ==> uses(
                #[trigger] picked(entries, flags)[i],
                model,
            ) == used,
    decreases entries.len(),
{
    if entries.len() > 0 {
        let fewer = entries.drop_last();
        assert(uses(entries[entries.len() - 1], model) == used);
        assert forall|i: int| 0 <= i < fewer.len() implies uses(#[trigger] fewer[i], model)
            == used by {
            assert(fewer[i] == entries[i]);
        }
        lemma_picked_used(fewer, flags.drop_last(), model, used);
        let earlier = picked(fewer, flags.drop_last());
        assert forall|i: int| 0 <= i < picked(entries, flags).len() implies uses(
            #[trigger] picked(entries, flags)[i],
            model,
        ) == used by {
            if i < earlier.len() {
                assert(picked(entries, flags)[i] == earlier[i]);
            }
        }
    }
}

/// Where all sessions use the same models, the rule finds nothing, however much the nights cost.
pub proof fn lemma_same_models(entries: Seq<SessionEntry>, hours: Seq<u32>)
    requires
        forall|i: int, j: int, model: Seq<char>|
            0 <= i < entries.len() && 0 <= j < entries.len() ==> #[trigger] uses(entries[i], model)
                == #[trigger] uses(entries[j], model),
    ensures
        night_owl_findings(entries, hours).len() == 0,
{
    let models = accounts(Basis::ModelSpend, entries);
    if models.len() > 0 && entries.len() > 0 {
        let model = models[dearest(models)].name;
        let used = uses(entries[0], model);
        let night_flags = hours.map_values(|h: u32| h < 6);
        let day_flags = hours.map_values(|h: u32| h >= 6);
        assert forall|i: int| 0 <= i < entries.len() implies uses(#[trigger] entries[i], model)
            == used by {}
        lemma_picked_used(entries, night_flags, model, used);
        lemma_picked_used(entries, day_flags, model, used);
        lemma_times_used(at_night(entries, hours), model, used);
        lemma_times_used(by_day(entries, hours), model, used);
        let (n, d) = (at_night(entries, hours).len(), by_day(entries, hours).len());
        assert(n * d == d * n && 0 * d == 0 && 0 * n == 0) by (nonlinear_arith);
        assert(!nights_prefer_expensive(entries, hours));
    }
}

/// `hours` may be what the clocks showed when the sessions began; noon where the calendar does not
/// reach.
pub open spec fn are_hours_of(entries: Seq<SessionEntry>, hours: Seq<u32>) -> bool {
    &&& hours.len() == entries.len()
    &&& forall|i: int|
        0 <= i < hours.len() ==> (#[trigger] hours[i]) < 24 && (!(FIRST_SECOND
            <= entries[i].created_at <= LAST_SECOND) ==> hours[i] == 12)
}

/// The hour that a clock gave; noon where it gave none.
pub fn hour_or_noon(answer: Option<u32>) -> (h: u32)
    ensures
        h == (match answer {
            Some(x) => x,
            None => 12,
        }),
{
    match answer {
        Some(x) => x,
        None => 12,
    }
}

/// Asks at which hour sessions began.
pub fn start_hours(entries: &[SessionEntry]) -> (hours: Vec<u32>)
    ensures
        are_hours_of(entries@, hours@),
{
    let mut hours: Vec<u32> = Vec::new();
    let mut i: usize = 0;
    while i < entries.len()
        invariant
            i <= entries@.len(),
            hours@.len() == i,
            forall|j: int|
                0 <= j < i ==> (#[trigger] hours@[j]) < 24 && (!(FIRST_SECOND
                    <= entries@[j].created_at <= LAST_SECOND) ==> hours@[j] == 12),
        decreases entries@.len() - i,
    {
        hours.push(hour_or_noon(local_hour(entries[i].created_at)));
        i = i + 1;
    }
    hours
}

fn find_dearest(list: &Vec<Account>) -> (best: usize)
    requires
        list@.len() > 0,
    ensures
        best == dearest(account_views(list@)),
        best < list@.len(),
{
    let ghost all = account_views(list@);
    let mut best: usize = 0;
    let mut i: usize = 1;
    while i < list.len()
        invariant
            1 <= i <= list@.len(),
            best < i,
            all == account_views(list@),
            best == dearest(all.take(i as int)),
        decreases list@.len() - i,
    {
        assert(all.take(i + 1).drop_last() =~= all.take(i as int));
        let top = list[best].cost.over(Double::from_usize(list[best].count));
        let own = list[i].cost.over(Double::from_usize(list[i].count));
        if top.less(own) {
            best = i;
        }
        i = i + 1;
    }
    assert(all.take(i as int) =~= all);
    best
}

fn count_users(list: &Vec<&SessionEntry>, model: &String) -> (n: usize)
    ensures
        n == times_used(list@.unref(), model@),
        n <= list@.len(),
{
    let ghost all = list@.unref();
    let mut n: usize = 0;
    let mut i: usize = 0;
    while i < list.len()
        invariant
            n <= i <= list@.len(),
            all == list@.unref(),
            n == times_used(all.take(i as int), model@),
        decreases list@.len() - i,
    {
        proof {
            assert(all.take(i + 1).drop_last() =~= all.take(i as int));
            assert(all.take(i + 1).last() == *list@[i as int]);
        }
        if used_by(list[i], model) {
            n = n + 1;
        }
        i = i + 1;
    }
    assert(all.take(i as int) =~= all);
    n
}

/// Whether sessions at night use the most expensive model more than those by day.
fn prefer_expensive(
    entries: &[SessionEntry],
    night: &Vec<&SessionEntry>,
    day: &Vec<&SessionEntry>,
    Ghost(hours): Ghost<Seq<u32>>,
) -> (r: bool)
    requires
        night@.unref() == at_night(entries@, hours),
        day@.unref() == by_day(entries@, hours),
    ensures
        r == nights_prefer_expensive(entries@, hours),
{
    proof {
        lemma_costs_fit(Basis::ModelSpend, entries@);
    }
    let models = tally(Basis::ModelSpend, entries).unwrap();
    assert(account_views(models@).len() == models@.len());
    if models.len() == 0 {
        return false;
    }
    let best = find_dearest(&models);
    let by_night = count_users(night, &models[best].name);
    let in_daytime = count_users(day, &models[best].name);
    assert(night@.unref().len() == night@.len() && day@.unref().len() == day@.len());
    let (nights, days) = (night.len(), day.len());
    assert(0 <= by_night * days <= u64::MAX * u64::MAX && 0 <= in_daytime * nights <= u64::MAX
        * u64::MAX) by (nonlinear_arith)
        requires
            by_night <= u64::MAX,
            in_daytime <= u64::MAX,
            days <= u64::MAX,
            nights <= u64::MAX,
    ;
    by_night as u128 * days as u128 > in_daytime as u128 * nights as u128
}

/// Noon for each of `n` sessions.
pub open spec fn noons(n: nat) -> Seq<u32> {
    Seq::new(n, |i: int| 12u32)
}

/// The hours that the rule needs: where there are too few sessions for it, no clock is asked.
pub fn needed_hours(entries: &[SessionEntry]) -> (hours: Vec<u32>)
    ensures
        are_hours_of(entries@, hours@),
        entries@.len() < 10 ==> hours@ == noons(entries@.len()),
{
    if entries.len() >= 10 {
        return start_hours(entries);
    }
    let mut hours: Vec<u32> = Vec::new();
    while hours.len() < entries.len()
        invariant
            hours@.len() <= entries@.len(),
            hours@ == noons(hours@.len()),
        decreases entries@.len() - hours@.len(),
    {
        let ghost before = hours@;
        hours.push(12);
        assert(hours@ =~= noons(before.len() + 1));
    }
    hours
}

/// Points out costly nights, for given starting hours.
pub fn rule_night_owl_at(
    entries: &[SessionEntry],
    hours: &Vec<u32>,
    recs: &mut Vec<Recommendation>,
)
    requires
        hours@.len() == entries@.len(),
    ensures
        views(final(recs)@) == views(old(recs)@) + night_owl_findings(entries@, hours@),
{
    assert(views(recs@) + Seq::<RecommendationView>::empty() =~= views(recs@));
    if entries.len() < 10 {
        return;
    }
    let mut nightly: Vec<bool> = Vec::new();
    let mut daily: Vec<bool> = Vec::new();
    let mut i: usize = 0;
    while i < hours.len()
        invariant
            i <= hours@.len(),
            nightly@.len() == i,
            daily@.len() == i,
            forall|j: int| 0 <= j < i ==> #[trigger] nightly@[j] == (hours@[j] < 6),
            forall|j: int| 0 <= j < i ==> #[trigger] daily@[j] == (hours@[j] >= 6),
        decreases hours@.len() - i,
    {
        nightly.push(hours[i] < 6);
        daily.push(hours[i] >= 6);
        i = i + 1;
    }
    assert(nightly@ =~= hours@.map_values(|h: u32| h < 6));
    assert(daily@ =~= hours@.map_values(|h: u32| h >= 6));
    let night = pick(entries, &nightly);
    assert(night@.unref().len() == night@.len());
    if night.len() < 3 {
        return;
    }
    let day = pick(entries, &daily);
    assert(day@.unref().len() == day@.len());
    if day.len() == 0 {
        return;
    }
    if !prefer_expensive(entries, &night, &day, Ghost(hours@)) {
        return;
    }
    let night_total = total_spend(&night);
    let night_average = night_total.over(Double::from_usize(night.len()));
    let day_average = total_spend(&day).over(Double::from_usize(day.len()));
    if day_average.times(num(THREE_HALVES)).less(night_average) && num(THREE).less(night_total) {
        let cheaper = num(ONE).minus(fraction(day_average, night_average)).times(num(HUNDRED));
        let r = Recommendation {
            id: "night_owl_premium".to_owned(),
            severity: Level::Low,
            confidence: Level::Low,
            title: "Late-night sessions use more expensive models".to_owned(),
            evidence: vec![
                count(night.len()).concat(" sessions between 00:00–06:00 (avg $").concat(
                    number(night_average, 2, false).as_str(),
                ).concat("/session)"),
                "Daytime avg: $".to_owned().concat(number(day_average, 2, false).as_str()).concat(
                    "/session (",
                ).concat(number(cheaper, 0, false).as_str()).concat("% cheaper)"),
                "Night spend total: $".to_owned().concat(number(night_total, 2, false).as_str()),
            ],
            action: "If late-night work is automated (CI, batch jobs, scheduled tasks), configure a cheaper model for those runs. If it's manual work, consider whether fatigue-driven sessions are cost-efficient.".to_owned(),
            estimated_savings: Some(night_total.times(num(THREE_TENTHS))),
        };
        proof {
            let wanted = night_owl_finding(entries@, hours@);
            assert(texts(r.evidence@) =~= wanted.evidence);
            assert(r@ =~= wanted);
            lemma_views_push(recs@, r);
        }
        recs.push(r);
    }
}

/// Points out costly nights.
pub fn rule_night_owl_premium(entries: &[SessionEntry], recs: &mut Vec<Recommendation>)
    ensures
        exists|hours: Seq<u32>|
            #[trigger] are_hours_of(entries@, hours) && views(final(recs)@) == views(old(recs)@)
                + night_owl_findings(entries@, hours),
        entries@.len() < 10 ==> views(final(recs)@) == views(old(recs)@),
{
    let hours = needed_hours(entries);
    rule_night_owl_at(entries, &hours, recs);
    assert(views(old(recs)@) + Seq::<RecommendationView>::empty() =~= views(old(recs)@));
    assert(are_hours_of(entries@, hours@));
}

/// A session is one of the night exactly if it began before six; the others are those of the day.
pub proof fn lemma_night_ends_at_six(
    entries: Seq<SessionEntry>,
    hours: Seq<u32>,
    e: SessionEntry,
    hour: u32,
)
    requires
        hours.len() == entries.len(),
    ensures
        hour < 6 ==> at_night(entries.push(e), hours.push(hour)) == at_night(entries, hours).push(e),
        hour < 6 ==> by_day(entries.push(e), hours.push(hour)) == by_day(entries, hours),
        hour >= 6 ==> at_night(entries.push(e), hours.push(hour)) == at_night(entries, hours),
        hour >= 6 ==> by_day(entries.push(e), hours.push(hour)) == by_day(entries, hours).push(e),
        at_night(Seq::empty(), Seq::empty()).len() == 0,
        by_day(Seq::empty(), Seq::empty()).len() == 0,
{
    let (more, later) = (entries.push(e), hours.push(hour));
    assert(more.drop_last() =~= entries);
    assert(later.map_values(|h: u32| h < 6).drop_last() =~= hours.map_values(|h: u32| h < 6));
    assert(later.map_values(|h: u32| h >= 6).drop_last() =~= hours.map_values(|h: u32| h >= 6));
}

/// A model is used as often as there are sessions that used it.
pub proof fn lemma_times_used_counts(entries: Seq<SessionEntry>, model: Seq<char>)
    ensures
        times_used(entries, model) == entries.filter(
            |e: SessionEntry|
                exists|i: int|
                    0 <= i < e.models_used@.len() && (#[trigger] e.models_used@[i])@ == model,
        ).len(),
    decreases entries.len(),
{
    reveal(Seq::filter);
    if entries.len() > 0 {
        lemma_times_used_counts(entries.drop_last(), model);
    }
}

/// The most expensive model is the first with its average: those before it cost less.
pub proof fn lemma_dearest_is_first(accounts: Seq<AccountView>)
    requires
        accounts.len() > 0,
        forall|i: int|
            0 <= i < accounts.len() ==> !model_average(#[trigger] accounts[i]).is_nan(),
    ensures
        forall|i: int|
            0 <= i < dearest(accounts) ==> model_average(#[trigger] accounts[i]).less(
                model_average(accounts[dearest(accounts)]),
            ),
    decreases accounts.len(),
{
    if accounts.len() > 1 {
        let fewer = accounts.drop_last();
        assert forall|i: int| 0 <= i < fewer.len() implies !model_average(
            #[trigger] fewer[i],
        ).is_nan() by {
            assert(fewer[i] == accounts[i]);
        }
        lemma_dearest(fewer);
        lemma_dearest_is_first(fewer);
        let best = dearest(fewer);
        assert(fewer[best] == accounts[best]);
        assert(!model_average(accounts[accounts.len() - 1]).is_nan());
        assert forall|i: int| 0 <= i < dearest(accounts) implies model_average(
            #[trigger] accounts[i],
        ).less(model_average(accounts[dearest(accounts)])) by {
            if i < fewer.len() {
                assert(fewer[i] == accounts[i]);
            }
        }
    }
}

/// There is a finding exactly if there are ten sessions at least, three of them at night and one by
/// day; the model that costs a session most on average is used by a larger part of those at night
/// than of those by day; and those at night cost more than half as much again on average, and more
/// than $3 in all. It is of low severity and would save three tenths of what the nights cost.
pub proof fn lemma_nights_found(entries: Seq<SessionEntry>, hours: Seq<u32>)
    requires
        forall|i: int|
            0 <= i < accounts(Basis::ModelSpend, entries).len() ==> !({
                let a = #[trigger] accounts(Basis::ModelSpend, entries)[i];
                a.cost.over(of_int(a.count as int))
            }).is_nan(),
    ensures
        ({
            let found = night_owl_findings(entries, hours);
            let night = at_night(entries, hours);
            let day = by_day(entries, hours);
            let (nights, days) = (night.len() as int, day.len() as int);
            let models = accounts(Basis::ModelSpend, entries);
            let average = |a: AccountView| a.cost.over(of_int(a.count as int));
            &&& found.len() <= 1
            &&& found.len() == 1 <==> entries.len() >= 10 && nights >= 3 && days >= 1 && spend(
                day,
            ).over(of_int(days)).times(num(THREE_HALVES)).less(spend(night).over(of_int(nights)))
                && num(THREE).less(spend(night)) && exists|d: int|
                0 <= d < models.len() && (forall|i: int|
                    0 <= i < models.len() ==> average(#[trigger] models[i]).at_most(
                        average(models[d]),
                    )) && (forall|i: int|
                    0 <= i < d ==> average(#[trigger] models[i]).less(average(models[d])))
                    && times_used(night, (#[trigger] models[d]).name) * days > times_used(
                    day,
                    models[d].name,
                ) * nights
            &&& found.len() == 1 ==> {
                &&& found[0].id == "night_owl_premium"@
                &&& found[0].severity == Level::Low
                &&& found[0].confidence == Level::Low
                &&& found[0].estimated_savings == Some(spend(night).times(num(THREE_TENTHS)))
            }
        }),
{
    let models = accounts(Basis::ModelSpend, entries);
    let average = |a: AccountView| a.cost.over(of_int(a.count as int));
    if models.len() > 0 {
        lemma_dearest(models);
        lemma_dearest_is_first(models);
        let best = dearest(models);
        assert forall|d: int|
            0 <= d < models.len() && (forall|i: int|
                0 <= i < models.len() ==> average(#[trigger] models[i]).at_most(average(models[d])))
                && (forall|i: int| 0 <= i < d ==> average(#[trigger] models[i]).less(
                average(models[d]),
            )) implies d == best && #[trigger] models[d] == models[best] by {
            assert(average(models[best]).at_most(average(models[d])));
            assert(model_average(models[d]).at_most(model_average(models[best])));
        }
        assert(average(models[best]) == model_average(models[best]));
        assert forall|i: int| 0 <= i < models.len() implies average(#[trigger] models[i]).at_most(
            average(models[best]),
        ) by {
            assert(model_average(models[i]).at_most(model_average(models[best])));
        }
        assert forall|i: int| 0 <= i < best implies average(#[trigger] models[i]).less(
            average(models[best]),
        ) by {
            assert(model_average(models[i]).less(model_average(models[best])));
        }
    }
}

/// The finding gives the number of sessions at night, what a session costs at night and by day, how
/// much cheaper it is by day in percent, and what the nights cost in all.
pub proof fn lemma_nights_told(entries: Seq<SessionEntry>, hours: Seq<u32>)
    requires
        night_owl_findings(entries, hours).len() > 0,
    ensures
        ({
            let told = night_owl_findings(entries, hours)[0].evidence;
            let (night, day) = (at_night(entries, hours), by_day(entries, hours));
            let at_dark = spend(night).over(of_int(night.len() as int));
            let at_light = spend(day).over(of_int(day.len() as int));
            &&& told.len() == 3
            &&& told[0] == decimal(night.len()) + " sessions between 00:00–06:00 (avg $"@
                + number_text(at_dark, 2, false) + "/session)"@
            &&& told[1] == "Daytime avg: $"@ + number_text(at_light, 2, false) + "/session ("@
                + number_text(
                num(ONE).minus(at_light.over(at_dark.larger(num(THOUSANDTH)))).times(num(HUNDRED)),
                0,
                false,
            ) + "% cheaper)"@
            &&& told[2] == "Night spend total: $"@ + number_text(spend(night), 2, false)
        }),
{
}

} // verus!
