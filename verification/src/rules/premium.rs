//! A costly model used for tasks that a cheaper one could do.

use crate::double::{
    Double, lemma_integer_exact, lemma_integer_sum, lemma_no_units, lemma_of_int_positive,
    lemma_quotient_sign, of_int,
};
use crate::entries::{
    Measure, SessionEntry, checked_total, cost_whole_dollars, lemma_all_tokens,
    lemma_picked_filter, pick, spend, total, total_fits, total_spend, used_by, uses, whole_sum,
};
use crate::exact::{
    lemma_fraction_limits, lemma_over_one, lemma_positive_whole, lemma_quotients_compare,
    lemma_same_positive, lemma_same_sum, lemma_whole_limits, same_number,
};
use crate::ledger::{
    Account, AccountView, Basis, account_views, accounts, category, category_name, is_on,
    lemma_account_name, lemma_model_accounts, lemma_names_distinct, names, one_model_each,
    postings, tally, tally_fits,
};
use crate::numbers::{
    HALF, MILLION, THOUSANDTH, THREE, THREE_FIFTHS, TWO_FIFTHS, ZERO, num,
};
use crate::ranking::{
    Key, as_ints, lemma_arrangement_covers, lemma_ranking_arranges, lemma_ranking_sorts, no_nan,
    rank, ranking,
};
use crate::recommendation::{Level, Recommendation, RecommendationView, lemma_views_push, views};
use crate::rounding::{HIDDEN_BIT, ONE_EXPONENT};
use crate::summary::{PeriodSummary, fraction, fraction_of};
use crate::text::{count, decimal, join, joined, number, number_text, same, texts};
use vstd::arithmetic::power2::pow2;
use vstd::prelude::*;

verus! {

/// More than 10000 tokens.
pub open spec fn is_busy() -> spec_fn(AccountView) -> bool {
    |a: AccountView| a.first > 10_000
}

/// The models that processed enough tokens to be judged.
pub open spec fn busy_models(entries: Seq<SessionEntry>) -> Seq<AccountView> {
    accounts(Basis::ModelTokens, entries).filter(is_busy())
}

/// What a model costs per million tokens.
pub open spec fn rate(a: AccountView) -> Double {
    a.cost.over(of_int(a.first).over(num(MILLION)))
}

pub open spec fn rate_keys(models: Seq<AccountView>) -> Seq<Key> {
    models.map_values(|a: AccountView| Key { class: 0, amount: rate(a) })
}

/// Models from the most costly per token to the cheapest.
pub open spec fn by_rate(models: Seq<AccountView>) -> Seq<AccountView> {
    ranking(rate_keys(models)).map_values(|i: int| models[i])
}

/// More than 40% of the spend.
pub open spec fn is_heavy(a: AccountView, total_cost: Double) -> bool {
    num(TWO_FIFTHS).less(fraction_of(a.cost, total_cost))
}

/// The position of the first heavy model.
pub open spec fn first_heavy(models: Seq<AccountView>, total_cost: Double) -> Option<int>
    decreases models.len(),
{
    if models.len() == 0 {
        None
    } else {
        match first_heavy(models.drop_last(), total_cost) {
            Some(i) => Some(i),
            None => if is_heavy(models.last(), total_cost) {
                Some(models.len() - 1)
            } else {
                None
            },
        }
    }
}

/// A costly model and a cheap one.
pub struct Choice {
    pub premium: String,
    pub premium_rate: Double,
    pub cheap: String,
    pub cheap_rate: Double,
}

pub struct ChoiceView {
    pub premium: Seq<char>,
    pub premium_rate: Double,
    pub cheap: Seq<char>,
    pub cheap_rate: Double,
}

impl View for Choice {
    type V = ChoiceView;

    open spec fn view(&self) -> ChoiceView {
        ChoiceView {
            premium: self.premium@,
            premium_rate: self.premium_rate,
            cheap: self.cheap@,
            cheap_rate: self.cheap_rate,
        }
    }
}

/// The most costly of the heavy models and the cheapest of all, unless they are the same.
pub open spec fn choice(entries: Seq<SessionEntry>, total_cost: Double) -> Option<ChoiceView> {
    let models = by_rate(busy_models(entries));
    match first_heavy(models, total_cost) {
        Some(i) => if models[i].name != models.last().name {
            Some(
                ChoiceView {
                    premium: models[i].name,
                    premium_rate: rate(models[i]),
                    cheap: models.last().name,
                    cheap_rate: rate(models.last()),
                },
            )
        } else {
            None
        },
        None => None,
    }
}

/// The task categories that a cheaper model can do.
pub open spec fn is_low_risk(category: Seq<char>) -> bool {
    ||| category == "config"@
    ||| category == "research"@
    ||| category == "review"@
    ||| category == "other"@
}

pub open spec fn is_low_risk_on(model: Seq<char>) -> spec_fn(SessionEntry) -> bool {
    |e: SessionEntry| is_low_risk(category_name(e)) && uses(e, model)
}

/// The sessions with low-risk tasks that used a model.
pub open spec fn low_risk_on(
    entries: Seq<SessionEntry>,
    model: Seq<char>,
) -> Seq<SessionEntry> {
    entries.filter(is_low_risk_on(model))
}

/// At least $3, and more than 60% of the spend.
pub open spec fn is_overuse(low_risk: Seq<SessionEntry>, total_cost: Double) -> bool {
    &&& num(THREE).at_most(spend(low_risk))
    &&& num(THREE_FIFTHS).less(fraction_of(spend(low_risk), total_cost))
}

/// The categories of sessions that have one, each once, in the order of their first occurrence.
pub open spec fn categories(entries: Seq<SessionEntry>) -> Seq<Seq<char>>
    decreases entries.len(),
{
    if entries.len() == 0 {
        Seq::empty()
    } else {
        let earlier = categories(entries.drop_last());
        match entries.last().task_category {
            Some(c) => if earlier.contains(c@) {
                earlier
            } else {
                earlier.push(c@)
            },
            None => earlier,
        }
    }
}

/// The sums of the rule stay within 64 bits, and it has only numbers to compare.
pub open spec fn premium_defined(entries: Seq<SessionEntry>, total_cost: Double) -> bool {
    &&& tally_fits(Basis::ModelTokens, entries)
    &&& busy_models(entries).len() <= 1 || no_nan(rate_keys(busy_models(entries)))
    &&& choice(entries, total_cost) matches Some(c) ==> {
        let low_risk = low_risk_on(entries, c.premium);
        is_overuse(low_risk, total_cost) ==> total_fits(low_risk, Measure::InputAndOutput)
    }
}

pub open spec fn premium_finding(
    entries: Seq<SessionEntry>,
    c: ChoiceView,
) -> RecommendationView {
    let low_risk = low_risk_on(entries, c.premium);
    let tokens = of_int(total(low_risk, Measure::InputAndOutput));
    let used = categories(low_risk);
    RecommendationView {
        id: "premium_overuse_low_risk"@,
        severity: Level::Medium,
        confidence: Level::Medium,
        title: "Route "@ + joined(used, "/"@) + "/ tasks away from "@ + c.premium,
        evidence: seq![
            decimal(low_risk.len()) + " low-risk sessions used "@ + c.premium + " ($"@
                + number_text(spend(low_risk), 2, false) + " total)"@,
            c.premium + " costs $"@ + number_text(c.premium_rate, 1, false) + "/M tokens vs "@
                + c.cheap + " at $"@ + number_text(c.cheap_rate, 1, false) + "/M tokens"@,
            "Categories: "@ + joined(used, ", "@),
        ],
        action: "Use "@ + c.cheap + " as first-pass model for "@ + joined(used, "/"@)
            + " tasks. Escalate to "@ + c.premium
            + " only when stuck or for complex architecture work."@,
        estimated_savings: Some(
            c.premium_rate.minus(c.cheap_rate).larger(num(ZERO)).times(
                tokens.over(num(MILLION)),
            ).times(num(HALF)),
        ),
    }
}

pub open spec fn premium_findings(
    entries: Seq<SessionEntry>,
    total_cost: Double,
) -> Seq<RecommendationView> {
    match choice(entries, total_cost) {
        Some(c) => if is_overuse(low_risk_on(entries, c.premium), total_cost) {
            seq![premium_finding(entries, c)]
        } else {
            Seq::empty()
        },
        None => Seq::empty(),
    }
}

/// The first heavy model is heavy, and there is none before it.
proof fn lemma_first_heavy_bounds(models: Seq<AccountView>, total_cost: Double)
    ensures
        match first_heavy(models, total_cost) {
            Some(i) => 0 <= i < models.len() && is_heavy(models[i], total_cost) && forall|j: int|
                0 <= j < i ==> !is_heavy(#[trigger] models[j], total_cost),
            None => forall|j: int|
                0 <= j < models.len() ==> !is_heavy(#[trigger] models[j], total_cost),
        },
    decreases models.len(),
{
    if models.len() > 0 {
        let fewer = models.drop_last();
        lemma_first_heavy_bounds(fewer, total_cost);
        assert forall|j: int| 0 <= j < fewer.len() implies fewer[j] == #[trigger] models[j] by {}
    }
}

/// The rule finds something exactly if there are a costly and a cheap model, and low-risk tasks on
/// the costly one take more than 60% of the spend, and $3 at least.
pub proof fn lemma_overuse_found(entries: Seq<SessionEntry>, total_cost: Double)
    ensures
        premium_findings(entries, total_cost).len() > 0 <==> (choice(
            entries,
            total_cost,
        ) matches Some(c) && {
            let low_risk = low_risk_on(entries, c.premium);
            &&& num(THREE).at_most(spend(low_risk))
            &&& num(THREE_FIFTHS).less(fraction_of(spend(low_risk), total_cost))
        }),
{
}

/// The costly model takes more than 40% of the spend, no model that does so costs more per token,
/// and no model costs less per token than the cheap one.
pub proof fn lemma_choice(entries: Seq<SessionEntry>, total_cost: Double)
    requires
        premium_defined(entries, total_cost),
        choice(entries, total_cost) is Some,
    ensures
        ({
            let c = choice(entries, total_cost)->0;
            let models = busy_models(entries);
            &&& c.premium != c.cheap
            &&& exists|p: int|
                0 <= p < models.len() && (#[trigger] models[p]).name == c.premium && rate(models[p])
                    == c.premium_rate && is_heavy(models[p], total_cost)
            &&& forall|i: int|
                0 <= i < models.len() && is_heavy(#[trigger] models[i], total_cost)
                    ==> !c.premium_rate.less(rate(models[i]))
            &&& exists|q: int|
                0 <= q < models.len() && (#[trigger] models[q]).name == c.cheap && rate(models[q])
                    == c.cheap_rate
            &&& forall|i: int|
                0 <= i < models.len() ==> !rate(#[trigger] models[i]).less(c.cheap_rate)
        }),
{
    let models = busy_models(entries);
    let keys = rate_keys(models);
    let order = ranking(keys);
    let sorted = by_rate(models);
    let p = first_heavy(sorted, total_cost)->0;
    lemma_ranking_arranges(keys, keys.len());
    lemma_first_heavy_bounds(sorted, total_cost);
    assert(sorted.len() == models.len());
    let last = models.len() - 1;
    assert(0 <= order[p] < models.len() && 0 <= order[last] < models.len());
    assert(models[order[p]] == sorted[p] && models[order[last]] == sorted[last]);
    if models.len() > 1 {
        lemma_ranking_sorts(keys);
        assert forall|i: int| 0 <= i < models.len() implies {
            &&& is_heavy(#[trigger] models[i], total_cost) ==> !rate(sorted[p]).less(
                rate(models[i]),
            )
            &&& !rate(models[i]).less(rate(sorted[last]))
        } by {
            lemma_arrangement_covers(order, models.len(), i);
            let at = choose|at: int| 0 <= at < order.len() && order[at] == i;
            assert(sorted[at] == models[i]);
            assert(keys[order[at]].amount == rate(models[i]));
            assert(keys[order[p]].amount == rate(sorted[p]));
            assert(keys[order[last]].amount == rate(sorted[last]));
            if at < p {
                assert(!is_heavy(sorted[at], total_cost));
            }
        }
    }
}

/// The busy models, if the sums fit.
fn find_busy(entries: &[SessionEntry]) -> (r: Option<Vec<Account>>)
    ensures
        r is Some <==> tally_fits(Basis::ModelTokens, entries@),
        r matches Some(list) ==> account_views(list@) == busy_models(entries@),
{
    match tally(Basis::ModelTokens, entries) {
        Some(list) => {
            let mut list = list;
            let mut i: usize = 0;
            let ghost all = list@;
            let ghost mut seen: int = 0;
            proof {
                reveal(Seq::filter);
                assert(account_views(list@.take(0)) =~= account_views(all.take(0)).filter(
                    is_busy(),
                ));
                assert(list@.skip(0) =~= all.skip(0));
            }
            while i < list.len()
                invariant
                    i <= list@.len(),
                    0 <= seen <= all.len(),
                    account_views(list@.take(i as int)) == account_views(all.take(seen)).filter(
                        is_busy(),
                    ),
                    list@.skip(i as int) == all.skip(seen),
                decreases list@.len() - i,
            {
                let ghost before = list@;
                proof {
                    reveal(Seq::filter);
                    assert(before.skip(i as int).len() == all.skip(seen).len());
                    assert(before.skip(i as int)[0] == before[i as int]);
                    assert(all.skip(seen)[0] == all[seen]);
                    assert(account_views(all.take(seen + 1)).drop_last() =~= account_views(
                        all.take(seen),
                    ));
                    assert(account_views(all.take(seen + 1)).last() == before[i as int]@);
                    assert(all.skip(seen + 1) =~= all.skip(seen).skip(1));
                }
                if list[i].first > 10_000 {
                    proof {
                        assert(account_views(before.take(i + 1)) =~= account_views(
                            before.take(i as int),
                        ).push(before[i as int]@));
                        assert(before.skip(i + 1) =~= before.skip(i as int).skip(1));
                    }
                    i = i + 1;
                } else {
                    let _ = list.remove(i);
                    proof {
                        assert(list@.take(i as int) =~= before.take(i as int));
                        assert(list@.skip(i as int) =~= before.skip(i as int).skip(1));
                    }
                }
                proof {
                    seen = seen + 1;
                }
            }
            proof {
                assert(list@.skip(i as int).len() == 0);
                assert(all.take(seen) =~= all);
                assert(list@.take(i as int) =~= list@);
            }
            Some(list)
        },
        None => None,
    }
}

fn find_rate(a: &Account) -> (r: Double)
    ensures
        r == rate(a@),
{
    a.cost.over(Double::from_i64(a.first).over(num(MILLION)))
}

fn find_rate_keys(list: &Vec<Account>) -> (keys: Vec<Key>)
    ensures
        keys@ == rate_keys(account_views(list@)),
{
    let mut keys: Vec<Key> = Vec::new();
    let mut i: usize = 0;
    while i < list.len()
        invariant
            i <= list@.len(),
            keys@.len() == i,
            forall|j: int|
                0 <= j < i ==> #[trigger] keys@[j] == (Key { class: 0, amount: rate(list@[j]@) }),
        decreases list@.len() - i,
    {
        keys.push(Key { class: 0, amount: find_rate(&list[i]) });
        i = i + 1;
    }
    assert(keys@ =~= rate_keys(account_views(list@)));
    keys
}

/// Chooses a costly and a cheap model among the busy ones.
fn choose_models(
    list: &Vec<Account>,
    total_cost: Double,
    Ghost(entries): Ghost<Seq<SessionEntry>>,
) -> (r: Option<Choice>)
    requires
        account_views(list@) == busy_models(entries),
    ensures
        r is Some <==> choice(entries, total_cost) is Some,
        r matches Some(c) ==> Some(c@) == choice(entries, total_cost),
{
    let ghost busy = busy_models(entries);
    let ghost models = by_rate(busy);
    let keys = find_rate_keys(list);
    let order = rank(&keys);
    proof {
        assert(busy.len() == list@.len());
        assert(models.len() == order@.len());
        assert forall|j: int| 0 <= j < order@.len() implies #[trigger] order@[j] < list@.len()
            && models[j] == list@[order@[j] as int]@ by {
            assert(as_ints(order@)[j] == order@[j] as int);
            assert(0 <= as_ints(order@)[j] < list@.len());
            assert(busy[order@[j] as int] == list@[order@[j] as int]@);
        }
    }
    let mut i: usize = 0;
    while i < order.len()
        invariant
            i <= order@.len(),
            models.len() == order@.len(),
            models == by_rate(busy_models(entries)),
            forall|j: int|
                0 <= j < order@.len() ==> #[trigger] order@[j] < list@.len() && models[j]
                    == list@[order@[j] as int]@,
            first_heavy(models.take(i as int), total_cost) is None,
        decreases order@.len() - i,
    {
        let a = &list[order[i]];
        proof {
            assert(models.take(i + 1).drop_last() =~= models.take(i as int));
            assert(models.take(i + 1).last() == a@);
        }
        if num(TWO_FIFTHS).less(fraction(a.cost, total_cost)) {
            proof {
                lemma_first_heavy(models, total_cost, i as int);
            }
            assert(order@[order@.len() - 1] < list@.len());
            let b = &list[order[order.len() - 1]];
            return if a.name != b.name {
                Some(
                    Choice {
                        premium: a.name.clone(),
                        premium_rate: find_rate(a),
                        cheap: b.name.clone(),
                        cheap_rate: find_rate(b),
                    },
                )
            } else {
                None
            };
        }
        i = i + 1;
    }
    assert(models.take(i as int) =~= models);
    None
}

proof fn lemma_first_heavy(models: Seq<AccountView>, total_cost: Double, i: int)
    requires
        0 <= i < models.len(),
        first_heavy(models.take(i), total_cost) is None,
        is_heavy(models[i], total_cost),
    ensures
        first_heavy(models, total_cost) == Some(i),
    decreases models.len(),
{
    if i == models.len() - 1 {
        assert(models.drop_last() =~= models.take(i));
    } else {
        assert(models.drop_last().take(i) =~= models.take(i));
        lemma_first_heavy(models.drop_last(), total_cost, i);
    }
}

fn low_risk(category: &String) -> (r: bool)
    ensures
        r == is_low_risk(category@),
{
    let c = category.as_str();
    same(c, "config") || same(c, "research") || same(c, "review") || same(c, "other")
}

fn low_risk_list<'a>(entries: &'a [SessionEntry], model: &String) -> (list: Vec<
    &'a SessionEntry,
>)
    ensures
        list@.unref() == low_risk_on(entries@, model@),
        list@.len() == low_risk_on(entries@, model@).len(),
{
    let mut flags: Vec<bool> = Vec::new();
    let mut i: usize = 0;
    while i < entries.len()
        invariant
            i <= entries@.len(),
            flags@.len() == i,
            forall|j: int|
                0 <= j < i ==> flags@[j] == is_low_risk_on(model@)(#[trigger] entries@[j]),
        decreases entries@.len() - i,
    {
        let e = &entries[i];
        flags.push(low_risk(&category(e)) && used_by(e, model));
        i = i + 1;
    }
    proof {
        lemma_picked_filter(entries@, flags@, is_low_risk_on(model@));
    }
    let list = pick(entries, &flags);
    assert(list@.unref().len() == list@.len());
    list
}

fn find_categories(list: &Vec<&SessionEntry>) -> (used: Vec<String>)
    ensures
        texts(used@) == categories(list@.unref()),
{
    let mut used: Vec<String> = Vec::new();
    let mut i: usize = 0;
    let ghost all = list@.unref();
    assert(texts(used@) =~= categories(all.take(0)));
    while i < list.len()
        invariant
            i <= list@.len(),
            all == list@.unref(),
            texts(used@) == categories(all.take(i as int)),
        decreases list@.len() - i,
    {
        proof {
            assert(all.take(i + 1).drop_last() =~= all.take(i as int));
            assert(all.take(i + 1).last() == *list@[i as int]);
        }
        match &list[i].task_category {
            Some(c) => {
                if !is_listed(&used, c) {
                    let ghost before = used@;
                    used.push(c.clone());
                    assert(texts(used@) =~= texts(before).push(c@));
                }
            },
            None => {},
        }
        i = i + 1;
    }
    assert(all.take(i as int) =~= all);
    used
}

fn is_listed(list: &Vec<String>, s: &String) -> (r: bool)
    ensures
        r == texts(list@).contains(s@),
{
    let mut i: usize = 0;
    while i < list.len()
        invariant
            i <= list@.len(),
            forall|j: int| 0 <= j < i ==> (#[trigger] texts(list@)[j]) != s@,
        decreases list@.len() - i,
    {
        assert(texts(list@)[i as int] == list@[i as int]@);
        if list[i] == *s {
            return true;
        }
        i = i + 1;
    }
    false
}

/// Whether low-risk sessions overuse a model.
fn overused(list: &Vec<&SessionEntry>, total_cost: Double) -> (r: bool)
    requires
        list@.unref().len() == list@.len(),
    ensures
        r == is_overuse(list@.unref(), total_cost),
{
    let cost = total_spend(list);
    num(THREE).at_most(cost) && num(THREE_FIFTHS).less(fraction(cost, total_cost))
}

/// Whether the sums of the rule stay within 64 bits, and it has only numbers to compare.
pub fn is_premium_defined(entries: &[SessionEntry], total_cost: Double) -> (r: bool)
    ensures
        r == premium_defined(entries@, total_cost),
{
    match find_busy(entries) {
        Some(list) => {
            let keys = find_rate_keys(&list);
            assert(keys@.len() == busy_models(entries@).len());
            if keys.len() > 1 {
                let mut i: usize = 0;
                while i < keys.len()
                    invariant
                        i <= keys@.len(),
                        1 < keys@.len(),
                        keys@ == rate_keys(busy_models(entries@)),
                        keys@.len() == busy_models(entries@).len(),
                        forall|j: int| 0 <= j < i ==> !(#[trigger] keys@[j]).amount.is_nan(),
                    decreases keys@.len() - i,
                {
                    if keys[i].amount.nan() {
                        assert(!no_nan(keys@));
                        return false;
                    }
                    i = i + 1;
                }
            }
            match choose_models(&list, total_cost, Ghost(entries@)) {
                Some(c) => {
                    let low = low_risk_list(entries, &c.premium);
                    !overused(&low, total_cost) || checked_total(
                        &low,
                        Measure::InputAndOutput,
                    ).is_some()
                },
                None => true,
            }
        },
        None => false,
    }
}

/// Recommends a cheaper model for low-risk tasks.
pub fn rule_premium_overuse(
    entries: &[SessionEntry],
    summary: &PeriodSummary,
    recs: &mut Vec<Recommendation>,
)
    requires
        premium_defined(entries@, summary.total_cost),
    ensures
        views(final(recs)@) == views(old(recs)@) + premium_findings(entries@, summary.total_cost),
{
    assert(views(recs@) + Seq::<RecommendationView>::empty() =~= views(recs@));
    let list = find_busy(entries).unwrap();
    let c = match choose_models(&list, summary.total_cost, Ghost(entries@)) {
        Some(c) => c,
        None => {
            return;
        },
    };
    let low = low_risk_list(entries, &c.premium);
    if !overused(&low, summary.total_cost) {
        return;
    }
    let cost = total_spend(&low);
    let tokens = checked_total(&low, Measure::InputAndOutput).unwrap();
    let savings_rate = c.premium_rate.minus(c.cheap_rate).larger(num(ZERO));
    let savings = savings_rate.times(Double::from_i64(tokens).over(num(MILLION))).times(num(HALF));
    let used = find_categories(&low);
    let slashed = join(&used, "/");
    let r = Recommendation {
        id: "premium_overuse_low_risk".to_owned(),
        severity: Level::Medium,
        confidence: Level::Medium,
        title: "Route ".to_owned().concat(slashed.as_str()).concat("/ tasks away from ").concat(
            c.premium.as_str(),
        ),
        evidence: vec![
            count(low.len()).concat(" low-risk sessions used ").concat(c.premium.as_str()).concat(
                " ($",
            ).concat(number(cost, 2, false).as_str()).concat(" total)"),
            c.premium.clone().concat(" costs $").concat(
                number(c.premium_rate, 1, false).as_str(),
            ).concat("/M tokens vs ").concat(c.cheap.as_str()).concat(" at $").concat(
                number(c.cheap_rate, 1, false).as_str(),
            ).concat("/M tokens"),
            "Categories: ".to_owned().concat(join(&used, ", ").as_str()),
        ],
        action: "Use ".to_owned().concat(c.cheap.as_str()).concat(
            " as first-pass model for ",
        ).concat(slashed.as_str()).concat(" tasks. Escalate to ").concat(c.premium.as_str()).concat(
            " only when stuck or for complex architecture work.",
        ),
        estimated_savings: Some(savings),
    };
    proof {
        let wanted = premium_finding(entries@, c@);
        assert(texts(r.evidence@) =~= wanted.evidence);
        assert(r@ =~= wanted);
        lemma_views_push(recs@, r);
    }
    recs.push(r);
}

/// Picking accounts keeps their names apart.
proof fn lemma_filter_distinct(list: Seq<AccountView>, test: spec_fn(AccountView) -> bool)
    requires
        forall|i: int, j: int|
            0 <= i < j < list.len() ==> (#[trigger] list[i]).name != (#[trigger] list[j]).name,
    ensures
        forall|i: int, j: int|
            0 <= i < j < list.filter(test).len() ==> (#[trigger] list.filter(test)[i]).name != (
            #[trigger] list.filter(test)[j]).name,
    decreases list.len(),
{
    reveal(Seq::filter);
    if list.len() > 0 {
        let fewer = list.drop_last();
        let last = list.last();
        assert forall|i: int, j: int| 0 <= i < j < fewer.len() implies (#[trigger] fewer[i]).name
            != (#[trigger] fewer[j]).name by {
            assert(fewer[i] == list[i] && fewer[j] == list[j]);
        }
        lemma_filter_distinct(fewer, test);
        let kept = fewer.filter(test);
        let all = list.filter(test);
        assert forall|i: int, j: int| 0 <= i < j < all.len() implies (#[trigger] all[i]).name != (
        #[trigger] all[j]).name by {
            if j < kept.len() {
                assert(all[i] == kept[i] && all[j] == kept[j]);
            } else {
                assert(all[i] == kept[i]);
                assert(kept.contains(kept[i]));
                fewer.lemma_filter_contains_rev(test, kept[i]);
                let k = fewer.index_of(kept[i]);
                assert(list[k] == kept[i]);
                assert(list[list.len() - 1] == last);
            }
        }
    }
}

proof fn lemma_busy_distinct(entries: Seq<SessionEntry>)
    ensures
        forall|i: int, j: int|
            0 <= i < j < busy_models(entries).len() ==> (#[trigger] busy_models(entries)[i]).name
                != (#[trigger] busy_models(entries)[j]).name,
{
    let posted = postings(Basis::ModelTokens, entries);
    let list = accounts(Basis::ModelTokens, entries);
    lemma_names_distinct(posted);
    assert forall|i: int, j: int| 0 <= i < j < list.len() implies (#[trigger] list[i]).name != (
    #[trigger] list[j]).name by {
        lemma_account_name(posted, names(posted)[i]);
        lemma_account_name(posted, names(posted)[j]);
    }
    lemma_filter_distinct(list, is_busy());
}

/// A costly and a cheap model are chosen exactly if some model with more than 10000 tokens takes more
/// than 40% of the spend, and another such model takes as much, or costs less per token, or costs
/// the same and came later.
pub proof fn lemma_models_chosen(entries: Seq<SessionEntry>, total_cost: Double)
    requires
        premium_defined(entries, total_cost),
    ensures
        ({
            let busy = accounts(Basis::ModelTokens, entries).filter(
                |a: AccountView| a.first > 10_000,
            );
            let rate = |a: AccountView| a.cost.over(of_int(a.first).over(num(MILLION)));
            let heavy = |a: AccountView|
                num(TWO_FIFTHS).less(a.cost.over(total_cost.larger(num(THOUSANDTH))));
            choice(entries, total_cost) is Some <==> exists|p: int, q: int|
                0 <= p < busy.len() && 0 <= q < busy.len() && p != q && heavy(#[trigger] busy[p])
                    && (heavy(#[trigger] busy[q]) || rate(busy[q]).less(rate(busy[p])) || (!rate(
                    busy[p],
                ).less(rate(busy[q])) && q > p))
        }),
{
    let busy = busy_models(entries);
    assert(is_busy() =~= |a: AccountView| a.first > 10_000);
    let keys = rate_keys(busy);
    let order = ranking(keys);
    let sorted = by_rate(busy);
    lemma_ranking_arranges(keys, keys.len());
    lemma_first_heavy_bounds(sorted, total_cost);
    lemma_busy_distinct(entries);
    let last = busy.len() - 1;
    if busy.len() > 1 {
        lemma_ranking_sorts(keys);
    }
    if choice(entries, total_cost) is Some {
        let f = first_heavy(sorted, total_cost)->0;
        let (p, q) = (order[f], order[last]);
        assert(0 <= p < busy.len() && 0 <= q < busy.len());
        assert(sorted[f] == busy[p] && sorted[last] == busy[q]);
        assert(f < last);
        assert(keys[p].amount == rate(busy[p]) && keys[q].amount == rate(busy[q]));
        assert(p != q);
    }
    assert forall|p: int, q: int|
        0 <= p < busy.len() && 0 <= q < busy.len() && p != q && is_heavy(
            #[trigger] busy[p],
            total_cost,
        ) && (is_heavy(#[trigger] busy[q], total_cost) || rate(busy[q]).less(rate(busy[p])) || (
        !rate(busy[p]).less(rate(busy[q])) && q > p)) implies choice(
        entries,
        total_cost,
    ) is Some by {
        lemma_arrangement_covers(order, busy.len(), p);
        lemma_arrangement_covers(order, busy.len(), q);
        let ip = choose|i: int| 0 <= i < order.len() && #[trigger] order[i] == p;
        let iq = choose|i: int| 0 <= i < order.len() && #[trigger] order[i] == q;
        assert(sorted[ip] == busy[p] && sorted[iq] == busy[q]);
        assert(keys[p].amount == rate(busy[p]) && keys[q].amount == rate(busy[q]));
        let f = first_heavy(sorted, total_cost)->0;
        assert(first_heavy(sorted, total_cost) is Some && f <= ip);
        if is_heavy(busy[q], total_cost) {
            assert(f <= iq);
        } else if iq < ip {
            assert(order[iq] == q && order[ip] == p);
            assert(false);
        }
        assert(f < last);
        let (x, y) = (order[f], order[last]);
        assert(0 <= x < busy.len() && 0 <= y < busy.len() && x != y);
        assert(sorted[f] == busy[x] && sorted[last] == busy[y]);
        assert(busy[x].name != busy[y].name);
    }
}

/// A finding is of medium severity and would save half of the difference of the rates on the tokens
/// of the low-risk sessions.
pub proof fn lemma_overuse_savings(entries: Seq<SessionEntry>, total_cost: Double)
    ensures
        ({
            let found = premium_findings(entries, total_cost);
            &&& found.len() <= 1
            &&& found.len() == 1 ==> (choice(entries, total_cost) matches Some(c) && {
                let own = low_risk_on(entries, c.premium);
                let tokens = total(own, Measure::Input) + total(own, Measure::Output);
                &&& found[0].severity == Level::Medium
                &&& found[0].confidence == Level::Medium
                &&& found[0].estimated_savings == Some(
                    c.premium_rate.minus(c.cheap_rate).larger(num(ZERO)).times(
                        of_int(tokens).over(num(MILLION)),
                    ).times(num(HALF)),
                )
            })
        }),
{
    match choice(entries, total_cost) {
        Some(c) => lemma_all_tokens(low_risk_on(entries, c.premium)),
        None => {},
    }
}

/// The low-risk sessions on a model are those that used it for configuration, research, review or
/// other tasks; a task without a category is another one.
pub proof fn lemma_low_risk(entries: Seq<SessionEntry>, model: Seq<char>, e: SessionEntry)
    ensures
        low_risk_on(entries, model).contains(e) <==> entries.contains(e) && (exists|i: int|
            0 <= i < e.models_used@.len() && (#[trigger] e.models_used@[i])@ == model) && (
        match e.task_category {
            Some(c) => c@ == "config"@ || c@ == "research"@ || c@ == "review"@ || c@ == "other"@,
            None => true,
        }),
{
    let test = is_low_risk_on(model);
    if entries.contains(e) && test(e) {
        entries.lemma_filter_contains(test, entries.index_of(e));
    }
    if low_risk_on(entries, model).contains(e) {
        entries.lemma_filter_contains_rev(test, e);
        entries.lemma_filter_pred(test, low_risk_on(entries, model).index_of(e));
    }
}

/// The whole dollars that the sessions cost which pass a test.
pub open spec fn dollars_where(
    entries: Seq<SessionEntry>,
    dollars: Seq<int>,
    test: spec_fn(SessionEntry) -> bool,
) -> int
    decreases entries.len(),
{
    if entries.len() == 0 {
        0
    } else {
        dollars_where(entries.drop_last(), dollars.drop_last(), test) + (if test(entries.last()) {
            dollars.last()
        } else {
            0
        })
    }
}

proof fn lemma_fewer_dollars(entries: Seq<SessionEntry>, dollars: Seq<int>)
    requires
        cost_whole_dollars(entries, dollars),
        entries.len() > 0,
    ensures
        cost_whole_dollars(entries.drop_last(), dollars.drop_last()),
        dollars.last() >= 0,
        entries.last().total_cost == of_int(dollars.last()),
{
    let (fewer, less) = (entries.drop_last(), dollars.drop_last());
    assert(dollars[dollars.len() - 1] >= 0);
    assert(entries[entries.len() - 1].total_cost == of_int(dollars[entries.len() - 1]));
    assert forall|i: int| 0 <= i < less.len() implies 0 <= #[trigger] less[i] by {
        assert(dollars[i] >= 0);
    }
    assert forall|i: int| 0 <= i < fewer.len() implies (#[trigger] fewer[i]).total_cost == of_int(
        less[i],
    ) by {
        assert(entries[i].total_cost == of_int(dollars[i]));
    }
}

/// What sessions cost that pass a test, in whole dollars.
pub proof fn lemma_spend_where(
    entries: Seq<SessionEntry>,
    dollars: Seq<int>,
    test: spec_fn(SessionEntry) -> bool,
)
    requires
        cost_whole_dollars(entries, dollars),
    ensures
        0 <= dollars_where(entries, dollars, test) <= whole_sum(dollars),
        same_number(spend(entries.filter(test)), of_int(dollars_where(entries, dollars, test))),
    decreases entries.len(),
{
    reveal(Seq::filter);
    let kept = entries.filter(test);
    if entries.len() > 0 {
        let (fewer, less) = (entries.drop_last(), dollars.drop_last());
        let e = entries.last();
        lemma_fewer_dollars(entries, dollars);
        lemma_spend_where(fewer, less, test);
        let sum = dollars_where(fewer, less, test);
        if test(e) {
            assert(kept =~= fewer.filter(test).push(e));
            assert(kept.drop_last() =~= fewer.filter(test));
            lemma_integer_sum(sum, dollars.last());
            lemma_same_sum(spend(fewer.filter(test)), of_int(sum), of_int(dollars.last()));
        }
    } else {
        assert(kept =~= Seq::<SessionEntry>::empty());
        lemma_integer_exact(0);
        lemma_no_units(0);
        assert(0 * pow2(ONE_EXPONENT as nat) == 0) by (nonlinear_arith);
    }
}

/// Tests of which no session passes both, and tests of which one implies the other.
proof fn lemma_dollars_apart(
    entries: Seq<SessionEntry>,
    dollars: Seq<int>,
    a: spec_fn(SessionEntry) -> bool,
    b: spec_fn(SessionEntry) -> bool,
)
    requires
        cost_whole_dollars(entries, dollars),
    ensures
        (forall|i: int| 0 <= i < entries.len() ==> !(a(#[trigger] entries[i]) && b(entries[i])))
            ==> dollars_where(entries, dollars, a) + dollars_where(entries, dollars, b)
            <= whole_sum(dollars),
        (forall|i: int| 0 <= i < entries.len() && a(#[trigger] entries[i]) ==> b(entries[i]))
            ==> dollars_where(entries, dollars, a) <= dollars_where(entries, dollars, b),
    decreases entries.len(),
{
    if entries.len() > 0 {
        let (fewer, less) = (entries.drop_last(), dollars.drop_last());
        lemma_fewer_dollars(entries, dollars);
        lemma_dollars_apart(fewer, less, a, b);
        assert(entries[entries.len() - 1] == entries.last());
        assert forall|i: int| 0 <= i < fewer.len() implies #[trigger] fewer[i] == entries[i] by {}
    }
}

/// The cost of a busy model, in whole dollars.
proof fn lemma_model_dollars(
    entries: Seq<SessionEntry>,
    dollars: Seq<int>,
    i: int,
)
    requires
        one_model_each(entries),
        cost_whole_dollars(entries, dollars),
        0 <= i < busy_models(entries).len(),
    ensures
        ({
            let a = busy_models(entries)[i];
            same_number(a.cost, of_int(dollars_where(entries, dollars, is_on(a.name))))
        }),
{
    let posted = postings(Basis::ModelTokens, entries);
    let list = accounts(Basis::ModelTokens, entries);
    let a = busy_models(entries)[i];
    assert(busy_models(entries).contains(a));
    list.lemma_filter_contains_rev(is_busy(), a);
    let k = list.index_of(a);
    lemma_account_name(posted, names(posted)[k]);
    lemma_model_accounts(entries, a.name);
    lemma_spend_where(entries, dollars, is_on(a.name));
}

/// With whole dollars and one model for each session: if the low-risk sessions on a model with more
/// than 10000 tokens take more than three fifths of the spend, and $3 at least, and another model
/// with more than 10000 tokens is cheaper per token, there is a finding, on that model.
pub proof fn lemma_whole_overuse(
    entries: Seq<SessionEntry>,
    dollars: Seq<int>,
    p: int,
    q: int,
)
    requires
        one_model_each(entries),
        cost_whole_dollars(entries, dollars),
        0 < whole_sum(dollars) < HIDDEN_BIT / 16,
        premium_defined(entries, of_int(whole_sum(dollars))),
        ({
            let busy = accounts(Basis::ModelTokens, entries).filter(
                |a: AccountView| a.first > 10_000,
            );
            let rate = |a: AccountView| a.cost.over(of_int(a.first).over(num(MILLION)));
            &&& 0 <= p < busy.len()
            &&& 0 <= q < busy.len()
            &&& rate(busy[q]).less(rate(busy[p]))
            &&& 5 * dollars_where(entries, dollars, is_low_risk_on(busy[p].name)) > 3 * whole_sum(
                dollars,
            )
            &&& dollars_where(entries, dollars, is_low_risk_on(busy[p].name)) >= 3
        }),
    ensures
        premium_findings(entries, of_int(whole_sum(dollars))).len() == 1,
        choice(entries, of_int(whole_sum(dollars)))->0.premium == accounts(
            Basis::ModelTokens,
            entries,
        ).filter(|a: AccountView| a.first > 10_000)[p].name,
{
    let all = whole_sum(dollars);
    let total_cost = of_int(all);
    let busy = busy_models(entries);
    assert(is_busy() =~= |a: AccountView| a.first > 10_000);
    let name = busy[p].name;
    let low = dollars_where(entries, dollars, is_low_risk_on(name));
    let own = dollars_where(entries, dollars, is_on(name));
    lemma_whole_limits();
    lemma_fraction_limits();
    lemma_models_chosen(entries, total_cost);
    lemma_dollars_apart(entries, dollars, is_low_risk_on(name), is_on(name));
    assert forall|i: int| 0 <= i < entries.len() && is_low_risk_on(name)(
        #[trigger] entries[i],
    ) implies is_on(name)(entries[i]) by {}
    lemma_spend_where(entries, dollars, is_on(name));
    lemma_spend_where(entries, dollars, is_low_risk_on(name));
    lemma_model_dollars(entries, dollars, p);
    lemma_integer_exact(own);
    lemma_integer_exact(low);
    lemma_integer_exact(all);
    lemma_integer_sum(0, own);
    lemma_integer_sum(0, low);
    lemma_integer_sum(3, low);
    lemma_whole_total(all);
    lemma_positive_whole(own);
    lemma_positive_whole(low);
    lemma_same_positive(busy[p].cost, of_int(own));
    lemma_quotients_compare(2, 5, own, all);
    assert(is_heavy(busy[p], total_cost));
    assert(choice(entries, total_cost) is Some) by {
        assert(p != q);
        let heavy = |a: AccountView|
            num(TWO_FIFTHS).less(a.cost.over(total_cost.larger(num(THOUSANDTH))));
        assert(heavy(busy[p]));
        assert(rate(busy[q]).less(rate(busy[p])));
    }
    lemma_choice(entries, total_cost);
    let c = choice(entries, total_cost)->0;
    let k = choose|k: int|
        0 <= k < busy.len() && (#[trigger] busy[k]).name == c.premium && rate(busy[k])
            == c.premium_rate && is_heavy(busy[k], total_cost);
    if c.premium != name {
        let other = dollars_where(entries, dollars, is_on(c.premium));
        lemma_model_dollars(entries, dollars, k);
        lemma_spend_where(entries, dollars, is_on(c.premium));
        lemma_dollars_apart(entries, dollars, is_on(name), is_on(c.premium));
        lemma_integer_exact(other);
        if other > 0 {
            lemma_positive_whole(other);
            lemma_same_positive(busy[k].cost, of_int(other));
            lemma_quotients_compare(2, 5, other, all);
        } else {
            assert(0 * pow2(ONE_EXPONENT as nat) == 0) by (nonlinear_arith);
            lemma_of_int_positive(all);
            lemma_quotient_sign(busy[k].cost, of_int(all));
            lemma_quotients_compare(0, 1, 2, 5);
            lemma_integer_exact(0);
            lemma_over_one(of_int(0));
        }
        assert(false);
    }
    lemma_same_positive(spend(low_risk_on(entries, name)), of_int(low));
    lemma_quotients_compare(3, 5, low, all);
}

/// A dollar and more is a total of its own.
proof fn lemma_whole_total(n: int)
    requires
        0 < n < HIDDEN_BIT,
    ensures
        of_int(n).larger(num(THOUSANDTH)) == of_int(n),
{
    lemma_fraction_limits();
    lemma_integer_exact(n);
    lemma_over_one(of_int(n));
    lemma_quotients_compare(n, 1, 1, 1000);
}

/// The categories are those of the sessions that have one, each once, in the order of their first
/// occurrence.
pub proof fn lemma_categories(entries: Seq<SessionEntry>, e: SessionEntry)
    ensures
        categories(Seq::empty()).len() == 0,
        e.task_category is None ==> categories(entries.push(e)) == categories(entries),
        e.task_category matches Some(c) ==> (if categories(entries).contains(c@) {
            categories(entries.push(e)) == categories(entries)
        } else {
            categories(entries.push(e)) == categories(entries).push(c@)
        }),
{
    assert(entries.push(e).drop_last() =~= entries);
}

/// The finding names the categories and both models; it gives the number of low-risk sessions on the
/// costly model, what they cost, and what both models cost per million tokens.
pub proof fn lemma_overuse_told(entries: Seq<SessionEntry>, total_cost: Double)
    requires
        premium_findings(entries, total_cost).len() > 0,
    ensures
        ({
            let r = premium_findings(entries, total_cost)[0];
            let c = choice(entries, total_cost)->0;
            let own = low_risk_on(entries, c.premium);
            let used = categories(own);
            &&& r.title == "Route "@ + joined(used, "/"@) + "/ tasks away from "@ + c.premium
            &&& r.evidence.len() == 3
            &&& r.evidence[0] == decimal(own.len()) + " low-risk sessions used "@ + c.premium
                + " ($"@ + number_text(spend(own), 2, false) + " total)"@
            &&& r.evidence[1] == c.premium + " costs $"@ + number_text(c.premium_rate, 1, false)
                + "/M tokens vs "@ + c.cheap + " at $"@ + number_text(c.cheap_rate, 1, false)
                + "/M tokens"@
            &&& r.evidence[2] == "Categories: "@ + joined(used, ", "@)
            &&& r.action == "Use "@ + c.cheap + " as first-pass model for "@ + joined(used, "/"@)
                + " tasks. Escalate to "@ + c.premium
                + " only when stuck or for complex architecture work."@
        }),
{
}

/// There is a finding exactly if two models are chosen and the low-risk sessions on the costly one
/// take more than 60% of the spend, and $3 at least.
pub proof fn lemma_overuse_limits(entries: Seq<SessionEntry>, total_cost: Double)
    ensures
        premium_findings(entries, total_cost).len() == 1 <==> (choice(
            entries,
            total_cost,
        ) matches Some(c) && {
            let own = entries.filter(
                |e: SessionEntry|
                    {
                        &&& match e.task_category {
                            Some(k) => k@ == "config"@ || k@ == "research"@ || k@ == "review"@
                                || k@ == "other"@,
                            None => true,
                        }
                        &&& exists|i: int|
                            0 <= i < e.models_used@.len() && (#[trigger] e.models_used@[i])@
                                == c.premium
                    },
            );
            &&& num(THREE).at_most(spend(own))
            &&& num(THREE_FIFTHS).less(
                spend(own).over(total_cost.larger(num(THOUSANDTH))),
            )
        }),
{
    match choice(entries, total_cost) {
        Some(c) => {
            assert(is_low_risk_on(c.premium) =~= |e: SessionEntry|
                {
                    &&& match e.task_category {
                        Some(k) => k@ == "config"@ || k@ == "research"@ || k@ == "review"@ || k@
                            == "other"@,
                        None => true,
                    }
                    &&& exists|i: int|
                        0 <= i < e.models_used@.len() && (#[trigger] e.models_used@[i])@
                            == c.premium
                });
        },
        None => {},
    }
}

/// The costly model is the dearest per token of those with more than 10000 tokens that take more
/// than 40% of the spend; the cheap one is the cheapest per token of those with more than 10000
/// tokens.
pub proof fn lemma_choice_ranked(entries: Seq<SessionEntry>, total_cost: Double)
    requires
        premium_defined(entries, total_cost),
        choice(entries, total_cost) is Some,
    ensures
        ({
            let busy = accounts(Basis::ModelTokens, entries).filter(
                |a: AccountView| a.first > 10_000,
            );
            let rate = |a: AccountView| a.cost.over(of_int(a.first).over(num(MILLION)));
            let heavy = |a: AccountView|
                num(TWO_FIFTHS).less(a.cost.over(total_cost.larger(num(THOUSANDTH))));
            let c = choice(entries, total_cost)->0;
            &&& exists|p: int|
                0 <= p < busy.len() && (#[trigger] busy[p]).name == c.premium && heavy(busy[p])
                    && rate(busy[p]) == c.premium_rate && forall|i: int|
                    0 <= i < busy.len() && heavy(#[trigger] busy[i]) ==> !c.premium_rate.less(
                        rate(busy[i]),
                    )
            &&& exists|q: int|
                0 <= q < busy.len() && (#[trigger] busy[q]).name == c.cheap && rate(busy[q])
                    == c.cheap_rate && forall|i: int|
                    0 <= i < busy.len() ==> !rate(#[trigger] busy[i]).less(c.cheap_rate)
        }),
{
    let busy = busy_models(entries);
    assert(is_busy() =~= |a: AccountView| a.first > 10_000);
    let keys = rate_keys(busy);
    let order = ranking(keys);
    let sorted = by_rate(busy);
    lemma_ranking_arranges(keys, keys.len());
    lemma_first_heavy_bounds(sorted, total_cost);
    let f = first_heavy(sorted, total_cost)->0;
    let last = busy.len() - 1;
    assert(busy.len() > 1);
    lemma_ranking_sorts(keys);
    let (p, q) = (order[f], order[last]);
    assert(0 <= p < busy.len() && 0 <= q < busy.len());
    assert(sorted[f] == busy[p] && sorted[last] == busy[q]);
    assert(keys[p].amount == rate(busy[p]) && keys[q].amount == rate(busy[q]));
    let c = choice(entries, total_cost)->0;
    assert forall|i: int| 0 <= i < busy.len() && is_heavy(#[trigger] busy[i], total_cost) implies
        !c.premium_rate.less(rate(busy[i])) by {
        lemma_arrangement_covers(order, busy.len(), i);
        let at = choose|x: int| 0 <= x < order.len() && #[trigger] order[x] == i;
        assert(sorted[at] == busy[i]);
        assert(keys[i].amount == rate(busy[i]));
        assert(f <= at);
    }
    assert forall|i: int| 0 <= i < busy.len() implies !rate(#[trigger] busy[i]).less(
        c.cheap_rate,
    ) by {
        lemma_arrangement_covers(order, busy.len(), i);
        let at = choose|x: int| 0 <= x < order.len() && #[trigger] order[x] == i;
        assert(keys[i].amount == rate(busy[i]));
        assert(at <= last);
    }
    assert(is_heavy(busy[p], total_cost));
}

} // verus!
