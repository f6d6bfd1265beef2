//! A single model that nearly all of the spend goes to.

use crate::double::{Double, lemma_units_increase};
use crate::entries::SessionEntry;
use crate::ledger::{
    Account, AccountView, Basis, account_views, accounts, lemma_costs_fit, tally,
};
use crate::numbers::{FIVE, HUNDRED, NINE_TENTHS, THOUSANDTH, ZERO, num};
use crate::recommendation::{Level, Recommendation, RecommendationView, lemma_views_push, views};
use crate::rules::workspaces::enough_spend;
use crate::summary::{
    PeriodSummary, are_comparable, comparable, find_top, fraction, fraction_of, lemma_some_exceeds,
    lemma_top, top,
};
use crate::text::{join, joined, number, number_text, texts};
use vstd::prelude::*;

verus! {

/// The rule has only numbers to compare.
pub open spec fn diversity_defined(entries: Seq<SessionEntry>, total_cost: Double) -> bool {
    enough_spend(entries, total_cost) ==> comparable(accounts(Basis::ModelSpend, entries))
}

/// The model with the highest cost.
pub open spec fn main_model(entries: Seq<SessionEntry>) -> AccountView {
    let all = accounts(Basis::ModelSpend, entries);
    all[top(all)]
}

/// One model accounts for more than 90% of the spend.
pub open spec fn model_dominates(entries: Seq<SessionEntry>, total_cost: Double) -> bool {
    &&& enough_spend(entries, total_cost)
    &&& accounts(Basis::ModelSpend, entries).len() > 0
    &&& num(NINE_TENTHS).less(fraction_of(main_model(entries).cost, total_cost))
}

/// The names of the accounts but for one.
pub open spec fn other_names(all: Seq<AccountView>, name: Seq<char>) -> Seq<Seq<char>>
    decreases all.len(),
{
    if all.len() == 0 {
        Seq::empty()
    } else if all.last().name != name {
        other_names(all.drop_last(), name).push(all.last().name)
    } else {
        other_names(all.drop_last(), name)
    }
}

/// The finding where no other model was used.
pub open spec fn single_model_finding(model: AccountView) -> RecommendationView {
    RecommendationView {
        id: "model_diversity_low"@,
        severity: Level::Low,
        confidence: Level::Medium,
        title: "100% reliance on "@ + model.name,
        evidence: seq![
            "All $"@ + number_text(model.cost, 2, false) + " spent on a single model"@,
            "Single-model dependency creates risk if the provider has outages or price changes"@,
        ],
        action: "Consider configuring a fallback model for resilience. Even occasional use of an alternative reduces vendor lock-in risk."@,
        estimated_savings: None,
    }
}

/// The finding where other models were used, too.
pub open spec fn main_model_finding(
    entries: Seq<SessionEntry>,
    total_cost: Double,
) -> RecommendationView {
    let model = main_model(entries);
    let others = other_names(accounts(Basis::ModelSpend, entries), model.name);
    RecommendationView {
        id: "model_diversity_low"@,
        severity: Level::Low,
        confidence: Level::Medium,
        title: model.name + " accounts for "@ + number_text(
            fraction_of(model.cost, total_cost).times(num(HUNDRED)),
            0,
            false,
        ) + "% of spend"@,
        evidence: seq![
            "$"@ + number_text(model.cost, 2, false) + " of $"@ + number_text(total_cost, 2, false)
                + " total on "@ + model.name,
            "Other available models: "@ + joined(others, ", "@),
            "High concentration creates outage/pricing risk"@,
        ],
        action: "Route simpler tasks to "@ + (if others.len() > 0 {
            others[0]
        } else {
            "a cheaper model"@
        }) + " for cost savings and resilience. Reserve "@ + model.name
            + " for complex architecture and debugging."@,
        estimated_savings: None,
    }
}

pub open spec fn diversity_findings(
    entries: Seq<SessionEntry>,
    total_cost: Double,
) -> Seq<RecommendationView> {
    if model_dominates(entries, total_cost) {
        if accounts(Basis::ModelSpend, entries).len() == 1 {
            seq![single_model_finding(main_model(entries))]
        } else {
            seq![main_model_finding(entries, total_cost)]
        }
    } else {
        Seq::empty()
    }
}

/// Among five sessions or more that cost $5 at least, the rule finds something exactly if some
/// model accounts for more than 90% of the spend.
pub proof fn lemma_dominant_model(entries: Seq<SessionEntry>, total_cost: Double)
    requires
        diversity_defined(entries, total_cost),
        enough_spend(entries, total_cost),
    ensures
        diversity_findings(entries, total_cost).len() > 0 <==> exists|i: int|
            0 <= i < accounts(Basis::ModelSpend, entries).len() && num(NINE_TENTHS).less(
                fraction_of(
                    (#[trigger] accounts(Basis::ModelSpend, entries)[i]).cost,
                    total_cost,
                ),
            ),
{
    lemma_units_increase(0, NINE_TENTHS as nat);
    assert(num(ZERO).value() == 0);
    lemma_some_exceeds(accounts(Basis::ModelSpend, entries), total_cost, num(NINE_TENTHS));
}

/// Whether the rule has only numbers to compare.
pub fn is_diversity_defined(entries: &[SessionEntry], total_cost: Double) -> (r: bool)
    ensures
        r == diversity_defined(entries@, total_cost),
{
    proof {
        lemma_costs_fit(Basis::ModelSpend, entries@);
    }
    entries.len() < 5 || total_cost.less(num(FIVE)) || are_comparable(
        &tally(Basis::ModelSpend, entries).unwrap(),
    )
}

fn names_but(list: &Vec<Account>, name: &String) -> (others: Vec<String>)
    ensures
        texts(others@) == other_names(account_views(list@), name@),
{
    let mut others: Vec<String> = Vec::new();
    let mut i: usize = 0;
    let ghost all = account_views(list@);
    assert(texts(others@) =~= other_names(all.take(0), name@));
    while i < list.len()
        invariant
            i <= list@.len(),
            all == account_views(list@),
            texts(others@) == other_names(all.take(i as int), name@),
        decreases list@.len() - i,
    {
        proof {
            assert(all[i as int] == list@[i as int]@);
            assert(all.take(i + 1).drop_last() =~= all.take(i as int));
        }
        if list[i].name != *name {
            let ghost before = others@;
            others.push(list[i].name.clone());
            assert(texts(others@) =~= texts(before).push(list@[i as int].name@));
        }
        i = i + 1;
    }
    assert(all.take(i as int) =~= all);
    others
}

/// Points out a model that everything depends on.
pub fn rule_model_diversity_low(
    entries: &[SessionEntry],
    summary: &PeriodSummary,
    recs: &mut Vec<Recommendation>,
)
    requires
        diversity_defined(entries@, summary.total_cost),
    ensures
        views(final(recs)@) == views(old(recs)@) + diversity_findings(
            entries@,
            summary.total_cost,
        ),
{
    assert(views(recs@) + Seq::<RecommendationView>::empty() =~= views(recs@));
    if entries.len() < 5 || summary.total_cost.less(num(FIVE)) {
        return;
    }
    proof {
        lemma_costs_fit(Basis::ModelSpend, entries@);
    }
    let list = tally(Basis::ModelSpend, entries).unwrap();
    assert(account_views(list@).len() == list@.len());
    if list.len() == 0 {
        return;
    }
    let best = find_top(&list);
    let model = &list[best];
    assert(account_views(list@)[best as int] == model@);
    let share = fraction(model.cost, summary.total_cost);
    if !num(NINE_TENTHS).less(share) {
        return;
    }
    if list.len() == 1 {
        let r = Recommendation {
            id: "model_diversity_low".to_owned(),
            severity: Level::Low,
            confidence: Level::Medium,
            title: "100% reliance on ".to_owned().concat(model.name.as_str()),
            evidence: vec![
                "All $".to_owned().concat(number(model.cost, 2, false).as_str()).concat(
                    " spent on a single model",
                ),
                "Single-model dependency creates risk if the provider has outages or price changes".to_owned(),
            ],
            action: "Consider configuring a fallback model for resilience. Even occasional use of an alternative reduces vendor lock-in risk.".to_owned(),
            estimated_savings: None,
        };
        proof {
            let wanted = single_model_finding(model@);
            assert(texts(r.evidence@) =~= wanted.evidence);
            assert(r@ =~= wanted);
            lemma_views_push(recs@, r);
        }
        recs.push(r);
        return;
    }
    let others = names_but(&list, &model.name);
    assert(texts(others@).len() == others@.len());
    let first = if others.len() > 0 {
        assert(texts(others@)[0] == others@[0]@);
        others[0].clone()
    } else {
        "a cheaper model".to_owned()
    };
    let r = Recommendation {
        id: "model_diversity_low".to_owned(),
        severity: Level::Low,
        confidence: Level::Medium,
        title: model.name.clone().concat(" accounts for ").concat(
            number(share.times(num(HUNDRED)), 0, false).as_str(),
        ).concat("% of spend"),
        evidence: vec![
            "$".to_owned().concat(number(model.cost, 2, false).as_str()).concat(" of $").concat(
                number(summary.total_cost, 2, false).as_str(),
            ).concat(" total on ").concat(model.name.as_str()),
            "Other available models: ".to_owned().concat(join(&others, ", ").as_str()),
            "High concentration creates outage/pricing risk".to_owned(),
        ],
        action: "Route simpler tasks to ".to_owned().concat(first.as_str()).concat(
            " for cost savings and resilience. Reserve ",
        ).concat(model.name.as_str()).concat(" for complex architecture and debugging."),
        estimated_savings: None,
    };
    proof {
        let wanted = main_model_finding(entries@, summary.total_cost);
        assert(texts(r.evidence@) =~= wanted.evidence);
        assert(r@ =~= wanted);
        lemma_views_push(recs@, r);
    }
    recs.push(r);
}

/// There is a finding exactly if there are five sessions and $5 at least, and some model accounts
/// for more than 90% of the spend. It has no estimate.
pub proof fn lemma_reliance_found(entries: Seq<SessionEntry>, total_cost: Double)
    requires
        diversity_defined(entries, total_cost),
    ensures
        ({
            let models = accounts(Basis::ModelSpend, entries);
            let found = diversity_findings(entries, total_cost);
            &&& found.len() > 0 <==> entries.len() >= 5 && !total_cost.less(num(FIVE))
                && exists|i: int|
                0 <= i < models.len() && num(NINE_TENTHS).less(
                    (#[trigger] models[i]).cost.over(total_cost.larger(num(THOUSANDTH))),
                )
            &&& found.len() <= 1
            &&& found.len() == 1 ==> found[0].severity == Level::Low && found[0].confidence
                == Level::Medium && found[0].estimated_savings is None
        }),
{
    let models = accounts(Basis::ModelSpend, entries);
    if entries.len() >= 5 && !total_cost.less(num(FIVE)) {
        lemma_dominant_model(entries, total_cost);
        assert forall|i: int| 0 <= i < models.len() implies fraction_of(
            (#[trigger] models[i]).cost,
            total_cost,
        ) == models[i].cost.over(total_cost.larger(num(THOUSANDTH))) by {}
    }
}

/// The other names are those of all accounts, in their order, but for the one that is left out.
pub proof fn lemma_other_names(all: Seq<AccountView>, name: Seq<char>)
    ensures
        other_names(all, name) == all.filter(|a: AccountView| a.name != name).map_values(
            |a: AccountView| a.name,
        ),
    decreases all.len(),
{
    reveal(Seq::filter);
    let test = |a: AccountView| a.name != name;
    if all.len() > 0 {
        lemma_other_names(all.drop_last(), name);
        let earlier = all.drop_last().filter(test);
        if all.last().name != name {
            assert(all.filter(test) =~= earlier.push(all.last()));
        }
        assert(other_names(all, name) =~= all.filter(test).map_values(|a: AccountView| a.name));
    } else {
        assert(other_names(all, name) =~= all.filter(test).map_values(|a: AccountView| a.name));
    }
}

/// The finding is about the model with the highest cost. Where it is the only one, the finding says
/// so and what it cost; else it gives its part of the spend in percent and in dollars, names the
/// other models, and suggests the first of them.
pub proof fn lemma_reliance_told(entries: Seq<SessionEntry>, total_cost: Double)
    requires
        diversity_defined(entries, total_cost),
        diversity_findings(entries, total_cost).len() > 0,
    ensures
        ({
            let r = diversity_findings(entries, total_cost)[0];
            let models = accounts(Basis::ModelSpend, entries);
            exists|t: int|
                {
                    let main = #[trigger] models[t];
                    let others = models.filter(|a: AccountView| a.name != main.name).map_values(
                        |a: AccountView| a.name,
                    );
                    &&& 0 <= t < models.len()
                    &&& forall|i: int|
                        0 <= i < models.len() ==> !main.cost.less((#[trigger] models[i]).cost)
                    &&& models.len() == 1 ==> r.title == "100% reliance on "@ + main.name
                        && r.evidence[0] == "All $"@ + number_text(main.cost, 2, false)
                        + " spent on a single model"@
                    &&& models.len() > 1 ==> {
                        &&& r.title == main.name + " accounts for "@ + number_text(
                            main.cost.over(total_cost.larger(num(THOUSANDTH))).times(num(HUNDRED)),
                            0,
                            false,
                        ) + "% of spend"@
                        &&& r.evidence[0] == "$"@ + number_text(main.cost, 2, false) + " of $"@
                            + number_text(total_cost, 2, false) + " total on "@ + main.name
                        &&& r.evidence[1] == "Other available models: "@ + joined(others, ", "@)
                        &&& others.len() > 0 ==> r.action == "Route simpler tasks to "@ + others[0]
                            + " for cost savings and resilience. Reserve "@ + main.name
                            + " for complex architecture and debugging."@
                    }
                }
        }),
{
    let models = accounts(Basis::ModelSpend, entries);
    lemma_top(models);
    let t = top(models);
    lemma_other_names(models, models[t].name);
    assert(main_model(entries) == models[t]);
}

} // verus!
