//! A single workspace that most of the spend goes to.

use crate::double::{Double, lemma_units_increase};
use crate::entries::SessionEntry;
use crate::ledger::{
    AccountView, Basis, account_views, accounts, lemma_costs_fit, tally,
};
use crate::numbers::{FIVE, HUNDRED, SEVEN_TENTHS, THOUSANDTH, ZERO, num};
use crate::recommendation::{Level, Recommendation, RecommendationView, lemma_views_push, views};
use crate::summary::{
    PeriodSummary, are_comparable, comparable, find_top, fraction, fraction_of, lemma_some_exceeds,
    lemma_top, top,
};
use crate::text::{count, decimal, number, number_text, texts};
use vstd::prelude::*;

verus! {

/// At least five sessions and $5.
pub open spec fn enough_spend(entries: Seq<SessionEntry>, total_cost: Double) -> bool {
    entries.len() >= 5 && !total_cost.less(num(FIVE))
}

/// The rule has only numbers to compare.
pub open spec fn workspaces_defined(entries: Seq<SessionEntry>, total_cost: Double) -> bool {
    enough_spend(entries, total_cost) ==> comparable(accounts(Basis::Workspace, entries))
}

pub open spec fn top_workspace(entries: Seq<SessionEntry>) -> AccountView {
    let all = accounts(Basis::Workspace, entries);
    all[top(all)]
}

/// There are two workspaces at least, and one accounts for more than 70% of the spend.
pub open spec fn workspace_dominates(entries: Seq<SessionEntry>, total_cost: Double) -> bool {
    &&& enough_spend(entries, total_cost)
    &&& accounts(Basis::Workspace, entries).len() > 1
    &&& num(SEVEN_TENTHS).less(fraction_of(top_workspace(entries).cost, total_cost))
}

pub open spec fn workspaces_finding(
    entries: Seq<SessionEntry>,
    total_cost: Double,
) -> RecommendationView {
    let ws = top_workspace(entries);
    RecommendationView {
        id: "workspace_concentration"@,
        severity: Level::Low,
        confidence: Level::High,
        title: "\""@ + ws.name + "\" accounts for "@ + number_text(
            fraction_of(ws.cost, total_cost).times(num(HUNDRED)),
            0,
            false,
        ) + "% of spend"@,
        evidence: seq![
            "$"@ + number_text(ws.cost, 2, false) + " across "@ + decimal(ws.count)
                + " sessions in this workspace"@,
            "Total spend: $"@ + number_text(total_cost, 2, false) + " across "@ + decimal(
                accounts(Basis::Workspace, entries).len(),
            ) + " workspaces"@,
            "High concentration means a single project drives most of your bill"@,
        ],
        action: "Review whether \""@ + ws.name
            + "\" has specific inefficiencies (large context, expensive model choice, or runaway sessions). Consider workspace-specific model routing rules."@,
        estimated_savings: None,
    }
}

pub open spec fn workspaces_findings(
    entries: Seq<SessionEntry>,
    total_cost: Double,
) -> Seq<RecommendationView> {
    if workspace_dominates(entries, total_cost) {
        seq![workspaces_finding(entries, total_cost)]
    } else {
        Seq::empty()
    }
}

/// Among five sessions or more that cost $5 at least, in two workspaces or more, the rule finds
/// something exactly if some workspace accounts for more than 70% of the spend.
pub proof fn lemma_dominant_workspace(entries: Seq<SessionEntry>, total_cost: Double)
    requires
        workspaces_defined(entries, total_cost),
        enough_spend(entries, total_cost),
        accounts(Basis::Workspace, entries).len() > 1,
    ensures
        workspaces_findings(entries, total_cost).len() > 0 <==> exists|i: int|
            0 <= i < accounts(Basis::Workspace, entries).len() && num(SEVEN_TENTHS).less(
                fraction_of((#[trigger] accounts(Basis::Workspace, entries)[i]).cost, total_cost),
            ),
{
    lemma_units_increase(0, SEVEN_TENTHS as nat);
    assert(num(ZERO).value() == 0);
    lemma_some_exceeds(accounts(Basis::Workspace, entries), total_cost, num(SEVEN_TENTHS));
}

/// Whether the rule has only numbers to compare.
pub fn is_workspaces_defined(entries: &[SessionEntry], total_cost: Double) -> (r: bool)
    ensures
        r == workspaces_defined(entries@, total_cost),
{
    proof {
        lemma_costs_fit(Basis::Workspace, entries@);
    }
    entries.len() < 5 || total_cost.less(num(FIVE)) || are_comparable(
        &tally(Basis::Workspace, entries).unwrap(),
    )
}

/// Points out a workspace that dominates the bill.
pub fn rule_workspace_concentration(
    entries: &[SessionEntry],
    summary: &PeriodSummary,
    recs: &mut Vec<Recommendation>,
)
    requires
        workspaces_defined(entries@, summary.total_cost),
    ensures
        views(final(recs)@) == views(old(recs)@) + workspaces_findings(
            entries@,
            summary.total_cost,
        ),
{
    assert(views(recs@) + Seq::<RecommendationView>::empty() =~= views(recs@));
    if entries.len() < 5 || summary.total_cost.less(num(FIVE)) {
        return;
    }
    proof {
        lemma_costs_fit(Basis::Workspace, entries@);
    }
    let list = tally(Basis::Workspace, entries).unwrap();
    assert(account_views(list@).len() == list@.len());
    if list.len() <= 1 {
        return;
    }
    let best = find_top(&list);
    let ws = &list[best];
    assert(account_views(list@)[best as int] == ws@);
    let share = fraction(ws.cost, summary.total_cost);
    if num(SEVEN_TENTHS).less(share) {
        let r = Recommendation {
            id: "workspace_concentration".to_owned(),
            severity: Level::Low,
            confidence: Level::High,
            title: "\"".to_owned().concat(ws.name.as_str()).concat("\" accounts for ").concat(
                number(share.times(num(HUNDRED)), 0, false).as_str(),
            ).concat("% of spend"),
            evidence: vec![
                "$".to_owned().concat(number(ws.cost, 2, false).as_str()).concat(" across ").concat(
                    count(ws.count).as_str(),
                ).concat(" sessions in this workspace"),
                "Total spend: $".to_owned().concat(
                    number(summary.total_cost, 2, false).as_str(),
                ).concat(" across ").concat(count(list.len()).as_str()).concat(" workspaces"),
                "High concentration means a single project drives most of your bill".to_owned(),
            ],
            action: "Review whether \"".to_owned().concat(ws.name.as_str()).concat(
                "\" has specific inefficiencies (large context, expensive model choice, or runaway sessions). Consider workspace-specific model routing rules.",
            ),
            estimated_savings: None,
        };
        proof {
            let wanted = workspaces_finding(entries@, summary.total_cost);
            assert(texts(r.evidence@) =~= wanted.evidence);
            assert(r@ =~= wanted);
            lemma_views_push(recs@, r);
        }
        recs.push(r);
    }
}

/// There is a finding exactly if there are five sessions and $5 at least, in two workspaces at least,
/// and some workspace accounts for more than 70% of the spend. It has no estimate.
pub proof fn lemma_concentration_found(entries: Seq<SessionEntry>, total_cost: Double)
    requires
        workspaces_defined(entries, total_cost),
    ensures
        ({
            let places = accounts(Basis::Workspace, entries);
            let found = workspaces_findings(entries, total_cost);
            &&& found.len() > 0 <==> entries.len() >= 5 && !total_cost.less(num(FIVE))
                && places.len() >= 2 && exists|i: int|
                0 <= i < places.len() && num(SEVEN_TENTHS).less(
                    (#[trigger] places[i]).cost.over(total_cost.larger(num(THOUSANDTH))),
                )
            &&& found.len() <= 1
            &&& found.len() == 1 ==> found[0].severity == Level::Low && found[0].confidence
                == Level::High && found[0].estimated_savings is None
        }),
{
    let places = accounts(Basis::Workspace, entries);
    if entries.len() >= 5 && !total_cost.less(num(FIVE)) && places.len() >= 2 {
        lemma_dominant_workspace(entries, total_cost);
        assert forall|i: int| 0 <= i < places.len() implies fraction_of(
            (#[trigger] places[i]).cost,
            total_cost,
        ) == places[i].cost.over(total_cost.larger(num(THOUSANDTH))) by {}
    }
}

/// The finding is about the workspace with the highest cost, and gives its part of the spend in
/// percent and in dollars, the number of its sessions, all spend and the number of workspaces.
pub proof fn lemma_concentration_told(entries: Seq<SessionEntry>, total_cost: Double)
    requires
        workspaces_defined(entries, total_cost),
        workspaces_findings(entries, total_cost).len() > 0,
    ensures
        ({
            let r = workspaces_findings(entries, total_cost)[0];
            let places = accounts(Basis::Workspace, entries);
            exists|t: int|
                {
                    let main = #[trigger] places[t];
                    &&& 0 <= t < places.len()
                    &&& forall|i: int|
                        0 <= i < places.len() ==> !main.cost.less((#[trigger] places[i]).cost)
                    &&& r.title == "\""@ + main.name + "\" accounts for "@ + number_text(
                        main.cost.over(total_cost.larger(num(THOUSANDTH))).times(num(HUNDRED)),
                        0,
                        false,
                    ) + "% of spend"@
                    &&& r.evidence[0] == "$"@ + number_text(main.cost, 2, false) + " across "@
                        + decimal(main.count) + " sessions in this workspace"@
                    &&& r.evidence[1] == "Total spend: $"@ + number_text(total_cost, 2, false)
                        + " across "@ + decimal(places.len()) + " workspaces"@
                }
        }),
{
    let places = accounts(Basis::Workspace, entries);
    lemma_top(places);
    let t = top(places);
    assert(top_workspace(entries) == places[t]);
}

} // verus!
