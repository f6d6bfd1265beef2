//! The report of an advisor: figures, changes and recommendations.

use crate::double::Double;
use crate::entries::{SessionEntry, all, optional_entries, spend, total_spend};
use crate::recommendation::{
    Recommendation, RecommendationView, by_rank, lemma_by_rank_arranges, lemma_by_rank_extends,
    sort_recommendations, views,
};
use crate::rules::cache_miss::{
    cache_miss_defined, cache_miss_findings, is_cache_miss_defined, misses_cache,
    model_workspace_accounts, rule_cache_miss,
};
use crate::rules::cost_per_task::{cost_per_task_findings, rule_cost_per_task_regression};
use crate::rules::diversity::{
    diversity_defined, diversity_findings, is_diversity_defined, rule_model_diversity_low,
};
use crate::rules::efficiency::{
    efficiency_defined, efficiency_findings, is_efficiency_defined, rule_token_efficiency_decline,
};
use crate::rules::idle_context::{
    idle_context_defined, idle_context_findings, is_idle_context_defined, rule_idle_context_bloat,
};
use crate::rules::night_owl::{
    are_hours_of, needed_hours, night_owl_findings, noons, rule_night_owl_at,
};
use crate::rules::output_waste::{
    is_output_waste_defined, output_waste_defined, output_waste_findings, rule_output_waste,
};
use crate::rules::premium::{
    is_premium_defined, premium_defined, premium_findings, rule_premium_overuse,
};
use crate::rules::runaway::{
    is_runaway_defined, rule_runaway_sessions, runaway_defined, runaway_findings,
};
use crate::rules::short_sessions::{rule_short_session_churn, short_sessions_findings};
use crate::rules::spend_spike::{optional_view, rule_spend_spike, spend_spike_findings};
use crate::rules::workspaces::{
    is_workspaces_defined, rule_workspace_concentration, workspaces_defined, workspaces_findings,
};
use crate::summary::{
    PeriodDelta, PeriodDeltaView, PeriodSummary, PeriodSummaryView, compute_deltas,
    compute_period_summary, delta_of, is_summary_defined, summary_defined, summary_of,
};
use vstd::prelude::*;

verus! {

/// What an advisor has to say of a period.
#[derive(Debug)]
pub struct AdvisorReport {
    pub current_period: PeriodSummary,
    pub previous_period: Option<PeriodSummary>,
    pub deltas: Option<PeriodDelta>,
    pub recommendations: Vec<Recommendation>,
}

#[verifier::ext_equal]
pub struct AdvisorReportView {
    pub current_period: PeriodSummaryView,
    pub previous_period: Option<PeriodSummaryView>,
    pub deltas: Option<PeriodDeltaView>,
    pub recommendations: Seq<RecommendationView>,
}

impl View for AdvisorReport {
    type V = AdvisorReportView;

    open spec fn view(&self) -> AdvisorReportView {
        AdvisorReportView {
            current_period: self.current_period@,
            previous_period: optional_view(self.previous_period),
            deltas: match self.deltas {
                Some(d) => Some(d@),
                None => None,
            },
            recommendations: views(self.recommendations@),
        }
    }
}

/// The figures of a previous period with sessions.
pub open spec fn previous_summary(
    previous: Option<Seq<SessionEntry>>,
) -> Option<PeriodSummaryView> {
    match previous {
        Some(p) => if p.len() > 0 {
            Some(summary_of(p))
        } else {
            None
        },
        None => None,
    }
}

/// What the rules of both advisors find.
pub open spec fn basic_findings(
    current: Seq<SessionEntry>,
    previous: Option<Seq<SessionEntry>>,
) -> Seq<RecommendationView> {
    cache_miss_findings(current) + premium_findings(current, spend(current))
        + spend_spike_findings(summary_of(current), previous_summary(previous))
        + runaway_findings(current, spend(current))
}

/// What all rules find; `hours` are the hours at which the sessions began.
pub open spec fn all_findings(
    current: Seq<SessionEntry>,
    previous: Option<Seq<SessionEntry>>,
    hours: Seq<u32>,
) -> Seq<RecommendationView> {
    basic_findings(current, previous) + idle_context_findings(current) + diversity_findings(
        current,
        spend(current),
    ) + short_sessions_findings(current) + night_owl_findings(current, hours)
        + workspaces_findings(current, spend(current)) + output_waste_findings(current)
        + efficiency_findings(current, previous) + cost_per_task_findings(current, previous)
}

/// The report with given findings.
pub open spec fn report_of(
    current: Seq<SessionEntry>,
    previous: Option<Seq<SessionEntry>>,
    findings: Seq<RecommendationView>,
) -> AdvisorReportView {
    AdvisorReportView {
        current_period: summary_of(current),
        previous_period: previous_summary(previous),
        deltas: match previous_summary(previous) {
            Some(p) => Some(delta_of(summary_of(current), p, current, previous->0)),
            None => None,
        },
        recommendations: by_rank(findings),
    }
}

/// The figures and the rules of both advisors can be computed.
pub open spec fn optimize_defined(
    current: Seq<SessionEntry>,
    previous: Option<Seq<SessionEntry>>,
) -> bool {
    &&& current.len() <= i64::MAX
    &&& previous matches Some(p) ==> p.len() <= i64::MAX && (p.len() > 0 ==> summary_defined(p))
    &&& summary_defined(current)
    &&& cache_miss_defined(current)
    &&& premium_defined(current, spend(current))
    &&& runaway_defined(current)
}

/// All figures and rules can be computed.
pub open spec fn diagnose_defined(
    current: Seq<SessionEntry>,
    previous: Option<Seq<SessionEntry>>,
) -> bool {
    &&& optimize_defined(current, previous)
    &&& idle_context_defined(current)
    &&& diversity_defined(current, spend(current))
    &&& workspaces_defined(current, spend(current))
    &&& output_waste_defined(current)
    &&& efficiency_defined(current, previous)
}

/// Changes are reported exactly if there are figures to compare with, and there are exactly if the
/// previous period has sessions.
pub proof fn lemma_changes_reported(
    current: Seq<SessionEntry>,
    previous: Option<Seq<SessionEntry>>,
    findings: Seq<RecommendationView>,
)
    ensures
        ({
            let report = report_of(current, previous, findings);
            &&& report.deltas is Some <==> report.previous_period is Some
            &&& report.previous_period is Some <==> (previous matches Some(p) && p.len() > 0)
        }),
{
}

/// The ids of findings, in the order in which the rules are applied.
pub open spec fn rule_ids() -> Seq<Seq<char>> {
    seq![
        "cache_miss_expensive"@,
        "premium_overuse_low_risk"@,
        "spend_spike"@,
        "runaway_sessions"@,
        "idle_context_bloat"@,
        "model_diversity_low"@,
        "short_session_churn"@,
        "night_owl_premium"@,
        "workspace_concentration"@,
        "output_waste"@,
        "token_efficiency_decline"@,
        "cost_per_task_regression"@,
    ]
}

proof fn lemma_rule_ids()
    ensures
        rule_ids().len() == 12,
        rule_ids().no_duplicates(),
{
    reveal_strlit("cache_miss_expensive");
    reveal_strlit("premium_overuse_low_risk");
    reveal_strlit("spend_spike");
    reveal_strlit("runaway_sessions");
    reveal_strlit("idle_context_bloat");
    reveal_strlit("model_diversity_low");
    reveal_strlit("short_session_churn");
    reveal_strlit("night_owl_premium");
    reveal_strlit("workspace_concentration");
    reveal_strlit("output_waste");
    reveal_strlit("token_efficiency_decline");
    reveal_strlit("cost_per_task_regression");
    let ids = rule_ids();
    assert forall|i: int, j: int| 0 <= i < ids.len() && 0 <= j < ids.len() && i != j implies ids[i]
        != ids[j] by {
        assert(ids[i].len() != ids[j].len() || ids[i][0] != ids[j][0]);
    }
}

/// Findings have ids of the first `n` rules, and only the first rule has more than one.
#[verifier::opaque]
spec fn found_by_first(findings: Seq<RecommendationView>, n: int) -> bool {
    &&& forall|i: int|
        0 <= i < findings.len() ==> exists|m: int|
            0 <= m < n && (#[trigger] findings[i]).id == #[trigger] rule_ids()[m]
    &&& forall|i: int, j: int|
        #![trigger findings[i], findings[j]]
        0 <= i < j < findings.len() && findings[i].id == findings[j].id ==> findings[i].id
            == rule_ids()[0]
}

proof fn lemma_next_rule(
    earlier: Seq<RecommendationView>,
    own: Seq<RecommendationView>,
    n: int,
)
    requires
        1 <= n < 12,
        found_by_first(earlier, n),
        one_at_most(own, rule_ids()[n]),
    ensures
        found_by_first(earlier + own, n + 1),
{
    reveal(found_by_first);
    reveal(one_at_most);
    lemma_rule_ids();
    let both = earlier + own;
    assert forall|i: int| 0 <= i < both.len() implies exists|m: int|
        0 <= m < n + 1 && (#[trigger] both[i]).id == #[trigger] rule_ids()[m] by {
        if i < earlier.len() {
            assert(both[i] == earlier[i]);
            let m = choose|m: int| 0 <= m < n && earlier[i].id == #[trigger] rule_ids()[m];
            assert(both[i].id == rule_ids()[m]);
        } else {
            assert(both[i].id == rule_ids()[n]);
        }
    }
    assert forall|i: int, j: int|
        #![trigger both[i], both[j]]
        0 <= i < j < both.len() && both[i].id == both[j].id implies both[i].id == rule_ids()[0] by {
        assert(both[i] == earlier[i]);
        if j < earlier.len() {
            assert(both[j] == earlier[j]);
        } else {
            let m = choose|m: int| 0 <= m < n && earlier[i].id == #[trigger] rule_ids()[m];
            assert(rule_ids()[m] != rule_ids()[n]);
        }
    }
}

/// One finding at most, with a given id.
#[verifier::opaque]
spec fn one_at_most(findings: Seq<RecommendationView>, id: Seq<char>) -> bool {
    findings.len() <= 1 && (findings.len() == 1 ==> findings[0].id == id)
}

proof fn lemma_cache_miss_ids(current: Seq<SessionEntry>)
    ensures
        forall|i: int|
            0 <= i < cache_miss_findings(current).len() ==> (#[trigger] cache_miss_findings(
                current,
            )[i]).id == rule_ids()[0],
        cache_miss_findings(current).len() <= model_workspace_accounts(current).len(),
{
    model_workspace_accounts(current).lemma_filter_len(misses_cache());
}

proof fn lemma_premium_id(current: Seq<SessionEntry>, cost: Double)
    ensures
        one_at_most(premium_findings(current, cost), rule_ids()[1]),
{
    reveal(one_at_most);
}

proof fn lemma_spend_spike_id(current: PeriodSummaryView, previous: Option<PeriodSummaryView>)
    ensures
        one_at_most(spend_spike_findings(current, previous), rule_ids()[2]),
{
    reveal(one_at_most);
}

proof fn lemma_runaway_id(current: Seq<SessionEntry>, cost: Double)
    ensures
        one_at_most(runaway_findings(current, cost), rule_ids()[3]),
{
    reveal(one_at_most);
}

proof fn lemma_idle_context_id(current: Seq<SessionEntry>)
    ensures
        one_at_most(idle_context_findings(current), rule_ids()[4]),
{
    reveal(one_at_most);
}

proof fn lemma_session_ids(current: Seq<SessionEntry>, hours: Seq<u32>, cost: Double)
    ensures
        one_at_most(diversity_findings(current, cost), rule_ids()[5]),
        one_at_most(short_sessions_findings(current), rule_ids()[6]),
        one_at_most(night_owl_findings(current, hours), rule_ids()[7]),
{
    reveal(one_at_most);
}

proof fn lemma_other_ids(
    current: Seq<SessionEntry>,
    previous: Option<Seq<SessionEntry>>,
    cost: Double,
)
    ensures
        one_at_most(workspaces_findings(current, cost), rule_ids()[8]),
        one_at_most(output_waste_findings(current), rule_ids()[9]),
        one_at_most(efficiency_findings(current, previous), rule_ids()[10]),
        one_at_most(cost_per_task_findings(current, previous), rule_ids()[11]),
{
    reveal(one_at_most);
}

/// Each rule has one finding at most, but for the rule on caching, which has one at most for each
/// pair of a model and a workspace.
pub proof fn lemma_one_finding_each(
    current: Seq<SessionEntry>,
    previous: Option<Seq<SessionEntry>>,
    hours: Seq<u32>,
)
    ensures
        ({
            let findings = all_findings(current, previous, hours);
            &&& forall|i: int|
                0 <= i < findings.len() ==> rule_ids().contains((#[trigger] findings[i]).id)
            &&& forall|i: int, j: int|
                #![trigger findings[i], findings[j]]
                0 <= i < j < findings.len() && findings[i].id == findings[j].id ==> findings[i].id
                    == "cache_miss_expensive"@
            &&& cache_miss_findings(current).len() <= model_workspace_accounts(current).len()
        }),
{
    let cost = spend(current);
    lemma_cache_miss_ids(current);
    lemma_premium_id(current, cost);
    lemma_spend_spike_id(summary_of(current), previous_summary(previous));
    lemma_runaway_id(current, cost);
    lemma_idle_context_id(current);
    lemma_session_ids(current, hours, cost);
    lemma_other_ids(current, previous, cost);
    lemma_chain(
        cache_miss_findings(current),
        premium_findings(current, cost),
        spend_spike_findings(summary_of(current), previous_summary(previous)),
        runaway_findings(current, cost),
        idle_context_findings(current),
        diversity_findings(current, cost),
        short_sessions_findings(current),
        night_owl_findings(current, hours),
        workspaces_findings(current, cost),
        output_waste_findings(current),
        efficiency_findings(current, previous),
        cost_per_task_findings(current, previous),
    );
    lemma_found_by_rules(all_findings(current, previous, hours));
}

proof fn lemma_first_ids(findings: Seq<RecommendationView>)
    requires
        forall|i: int| 0 <= i < findings.len() ==> (#[trigger] findings[i]).id == rule_ids()[0],
    ensures
        found_by_first(findings, 1),
{
    reveal(found_by_first);
    let ids = rule_ids();
    assert forall|i: int| 0 <= i < findings.len() implies exists|m: int|
        0 <= m < 1 && (#[trigger] findings[i]).id == #[trigger] rule_ids()[m] by {
        assert(findings[i].id == ids[0]);
    }
    assert forall|i: int, j: int|
        #![trigger findings[i], findings[j]]
        0 <= i < j < findings.len() && findings[i].id == findings[j].id implies findings[i].id
        == rule_ids()[0] by {
        assert(findings[i].id == ids[0]);
    }
}

/// Findings of the first rule, and then of the others, one of each at most.
proof fn lemma_chain(
    a: Seq<RecommendationView>,
    b: Seq<RecommendationView>,
    c: Seq<RecommendationView>,
    d: Seq<RecommendationView>,
    e: Seq<RecommendationView>,
    f: Seq<RecommendationView>,
    g: Seq<RecommendationView>,
    h: Seq<RecommendationView>,
    k: Seq<RecommendationView>,
    l: Seq<RecommendationView>,
    m: Seq<RecommendationView>,
    n: Seq<RecommendationView>,
)
    requires
        forall|i: int| 0 <= i < a.len() ==> (#[trigger] a[i]).id == rule_ids()[0],
        one_at_most(b, rule_ids()[1]),
        one_at_most(c, rule_ids()[2]),
        one_at_most(d, rule_ids()[3]),
        one_at_most(e, rule_ids()[4]),
        one_at_most(f, rule_ids()[5]),
        one_at_most(g, rule_ids()[6]),
        one_at_most(h, rule_ids()[7]),
        one_at_most(k, rule_ids()[8]),
        one_at_most(l, rule_ids()[9]),
        one_at_most(m, rule_ids()[10]),
        one_at_most(n, rule_ids()[11]),
    ensures
        found_by_first(a + b + c + d + e + f + g + h + k + l + m + n, 12),
{
    lemma_first_ids(a);
    lemma_next_rule(a, b, 1);
    lemma_next_rule(a + b, c, 2);
    lemma_next_rule(a + b + c, d, 3);
    lemma_next_rule(a + b + c + d, e, 4);
    lemma_next_rule(a + b + c + d + e, f, 5);
    lemma_next_rule(a + b + c + d + e + f, g, 6);
    lemma_next_rule(a + b + c + d + e + f + g, h, 7);
    lemma_next_rule(a + b + c + d + e + f + g + h, k, 8);
    lemma_next_rule(a + b + c + d + e + f + g + h + k, l, 9);
    lemma_next_rule(a + b + c + d + e + f + g + h + k + l, m, 10);
    lemma_next_rule(a + b + c + d + e + f + g + h + k + l + m, n, 11);
}

/// Has the id of one of the rules that both advisors apply.
pub open spec fn is_basic() -> spec_fn(RecommendationView) -> bool {
    |r: RecommendationView| rule_ids().take(4).contains(r.id)
}

/// Findings have ids of the rules that only one advisor applies.
#[verifier::opaque]
spec fn found_by_others(findings: Seq<RecommendationView>) -> bool {
    forall|i: int|
        0 <= i < findings.len() ==> exists|m: int|
            4 <= m < 12 && (#[trigger] findings[i]).id == #[trigger] rule_ids()[m]
}

proof fn lemma_next_other(
    earlier: Seq<RecommendationView>,
    own: Seq<RecommendationView>,
    n: int,
)
    requires
        4 <= n < 12,
        found_by_others(earlier),
        one_at_most(own, rule_ids()[n]),
    ensures
        found_by_others(earlier + own),
{
    reveal(found_by_others);
    reveal(one_at_most);
    let both = earlier + own;
    assert forall|i: int| 0 <= i < both.len() implies exists|m: int|
        4 <= m < 12 && (#[trigger] both[i]).id == #[trigger] rule_ids()[m] by {
        if i < earlier.len() {
            assert(both[i] == earlier[i]);
            let m = choose|m: int| 4 <= m < 12 && earlier[i].id == #[trigger] rule_ids()[m];
            assert(both[i].id == rule_ids()[m]);
        } else {
            assert(both[i].id == rule_ids()[n]);
        }
    }
}

proof fn lemma_basic_or_not(basic: Seq<RecommendationView>, others: Seq<RecommendationView>)
    requires
        found_by_first(basic, 4),
        found_by_others(others),
    ensures
        forall|i: int| 0 <= i < basic.len() ==> is_basic()(#[trigger] basic[i]),
        forall|i: int| 0 <= i < others.len() ==> !is_basic()(#[trigger] others[i]),
{
    reveal(found_by_first);
    reveal(found_by_others);
    lemma_rule_ids();
    let few = rule_ids().take(4);
    assert forall|i: int| 0 <= i < basic.len() implies is_basic()(#[trigger] basic[i]) by {
        let m = choose|m: int| 0 <= m < 4 && basic[i].id == #[trigger] rule_ids()[m];
        assert(few[m] == basic[i].id);
    }
    assert forall|i: int| 0 <= i < others.len() implies !is_basic()(#[trigger] others[i]) by {
        let m = choose|m: int| 4 <= m < 12 && others[i].id == #[trigger] rule_ids()[m];
        if few.contains(others[i].id) {
            let j = few.index_of(others[i].id);
            assert(few[j] == rule_ids()[j]);
            assert(rule_ids()[j] != rule_ids()[m]);
        }
    }
}

/// Sorted, the findings of all rules hold those of the first four in the order that these have
/// alone.
proof fn lemma_first_four(
    a: Seq<RecommendationView>,
    b: Seq<RecommendationView>,
    c: Seq<RecommendationView>,
    d: Seq<RecommendationView>,
    e: Seq<RecommendationView>,
    f: Seq<RecommendationView>,
    g: Seq<RecommendationView>,
    h: Seq<RecommendationView>,
    k: Seq<RecommendationView>,
    l: Seq<RecommendationView>,
    m: Seq<RecommendationView>,
    n: Seq<RecommendationView>,
)
    requires
        forall|i: int| 0 <= i < a.len() ==> (#[trigger] a[i]).id == rule_ids()[0],
        one_at_most(b, rule_ids()[1]),
        one_at_most(c, rule_ids()[2]),
        one_at_most(d, rule_ids()[3]),
        one_at_most(e, rule_ids()[4]),
        one_at_most(f, rule_ids()[5]),
        one_at_most(g, rule_ids()[6]),
        one_at_most(h, rule_ids()[7]),
        one_at_most(k, rule_ids()[8]),
        one_at_most(l, rule_ids()[9]),
        one_at_most(m, rule_ids()[10]),
        one_at_most(n, rule_ids()[11]),
    ensures
        by_rank(a + b + c + d + e + f + g + h + k + l + m + n).filter(is_basic()) == by_rank(a + b + c + d),
{
    lemma_first_ids(a);
    lemma_next_rule(a, b, 1);
    lemma_next_rule(a + b, c, 2);
    lemma_next_rule(a + b + c, d, 3);
    assert(found_by_others(Seq::empty())) by {
        reveal(found_by_others);
    }
    lemma_next_other(Seq::empty(), e, 4);
    assert(Seq::empty() + e =~= e);
    lemma_next_other(e, f, 5);
    lemma_next_other(e + f, g, 6);
    lemma_next_other(e + f + g, h, 7);
    lemma_next_other(e + f + g + h, k, 8);
    lemma_next_other(e + f + g + h + k, l, 9);
    lemma_next_other(e + f + g + h + k + l, m, 10);
    lemma_next_other(e + f + g + h + k + l + m, n, 11);
    let others = e + f + g + h + k + l + m + n;
    lemma_basic_or_not(a + b + c + d, others);
    lemma_by_rank_extends(a + b + c + d, others, is_basic());
    assert(a + b + c + d + e + f + g + h + k + l + m + n =~= (a + b + c + d) + others);
}

/// On the same sessions the two advisors report the same figures, and what `optimize` recommends
/// is what `diagnose` recommends under the ids of their common rules, in the same order.
pub proof fn lemma_diagnose_extends_optimize(
    current: Seq<SessionEntry>,
    previous: Option<Seq<SessionEntry>>,
    hours: Seq<u32>,
)
    ensures
        ({
            let small = report_of(current, previous, basic_findings(current, previous));
            let full = report_of(current, previous, all_findings(current, previous, hours));
            &&& small.current_period == full.current_period
            &&& small.previous_period == full.previous_period
            &&& small.deltas == full.deltas
            &&& small.recommendations == full.recommendations.filter(is_basic())
        }),
{
    let cost = spend(current);
    lemma_cache_miss_ids(current);
    lemma_premium_id(current, cost);
    lemma_spend_spike_id(summary_of(current), previous_summary(previous));
    lemma_runaway_id(current, cost);
    lemma_idle_context_id(current);
    lemma_session_ids(current, hours, cost);
    lemma_other_ids(current, previous, cost);
    lemma_first_four(
        cache_miss_findings(current),
        premium_findings(current, cost),
        spend_spike_findings(summary_of(current), previous_summary(previous)),
        runaway_findings(current, cost),
        idle_context_findings(current),
        diversity_findings(current, cost),
        short_sessions_findings(current),
        night_owl_findings(current, hours),
        workspaces_findings(current, cost),
        output_waste_findings(current),
        efficiency_findings(current, previous),
        cost_per_task_findings(current, previous),
    );
}

proof fn lemma_found_by_rules(findings: Seq<RecommendationView>)
    requires
        found_by_first(findings, 12),
    ensures
        forall|i: int|
            0 <= i < findings.len() ==> rule_ids().contains((#[trigger] findings[i]).id),
        forall|i: int, j: int|
            #![trigger findings[i], findings[j]]
            0 <= i < j < findings.len() && findings[i].id == findings[j].id ==> findings[i].id
                == "cache_miss_expensive"@,
{
    reveal(found_by_first);
    lemma_rule_ids();
    assert forall|i: int| 0 <= i < findings.len() implies rule_ids().contains(
        (#[trigger] findings[i]).id,
    ) by {
        let r = choose|r: int| 0 <= r < 12 && findings[i].id == #[trigger] rule_ids()[r];
        assert(rule_ids()[r] == findings[i].id);
    }
}

/// Whether `optimize` can make a report.
pub fn is_optimize_defined(current: &[SessionEntry], previous: Option<&[SessionEntry]>) -> (r: bool)
    ensures
        r == optimize_defined(current@, optional_entries(previous)),
{
    if current.len() as u64 > i64::MAX as u64 {
        return false;
    }
    match previous {
        Some(p) => {
            if p.len() as u64 > i64::MAX as u64 || (p.len() > 0 && !is_summary_defined(p)) {
                return false;
            }
        },
        None => {},
    }
    is_summary_defined(current) && is_cache_miss_defined(current) && is_premium_defined(
        current,
        total_spend(&all(current)),
    ) && is_runaway_defined(current)
}

/// Whether `diagnose` can make a report.
pub fn is_diagnose_defined(current: &[SessionEntry], previous: Option<&[SessionEntry]>) -> (r: bool)
    ensures
        r == diagnose_defined(current@, optional_entries(previous)),
{
    let cost = total_spend(&all(current));
    is_optimize_defined(current, previous) && is_idle_context_defined(current)
        && is_diversity_defined(current, cost) && is_workspaces_defined(current, cost)
        && is_output_waste_defined(current) && is_efficiency_defined(current, previous)
}

/// The figures of a previous period, if it has sessions.
fn summarize_previous(previous: Option<&[SessionEntry]>) -> (summary: Option<PeriodSummary>)
    requires
        previous matches Some(p) ==> p@.len() > 0 ==> summary_defined(p@),
    ensures
        optional_view(summary) == previous_summary(optional_entries(previous)),
{
    match previous {
        Some(p) => if p.len() > 0 {
            Some(compute_period_summary(p))
        } else {
            None
        },
        None => None,
    }
}

/// Applies the rules of both advisors.
fn apply_basic_rules(
    current: &[SessionEntry],
    summary: &PeriodSummary,
    previous_period: &Option<PeriodSummary>,
    Ghost(previous): Ghost<Option<Seq<SessionEntry>>>,
) -> (recs: Vec<Recommendation>)
    requires
        optimize_defined(current@, previous),
        summary@ == summary_of(current@),
        optional_view(*previous_period) == previous_summary(previous),
    ensures
        views(recs@) == basic_findings(current@, previous),
{
    let mut recs: Vec<Recommendation> = Vec::new();
    assert(views(recs@) =~= Seq::<RecommendationView>::empty());
    assert(Seq::<RecommendationView>::empty() + cache_miss_findings(current@)
        =~= cache_miss_findings(current@));
    rule_cache_miss(current, &mut recs);
    rule_premium_overuse(current, summary, &mut recs);
    rule_spend_spike(summary, previous_period, &mut recs);
    rule_runaway_sessions(current, summary, &mut recs);
    recs
}

/// Puts a report together.
fn assemble(
    current: &[SessionEntry],
    previous: Option<&[SessionEntry]>,
    current_period: PeriodSummary,
    previous_period: Option<PeriodSummary>,
    recs: Vec<Recommendation>,
) -> (report: AdvisorReport)
    requires
        optimize_defined(current@, optional_entries(previous)),
        current_period@ == summary_of(current@),
        optional_view(previous_period) == previous_summary(optional_entries(previous)),
    ensures
        report@ == report_of(current@, optional_entries(previous), views(recs@)),
{
    let deltas = match (&previous_period, previous) {
        (Some(p), Some(entries)) => Some(compute_deltas(&current_period, p, current, entries)),
        _ => None,
    };
    let recommendations = sort_recommendations(recs);
    AdvisorReport { current_period, previous_period, deltas, recommendations }
}

/// Reports on a period with the rules on caching, model choice, spend and runaway sessions.
pub fn optimize(current: &[SessionEntry], previous: Option<&[SessionEntry]>) -> (report:
    AdvisorReport)
    requires
        optimize_defined(current@, optional_entries(previous)),
    ensures
        report@ == report_of(
            current@,
            optional_entries(previous),
            basic_findings(current@, optional_entries(previous)),
        ),
{
    let summary = compute_period_summary(current);
    let previous_period = summarize_previous(previous);
    let recs = apply_basic_rules(
        current,
        &summary,
        &previous_period,
        Ghost(optional_entries(previous)),
    );
    assemble(current, previous, summary, previous_period, recs)
}

/// Reports on a period with all rules, for given starting hours of the sessions.
pub fn diagnose_at(
    current: &[SessionEntry],
    previous: Option<&[SessionEntry]>,
    hours: &Vec<u32>,
) -> (report: AdvisorReport)
    requires
        diagnose_defined(current@, optional_entries(previous)),
        hours@.len() == current@.len(),
    ensures
        report@ == report_of(
            current@,
            optional_entries(previous),
            all_findings(current@, optional_entries(previous), hours@),
        ),
{
    let summary = compute_period_summary(current);
    let previous_period = summarize_previous(previous);
    let mut recs = apply_basic_rules(
        current,
        &summary,
        &previous_period,
        Ghost(optional_entries(previous)),
    );
    rule_idle_context_bloat(current, &mut recs);
    rule_model_diversity_low(current, &summary, &mut recs);
    rule_short_session_churn(current, &mut recs);
    rule_night_owl_at(current, hours, &mut recs);
    rule_workspace_concentration(current, &summary, &mut recs);
    rule_output_waste(current, &mut recs);
    rule_token_efficiency_decline(current, previous, &mut recs);
    rule_cost_per_task_regression(current, previous, &mut recs);
    assemble(current, previous, summary, previous_period, recs)
}

/// Reports on a period with all rules.
pub fn diagnose(current: &[SessionEntry], previous: Option<&[SessionEntry]>) -> (report:
    AdvisorReport)
    requires
        diagnose_defined(current@, optional_entries(previous)),
    ensures
        exists|hours: Seq<u32>|
            #[trigger] are_hours_of(current@, hours) && report@ == report_of(
                current@,
                optional_entries(previous),
                all_findings(current@, optional_entries(previous), hours),
            ),
        current@.len() < 10 ==> report@ == report_of(
            current@,
            optional_entries(previous),
            all_findings(current@, optional_entries(previous), noons(current@.len())),
        ),
{
    let hours = needed_hours(current);
    let report = diagnose_at(current, previous, &hours);
    assert(are_hours_of(current@, hours@));
    report
}

/// The full report recommends all that each rule finds, and nothing else: `optimize` what the rules
/// on caching, model choice, spend and runaway sessions find, `diagnose` what all rules find.
pub proof fn lemma_all_rules_reported(
    current: Seq<SessionEntry>,
    previous: Option<Seq<SessionEntry>>,
    hours: Seq<u32>,
    r: RecommendationView,
)
    ensures
        ({
            let cost = spend(current);
            let then = match previous {
                Some(p) => if p.len() > 0 {
                    Some(summary_of(p))
                } else {
                    None
                },
                None => None,
            };
            let small = report_of(current, previous, basic_findings(current, previous));
            let full = report_of(current, previous, all_findings(current, previous, hours));
            let basic = cache_miss_findings(current).contains(r) || premium_findings(
                current,
                cost,
            ).contains(r) || spend_spike_findings(summary_of(current), then).contains(r)
                || runaway_findings(current, cost).contains(r);
            &&& small.recommendations.contains(r) <==> basic
            &&& full.recommendations.contains(r) <==> basic || idle_context_findings(
                current,
            ).contains(r) || diversity_findings(current, cost).contains(r)
                || short_sessions_findings(current).contains(r) || night_owl_findings(
                current,
                hours,
            ).contains(r) || workspaces_findings(current, cost).contains(r)
                || output_waste_findings(current).contains(r) || efficiency_findings(
                current,
                previous,
            ).contains(r) || cost_per_task_findings(current, previous).contains(r)
        }),
{
    let cost = spend(current);
    lemma_by_rank_arranges(basic_findings(current, previous));
    lemma_by_rank_arranges(all_findings(current, previous, hours));
    let a = cache_miss_findings(current);
    let b = premium_findings(current, cost);
    let c = spend_spike_findings(summary_of(current), previous_summary(previous));
    let d = runaway_findings(current, cost);
    let e = idle_context_findings(current);
    let f = diversity_findings(current, cost);
    let g = short_sessions_findings(current);
    let h = night_owl_findings(current, hours);
    let k = workspaces_findings(current, cost);
    let l = output_waste_findings(current);
    let m = efficiency_findings(current, previous);
    let n = cost_per_task_findings(current, previous);
    lemma_in_both(a, b, r);
    lemma_in_both(a + b, c, r);
    lemma_in_both(a + b + c, d, r);
    lemma_in_both(a + b + c + d, e, r);
    lemma_in_both(a + b + c + d + e, f, r);
    lemma_in_both(a + b + c + d + e + f, g, r);
    lemma_in_both(a + b + c + d + e + f + g, h, r);
    lemma_in_both(a + b + c + d + e + f + g + h, k, r);
    lemma_in_both(a + b + c + d + e + f + g + h + k, l, r);
    lemma_in_both(a + b + c + d + e + f + g + h + k + l, m, r);
    lemma_in_both(a + b + c + d + e + f + g + h + k + l + m, n, r);
}

proof fn lemma_in_both(
    a: Seq<RecommendationView>,
    b: Seq<RecommendationView>,
    r: RecommendationView,
)
    ensures
        (a + b).contains(r) <==> a.contains(r) || b.contains(r),
{
    if a.contains(r) {
        let i = a.index_of(r);
        assert((a + b)[i] == r);
    }
    if b.contains(r) {
        let i = b.index_of(r);
        assert((a + b)[a.len() + i] == r);
    }
    if (a + b).contains(r) {
        let i = (a + b).index_of(r);
        if i < a.len() {
            assert(a[i] == r);
        } else {
            assert(b[i - a.len()] == r);
        }
    }
}

/// The report has the figures of both periods and how they differ; those of the previous period are
/// left out where it has no sessions.
pub proof fn lemma_figures_reported(
    current: Seq<SessionEntry>,
    previous: Seq<SessionEntry>,
    findings: Seq<RecommendationView>,
)
    ensures
        ({
            let report = report_of(current, Some(previous), findings);
            &&& report.current_period == summary_of(current)
            &&& previous.len() > 0 ==> report.previous_period == Some(summary_of(previous))
            &&& previous.len() > 0 ==> report.deltas == Some(
                delta_of(summary_of(current), summary_of(previous), current, previous),
            )
            &&& previous.len() == 0 ==> report.previous_period is None && report.deltas is None
            &&& report_of(current, None, findings).current_period == summary_of(current)
        }),
{
}

} // verus!
