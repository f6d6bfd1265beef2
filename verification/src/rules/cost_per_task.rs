//! Task categories whose sessions cost more than they did in the previous period.

use crate::double::{
    Double, lemma_integer_exact, lemma_integer_sum, lemma_of_int_positive, lemma_quotient_sign,
    lemma_times_nonzero, lemma_units_increase, of_int,
};
use crate::entries::{SessionEntry, optional_entries, spend};
use crate::exact::{
    lemma_fraction_limits, lemma_over_one, lemma_positive_whole, lemma_quotients_compare,
    lemma_same_positive, lemma_same_quotient, lemma_whole_difference, lemma_whole_limits,
};
use crate::ledger::{
    Account, AccountView, Basis, account, account_views, accounts, find, is_of_category, ledger,
    lemma_account_absent, lemma_account_name, lemma_charged_name, lemma_costs_fit,
    lemma_group_accounts, names, postings, tally,
};
use crate::numbers::{HALF, HUNDRED, TWO_FIFTHS, ZERO, num};
use crate::ranking::{
    Key, as_ints, lemma_arrangement_covers, lemma_ranking_arranges, lemma_ranking_sorts, rank,
    ranking,
};
use crate::recommendation::{Level, Recommendation, RecommendationView, lemma_views_push, views};
use crate::rounding::{HIDDEN_BIT, ONE_EXPONENT};
use crate::rules::efficiency::both_periods_busy;
use crate::text::{count, decimal, join, joined, number, number_text, texts};
use vstd::arithmetic::power2::pow2;
use vstd::prelude::*;

verus! {

/// A category and its average costs per session.
#[derive(Debug)]
pub struct Regression {
    pub category: String,
    pub sessions: usize,
    pub now: Double,
    pub before: Double,
}

pub struct RegressionView {
    pub category: Seq<char>,
    pub sessions: nat,
    pub now: Double,
    pub before: Double,
}

impl View for Regression {
    type V = RegressionView;

    open spec fn view(&self) -> RegressionView {
        RegressionView {
            category: self.category@,
            sessions: self.sessions as nat,
            now: self.now,
            before: self.before,
        }
    }
}

pub open spec fn regression_views(list: Seq<Regression>) -> Seq<RegressionView> {
    list.map_values(|r: Regression| r@)
}

/// What a category costs per session.
pub open spec fn average(a: AccountView) -> Double {
    a.cost.over(of_int(a.count as int))
}

/// The two averages of a category.
pub open spec fn compared(a: AccountView, previous: Seq<SessionEntry>) -> RegressionView {
    RegressionView {
        category: a.name,
        sessions: a.count,
        now: average(a),
        before: average(account(postings(Basis::Category, previous), a.name)),
    }
}

/// How much more a session costs.
pub open spec fn excess(r: RegressionView) -> Double {
    r.now.minus(r.before)
}

/// The same, relative to what it cost before.
pub open spec fn relative_excess(r: RegressionView) -> Double {
    excess(r).over(r.before)
}

/// How much more all sessions of the category cost.
pub open spec fn total_excess(r: RegressionView) -> Double {
    excess(r).times(of_int(r.sessions as int))
}

/// At least three sessions, two in the previous period; more than 50% and $0.50 dearer.
pub open spec fn regressed(a: AccountView, previous: Seq<SessionEntry>) -> bool {
    let r = compared(a, previous);
    &&& a.count >= 3
    &&& account(postings(Basis::Category, previous), a.name).count >= 2
    &&& !r.before.at_most(num(ZERO))
    &&& num(HALF).less(relative_excess(r))
    &&& num(HALF).less(excess(r))
}

/// The categories among `all` that regressed.
pub open spec fn regressions(
    all: Seq<AccountView>,
    previous: Seq<SessionEntry>,
) -> Seq<RegressionView>
    decreases all.len(),
{
    if all.len() == 0 {
        Seq::empty()
    } else if regressed(all.last(), previous) {
        regressions(all.drop_last(), previous).push(compared(all.last(), previous))
    } else {
        regressions(all.drop_last(), previous)
    }
}

pub open spec fn impact_keys(list: Seq<RegressionView>) -> Seq<Key> {
    list.map_values(|r: RegressionView| Key { class: 0, amount: total_excess(r) })
}

/// Regressions, those first that cost most.
pub open spec fn by_impact(list: Seq<RegressionView>) -> Seq<RegressionView> {
    ranking(impact_keys(list)).map_values(|i: int| list[i])
}

/// The regressions of a period, those first that cost most.
pub open spec fn worst_first(
    current: Seq<SessionEntry>,
    previous: Seq<SessionEntry>,
) -> Seq<RegressionView> {
    by_impact(regressions(accounts(Basis::Category, current), previous))
}

pub open spec fn regression_text(r: RegressionView) -> Seq<char> {
    r.category + " ("@ + number_text(relative_excess(r).times(num(HUNDRED)), 0, true) + "%)"@
}

/// The second and the third regression.
pub open spec fn next_two(list: Seq<RegressionView>) -> Seq<Seq<char>> {
    list.subrange(1, if list.len() < 3 { list.len() as int } else { 3 }).map_values(
        |r: RegressionView| regression_text(r),
    )
}

pub open spec fn cost_per_task_evidence(list: Seq<RegressionView>) -> Seq<Seq<char>> {
    let worst = list[0];
    let percent = relative_excess(worst).times(num(HUNDRED));
    let basic = seq![
        "\""@ + worst.category + "\" tasks: $"@ + number_text(worst.before, 2, false)
            + "/session → $"@ + number_text(worst.now, 2, false) + "/session ("@ + number_text(
            percent,
            0,
            true,
        ) + "%)"@,
        decimal(worst.sessions) + " sessions this period, excess cost: $"@ + number_text(
            total_excess(worst),
            2,
            false,
        ),
    ];
    if list.len() > 1 {
        basic.push("Also regressed: "@ + joined(next_two(list), ", "@))
    } else {
        basic
    }
}

pub open spec fn cost_per_task_finding(list: Seq<RegressionView>) -> RecommendationView {
    let worst = list[0];
    RecommendationView {
        id: "cost_per_task_regression"@,
        severity: Level::Medium,
        confidence: Level::High,
        title: "\""@ + worst.category + "\" tasks cost "@ + number_text(
            relative_excess(worst).times(num(HUNDRED)),
            0,
            false,
        ) + "% more per session than last period"@,
        evidence: cost_per_task_evidence(list),
        action: "Investigate why \""@ + worst.category
            + "\" tasks became more expensive. Common causes: model upgrade, larger codebase context, more complex requirements, or switching from a cheaper model. Compare session lengths and models used."@,
        estimated_savings: Some(total_excess(worst).times(num(TWO_FIFTHS))),
    }
}

/// A finding if both periods have five sessions at least and some category regressed.
pub open spec fn cost_per_task_findings(
    current: Seq<SessionEntry>,
    previous: Option<Seq<SessionEntry>>,
) -> Seq<RecommendationView> {
    if both_periods_busy(current, previous) && worst_first(current, previous->0).len() > 0 {
        seq![cost_per_task_finding(worst_first(current, previous->0))]
    } else {
        Seq::empty()
    }
}

/// Whatever regressed is dearer by more than half and by more than $0.50 a session.
proof fn lemma_regressions(all: Seq<AccountView>, previous: Seq<SessionEntry>)
    ensures
        forall|i: int|
            0 <= i < regressions(all, previous).len() ==> {
                let r = #[trigger] regressions(all, previous)[i];
                &&& num(HALF).less(excess(r))
                &&& num(HALF).less(relative_excess(r))
                &&& r.sessions >= 3
                &&& !total_excess(r).is_nan()
            },
    decreases all.len(),
{
    if all.len() > 0 {
        let fewer = regressions(all.drop_last(), previous);
        lemma_regressions(all.drop_last(), previous);
        assert forall|i: int| 0 <= i < regressions(all, previous).len() implies {
            let r = #[trigger] regressions(all, previous)[i];
            &&& num(HALF).less(excess(r))
            &&& num(HALF).less(relative_excess(r))
            &&& r.sessions >= 3
            &&& !total_excess(r).is_nan()
        } by {
            let r = regressions(all, previous)[i];
            if i < fewer.len() {
                assert(r == fewer[i]);
            } else {
                lemma_units_increase(0, HALF as nat);
                lemma_of_int_positive(r.sessions as int);
                lemma_times_nonzero(excess(r), of_int(r.sessions as int));
            }
        }
    }
}

/// Every regression that the rule may name is of a category that became dearer by more than half
/// and by more than $0.50 a session, over three sessions at least; the one in its title costs no
/// less in all than any other.
pub proof fn lemma_worst_first(current: Seq<SessionEntry>, previous: Seq<SessionEntry>)
    ensures
        ({
            let list = worst_first(current, previous);
            &&& list.len() == regressions(accounts(Basis::Category, current), previous).len()
            &&& forall|i: int|
                0 <= i < list.len() ==> {
                    let r = #[trigger] list[i];
                    &&& num(HALF).less(excess(r))
                    &&& num(HALF).less(relative_excess(r))
                    &&& r.sessions >= 3
                    &&& total_excess(r).at_most(total_excess(list[0]))
                }
        }),
{
    let found = regressions(accounts(Basis::Category, current), previous);
    let keys = impact_keys(found);
    let order = ranking(keys);
    let list = worst_first(current, previous);
    lemma_regressions(accounts(Basis::Category, current), previous);
    assert forall|i: int| 0 <= i < keys.len() implies !(#[trigger] keys[i]).amount.is_nan() by {
        assert(!total_excess(found[i]).is_nan());
    }
    lemma_ranking_sorts(keys);
    assert forall|i: int| 0 <= i < list.len() implies {
        let r = #[trigger] list[i];
        &&& num(HALF).less(excess(r))
        &&& num(HALF).less(relative_excess(r))
        &&& r.sessions >= 3
        &&& total_excess(r).at_most(total_excess(list[0]))
    } by {
        assert(0 <= order[i] < found.len() && 0 <= order[0] < found.len());
        assert(list[i] == found[order[i]] && list[0] == found[order[0]]);
        assert(keys[order[i]].amount == total_excess(list[i]));
        assert(keys[order[0]].amount == total_excess(list[0]));
        assert(!keys[order[i]].amount.is_nan() && !keys[order[0]].amount.is_nan());
    }
}

/// The regression of one category, if there is one.
fn compare_category(
    a: &Account,
    then: &Vec<Account>,
    Ghost(previous): Ghost<Seq<SessionEntry>>,
) -> (r: Option<Regression>)
    requires
        account_views(then@) == accounts(Basis::Category, previous),
    ensures
        r is Some <==> regressed(a@, previous),
        r matches Some(c) ==> c@ == compared(a@, previous),
{
    let ghost posted = postings(Basis::Category, previous);
    let ghost known = names(posted);
    proof {
        assert(account_views(then@).len() == known.len());
        assert forall|j: int| 0 <= j < then@.len() implies (#[trigger] then@[j])@ == account(
            posted,
            known[j],
        ) && then@[j].name@ == known[j] by {
            assert(account_views(then@)[j] == ledger(posted)[j]);
            lemma_account_name(posted, known[j]);
        }
    }
    if a.count < 3 {
        return None;
    }
    let now = a.cost.over(Double::from_usize(a.count));
    match find(then, &a.name) {
        Some(i) => {
            let b = &then[i];
            if b.count < 2 {
                return None;
            }
            let before = b.cost.over(Double::from_usize(b.count));
            if before.at_most(num(ZERO)) {
                return None;
            }
            let more = now.minus(before);
            if num(HALF).less(more.over(before)) && num(HALF).less(more) {
                Some(Regression { category: a.name.clone(), sessions: a.count, now, before })
            } else {
                None
            }
        },
        None => {
            proof {
                lemma_account_absent(posted, a.name@);
                if known.contains(a.name@) {
                    let j = known.index_of(a.name@);
                    assert(then@[j].name@ == known[j]);
                }
            }
            None
        },
    }
}

fn find_regressions(current: &[SessionEntry], previous: &[SessionEntry]) -> (list: Vec<Regression>)
    ensures
        regression_views(list@) == regressions(accounts(Basis::Category, current@), previous@),
{
    proof {
        lemma_costs_fit(Basis::Category, current@);
        lemma_costs_fit(Basis::Category, previous@);
    }
    let now = tally(Basis::Category, current).unwrap();
    let then = tally(Basis::Category, previous).unwrap();
    let ghost all = accounts(Basis::Category, current@);
    let mut list: Vec<Regression> = Vec::new();
    let mut i: usize = 0;
    assert(account_views(now@).len() == all.len());
    assert(regression_views(list@) =~= regressions(all.take(0), previous@));
    while i < now.len()
        invariant
            i <= now@.len(),
            now@.len() == all.len(),
            account_views(now@) == all,
            account_views(then@) == accounts(Basis::Category, previous@),
            regression_views(list@) == regressions(all.take(i as int), previous@),
        decreases now@.len() - i,
    {
        proof {
            assert(all[i as int] == now@[i as int]@);
            assert(all.take(i + 1).drop_last() =~= all.take(i as int));
        }
        match compare_category(&now[i], &then, Ghost(previous@)) {
            Some(r) => {
                let ghost so_far = list@;
                list.push(r);
                assert(regression_views(list@) =~= regression_views(so_far).push(r@));
            },
            None => {},
        }
        i = i + 1;
    }
    assert(all.take(i as int) =~= all);
    list
}

fn find_excess(r: &Regression) -> (d: Double)
    ensures
        d == excess(r@),
{
    r.now.minus(r.before)
}

fn find_percent(r: &Regression) -> (d: Double)
    ensures
        d == relative_excess(r@).times(num(HUNDRED)),
{
    find_excess(r).over(r.before).times(num(HUNDRED))
}

fn find_total_excess(r: &Regression) -> (d: Double)
    ensures
        d == total_excess(r@),
{
    find_excess(r).times(Double::from_usize(r.sessions))
}

/// The positions of regressions, those first that cost most.
fn impact_order(list: &Vec<Regression>) -> (order: Vec<usize>)
    ensures
        order@.len() == list@.len(),
        by_impact(regression_views(list@)).len() == list@.len(),
        forall|j: int|
            0 <= j < order@.len() ==> #[trigger] order@[j] < list@.len() && by_impact(
                regression_views(list@),
            )[j] == list@[order@[j] as int]@,
{
    let mut keys: Vec<Key> = Vec::new();
    let mut i: usize = 0;
    while i < list.len()
        invariant
            i <= list@.len(),
            keys@.len() == i,
            forall|j: int|
                0 <= j < i ==> #[trigger] keys@[j] == (Key {
                    class: 0,
                    amount: total_excess(list@[j]@),
                }),
        decreases list@.len() - i,
    {
        keys.push(Key { class: 0, amount: find_total_excess(&list[i]) });
        i = i + 1;
    }
    assert(keys@ =~= impact_keys(regression_views(list@)));
    let order = rank(&keys);
    proof {
        assert forall|j: int| 0 <= j < order@.len() implies #[trigger] order@[j] < list@.len()
            && by_impact(regression_views(list@))[j] == list@[order@[j] as int]@ by {
            assert(as_ints(order@)[j] == order@[j] as int);
            assert(0 <= as_ints(order@)[j] < list@.len());
        }
    }
    order
}

/// The texts of the second and the third regression.
fn describe_next_two(list: &Vec<Regression>, order: &Vec<usize>) -> (lines: Vec<String>)
    requires
        order@.len() == list@.len(),
        order@.len() > 1,
        by_impact(regression_views(list@)).len() == list@.len(),
        forall|j: int|
            0 <= j < order@.len() ==> #[trigger] order@[j] < list@.len() && by_impact(
                regression_views(list@),
            )[j] == list@[order@[j] as int]@,
    ensures
        texts(lines@) == next_two(by_impact(regression_views(list@))),
{
    let ghost sorted = by_impact(regression_views(list@));
    let mut lines: Vec<String> = Vec::new();
    let mut i: usize = 1;
    while i < order.len() && i < 3
        invariant
            1 <= i <= order@.len(),
            i <= 3,
            sorted == by_impact(regression_views(list@)),
            sorted.len() == order@.len(),
            forall|j: int|
                0 <= j < order@.len() ==> #[trigger] order@[j] < list@.len() && sorted[j]
                    == list@[order@[j] as int]@,
            lines@.len() == i - 1,
            forall|j: int|
                0 <= j < lines@.len() ==> (#[trigger] lines@[j])@ == regression_text(sorted[j + 1]),
        decreases order@.len() - i,
    {
        assert(order@[i as int] < list@.len());
        let r = &list[order[i]];
        lines.push(
            r.category.clone().concat(" (").concat(
                number(find_percent(r), 0, true).as_str(),
            ).concat("%)"),
        );
        i = i + 1;
    }
    assert(texts(lines@) =~= next_two(sorted));
    lines
}

/// Points out tasks that became dearer.
pub fn rule_cost_per_task_regression(
    current_entries: &[SessionEntry],
    previous_entries: Option<&[SessionEntry]>,
    recs: &mut Vec<Recommendation>,
)
    ensures
        views(final(recs)@) == views(old(recs)@) + cost_per_task_findings(
            current_entries@,
            optional_entries(previous_entries),
        ),
{
    assert(views(recs@) + Seq::<RecommendationView>::empty() =~= views(recs@));
    let previous = match previous_entries {
        Some(p) => p,
        None => {
            return;
        },
    };
    if previous.len() < 5 || current_entries.len() < 5 {
        return;
    }
    let list = find_regressions(current_entries, previous);
    let ghost sorted = worst_first(current_entries@, previous@);
    let order = impact_order(&list);
    if list.len() == 0 {
        return;
    }
    assert(order@[0] < list@.len());
    let worst = &list[order[0]];
    assert(sorted[0] == worst@);
    let percent = find_percent(worst);
    let extra = find_total_excess(worst);
    let mut evidence = vec![
        "\"".to_owned().concat(worst.category.as_str()).concat("\" tasks: $").concat(
            number(worst.before, 2, false).as_str(),
        ).concat("/session → $").concat(number(worst.now, 2, false).as_str()).concat(
            "/session (",
        ).concat(number(percent, 0, true).as_str()).concat("%)"),
        count(worst.sessions).concat(" sessions this period, excess cost: $").concat(
            number(extra, 2, false).as_str(),
        ),
    ];
    if list.len() > 1 {
        let others = describe_next_two(&list, &order);
        evidence.push("Also regressed: ".to_owned().concat(join(&others, ", ").as_str()));
    }
    assert(texts(evidence@) =~= cost_per_task_evidence(sorted));
    let r = Recommendation {
        id: "cost_per_task_regression".to_owned(),
        severity: Level::Medium,
        confidence: Level::High,
        title: "\"".to_owned().concat(worst.category.as_str()).concat("\" tasks cost ").concat(
            number(percent, 0, false).as_str(),
        ).concat("% more per session than last period"),
        evidence,
        action: "Investigate why \"".to_owned().concat(worst.category.as_str()).concat(
            "\" tasks became more expensive. Common causes: model upgrade, larger codebase context, more complex requirements, or switching from a cheaper model. Compare session lengths and models used.",
        ),
        estimated_savings: Some(extra.times(num(TWO_FIFTHS))),
    };
    proof {
        assert(r@ =~= cost_per_task_finding(sorted));
        lemma_views_push(recs@, r);
    }
    recs.push(r);
}

/// The regressions are the comparisons of the accounts that regressed, in their order.
proof fn lemma_regressions_kept(all: Seq<AccountView>, previous: Seq<SessionEntry>)
    ensures
        regressions(all, previous) == all.filter(|a: AccountView| regressed(a, previous)).map_values(
            |a: AccountView| compared(a, previous),
        ),
    decreases all.len(),
{
    reveal(Seq::filter);
    let test = |a: AccountView| regressed(a, previous);
    let shown = |a: AccountView| compared(a, previous);
    if all.len() > 0 {
        lemma_regressions_kept(all.drop_last(), previous);
        let earlier = all.drop_last().filter(test);
        if regressed(all.last(), previous) {
            assert(all.filter(test) =~= earlier.push(all.last()));
        }
        assert(regressions(all, previous) =~= all.filter(test).map_values(shown));
    } else {
        assert(regressions(all, previous) =~= all.filter(test).map_values(shown));
    }
}

/// Every category with three sessions at least now and two at least in the previous period, where
/// they cost something, whose average cost per session has risen by more than half and by more than
/// $0.50, is among the regressions.
pub proof fn lemma_regression_listed(
    current: Seq<SessionEntry>,
    previous: Seq<SessionEntry>,
    i: int,
)
    requires
        0 <= i < accounts(Basis::Category, current).len(),
    ensures
        ({
            let now = accounts(Basis::Category, current)[i];
            let then = account(postings(Basis::Category, previous), now.name);
            let new_average = now.cost.over(of_int(now.count as int));
            let old_average = then.cost.over(of_int(then.count as int));
            let rise = new_average.minus(old_average);
            now.count >= 3 && then.count >= 2 && !old_average.at_most(num(ZERO)) && num(HALF).less(
                rise.over(old_average),
            ) && num(HALF).less(rise) ==> worst_first(current, previous).contains(
                RegressionView {
                    category: now.name,
                    sessions: now.count,
                    now: new_average,
                    before: old_average,
                },
            )
        }),
{
    let all = accounts(Basis::Category, current);
    let test = |a: AccountView| regressed(a, previous);
    let found = regressions(all, previous);
    let keys = impact_keys(found);
    let order = ranking(keys);
    lemma_regressions_kept(all, previous);
    lemma_ranking_arranges(keys, keys.len());
    if regressed(all[i], previous) {
        all.lemma_filter_contains(test, i);
        let k = all.filter(test).index_of(all[i]);
        assert(found[k] == compared(all[i], previous));
        lemma_arrangement_covers(order, found.len(), k);
        let at = choose|x: int| 0 <= x < order.len() && #[trigger] order[x] == k;
        assert(worst_first(current, previous)[at] == found[k]);
    }
}

/// There is a finding exactly if both periods have five sessions at least and some category has
/// three sessions at least now, two at least in the previous period, where they cost something, and
/// an average cost per session that has risen by more than half and by more than $0.50. It is of
/// medium severity and would save two fifths of what the worst regression cost in all.
pub proof fn lemma_regression_found(
    current: Seq<SessionEntry>,
    previous: Option<Seq<SessionEntry>>,
)
    ensures
        ({
            let found = cost_per_task_findings(current, previous);
            let all = accounts(Basis::Category, current);
            &&& found.len() <= 1
            &&& found.len() == 1 <==> (previous matches Some(p) && current.len() >= 5 && p.len()
                >= 5 && exists|i: int|
                #![trigger all[i]]
                0 <= i < all.len() && {
                    let now = all[i];
                    let then = account(postings(Basis::Category, p), now.name);
                    let new_average = now.cost.over(of_int(now.count as int));
                    let old_average = then.cost.over(of_int(then.count as int));
                    let rise = new_average.minus(old_average);
                    &&& now.count >= 3
                    &&& then.count >= 2
                    &&& !old_average.at_most(num(ZERO))
                    &&& num(HALF).less(rise.over(old_average))
                    &&& num(HALF).less(rise)
                })
            &&& found.len() == 1 ==> {
                let worst = worst_first(current, previous->0)[0];
                &&& found[0].id == "cost_per_task_regression"@
                &&& found[0].severity == Level::Medium
                &&& found[0].confidence == Level::High
                &&& found[0].estimated_savings == Some(
                    worst.now.minus(worst.before).times(of_int(worst.sessions as int)).times(
                        num(TWO_FIFTHS),
                    ),
                )
            }
        }),
{
    let all = accounts(Basis::Category, current);
    match previous {
        Some(p) => {
            let test = |a: AccountView| regressed(a, p);
            let found = regressions(all, p);
            lemma_regressions_kept(all, p);
            lemma_worst_first(current, p);
            if found.len() > 0 {
                let a = all.filter(test)[0];
                all.lemma_filter_pred(test, 0);
                assert(all.filter(test).contains(a));
                all.lemma_filter_contains_rev(test, a);
                let i = all.index_of(a);
                assert(all[i] == a && regressed(all[i], p));
            }
            assert forall|i: int| 0 <= i < all.len() && regressed(#[trigger] all[i], p) implies
                found.len() > 0 by {
                all.lemma_filter_contains(test, i);
            }
        },
        None => {},
    }
}

/// With whole average costs: a session of the category cost `now` dollars on average, and `then`
/// dollars in the previous period. The rise counts exactly if it is more than half of `then`.
pub proof fn lemma_whole_regression(
    current: Seq<SessionEntry>,
    previous: Seq<SessionEntry>,
    category: Seq<char>,
    now: int,
    then: int,
)
    requires
        ({
            let new = current.filter(is_of_category(category));
            let old = previous.filter(is_of_category(category));
            &&& new.len() >= 3
            &&& old.len() >= 2
            &&& spend(new).over(of_int(new.len() as int)) == of_int(now)
            &&& spend(old).over(of_int(old.len() as int)) == of_int(then)
        }),
        current.len() >= 5,
        previous.len() >= 5,
        0 < now < HIDDEN_BIT / 16,
        0 < then < HIDDEN_BIT / 16,
    ensures
        2 * (now - then) > then ==> cost_per_task_findings(current, Some(previous)).len() == 1,
        2 * (now - then) > then ==> exists|k: int|
            0 <= k < worst_first(current, previous).len() && (#[trigger] worst_first(
                current,
                previous,
            )[k]).category == category,
        2 * (now - then) <= then ==> forall|k: int|
            0 <= k < worst_first(current, previous).len() ==> (#[trigger] worst_first(
                current,
                previous,
            )[k]).category != category,
{
    let new = current.filter(is_of_category(category));
    let old = previous.filter(is_of_category(category));
    let posted = postings(Basis::Category, current);
    let (a, b) = (account(posted, category), account(postings(Basis::Category, previous), category));
    lemma_group_accounts(current, category);
    lemma_group_accounts(previous, category);
    lemma_of_int_positive(new.len() as int);
    lemma_of_int_positive(old.len() as int);
    lemma_same_quotient(a.cost, spend(new), of_int(new.len() as int));
    lemma_same_quotient(b.cost, spend(old), of_int(old.len() as int));
    lemma_positive_whole(now);
    lemma_positive_whole(then);
    lemma_same_positive(average(a), of_int(now));
    lemma_same_positive(average(b), of_int(then));
    lemma_account_name(posted, category);
    let r = compared(a, previous);
    lemma_whole_limits();
    lemma_fraction_limits();
    lemma_whole_difference(now, then);
    lemma_integer_exact(0);
    assert(0 * pow2(ONE_EXPONENT as nat) == 0) by (nonlinear_arith);
    if now >= then {
        lemma_quotients_compare(1, 2, now - then, then);
        lemma_quotients_compare(1, 2, now - then, 1);
        lemma_integer_exact(now - then);
        lemma_over_one(of_int(now - then));
    } else {
        lemma_integer_exact(now - then);
        lemma_of_int_positive(then);
        lemma_quotient_sign(of_int(now - then), of_int(then));
        lemma_integer_sum(now - then, 0);
        lemma_quotients_compare(0, 1, 1, 2);
        lemma_over_one(of_int(0));
    }
    assert(regressed(a, previous) <==> 2 * (now - then) > then);
    let e = new[0];
    assert(new.contains(e));
    current.lemma_filter_contains_rev(is_of_category(category), e);
    current.lemma_filter_pred(is_of_category(category), 0);
    let x = current.index_of(e);
    lemma_charged_name(Basis::Category, current, x, 0);
    assert(names(posted).contains(category));
    let i = names(posted).index_of(category);
    assert(accounts(Basis::Category, current)[i] == a);
    lemma_regression_listed(current, previous, i);
    lemma_worst_first(current, previous);
    if regressed(a, previous) {
        let list = worst_first(current, previous);
        assert(list.contains(r));
        let k = list.index_of(r);
        assert(list[k].category == category);
    } else {
        lemma_absent_unless_regressed(current, previous, category);
    }
}

proof fn lemma_absent_unless_regressed(
    current: Seq<SessionEntry>,
    previous: Seq<SessionEntry>,
    category: Seq<char>,
)
    requires
        !regressed(account(postings(Basis::Category, current), category), previous),
    ensures
        forall|k: int|
            0 <= k < worst_first(current, previous).len() ==> (#[trigger] worst_first(
                current,
                previous,
            )[k]).category != category,
{
    let posted = postings(Basis::Category, current);
    let all = accounts(Basis::Category, current);
    let test = |a: AccountView| regressed(a, previous);
    let found = regressions(all, previous);
    let keys = impact_keys(found);
    let order = ranking(keys);
    lemma_regressions_kept(all, previous);
    lemma_ranking_arranges(keys, keys.len());
    assert forall|k: int| 0 <= k < worst_first(current, previous).len() implies (
    #[trigger] worst_first(current, previous)[k]).category != category by {
        let f = order[k];
        assert(0 <= f < found.len());
        assert(worst_first(current, previous)[k] == found[f]);
        let kept = all.filter(test);
        all.lemma_filter_pred(test, f);
        assert(kept.contains(kept[f]));
        all.lemma_filter_contains_rev(test, kept[f]);
        let i = all.index_of(kept[f]);
        lemma_account_name(posted, names(posted)[i]);
    }
}

/// The finding is about the worst regression and gives its average cost per session before and now,
/// the rise in percent, and what the rise cost in all its sessions; and it names the next two.
pub proof fn lemma_regression_told(current: Seq<SessionEntry>, previous: Seq<SessionEntry>)
    requires
        cost_per_task_findings(current, Some(previous)).len() > 0,
    ensures
        ({
            let r = cost_per_task_findings(current, Some(previous))[0];
            let list = worst_first(current, previous);
            let worst = list[0];
            let rise = |x: RegressionView|
                x.now.minus(x.before).over(x.before).times(num(HUNDRED));
            let short = |x: RegressionView|
                x.category + " ("@ + number_text(rise(x), 0, true) + "%)"@;
            &&& r.title == "\""@ + worst.category + "\" tasks cost "@ + number_text(
                rise(worst),
                0,
                false,
            ) + "% more per session than last period"@
            &&& r.evidence[0] == "\""@ + worst.category + "\" tasks: $"@ + number_text(
                worst.before,
                2,
                false,
            ) + "/session → $"@ + number_text(worst.now, 2, false) + "/session ("@ + number_text(
                rise(worst),
                0,
                true,
            ) + "%)"@
            &&& r.evidence[1] == decimal(worst.sessions)
                + " sessions this period, excess cost: $"@ + number_text(
                worst.now.minus(worst.before).times(of_int(worst.sessions as int)),
                2,
                false,
            )
            &&& list.len() == 1 ==> r.evidence.len() == 2
            &&& list.len() == 2 ==> r.evidence.len() == 3 && r.evidence[2] == "Also regressed: "@
                + short(list[1])
            &&& list.len() > 2 ==> r.evidence.len() == 3 && r.evidence[2] == "Also regressed: "@
                + joined(seq![short(list[1]), short(list[2])], ", "@)
        }),
{
    let list = worst_first(current, previous);
    if list.len() == 2 {
        assert(next_two(list) =~= seq![regression_text(list[1])]);
    }
    if list.len() > 2 {
        assert(next_two(list) =~= seq![regression_text(list[1]), regression_text(list[2])]);
    }
}

/// Of two regressions, the one that stands first cost no less in all: the rise of its average, times
/// the number of its sessions.
pub proof fn lemma_regressions_sorted(
    current: Seq<SessionEntry>,
    previous: Seq<SessionEntry>,
    i: int,
    j: int,
)
    requires
        0 <= i < j < worst_first(current, previous).len(),
    ensures
        ({
            let (a, b) = (worst_first(current, previous)[i], worst_first(current, previous)[j]);
            b.now.minus(b.before).times(of_int(b.sessions as int)).at_most(
                a.now.minus(a.before).times(of_int(a.sessions as int)),
            )
        }),
{
    let found = regressions(accounts(Basis::Category, current), previous);
    let keys = impact_keys(found);
    let order = ranking(keys);
    lemma_regressions(accounts(Basis::Category, current), previous);
    assert forall|k: int| 0 <= k < keys.len() implies !(#[trigger] keys[k]).amount.is_nan() by {
        assert(!total_excess(found[k]).is_nan());
    }
    lemma_ranking_sorts(keys);
    let (x, y) = (order[i], order[j]);
    assert(0 <= x < found.len() && 0 <= y < found.len());
    assert(!keys[x].amount.is_nan() && !keys[y].amount.is_nan());
    assert(worst_first(current, previous)[i] == found[x]);
    assert(worst_first(current, previous)[j] == found[y]);
    assert(keys[x].amount == total_excess(found[x]) && keys[y].amount == total_excess(found[y]));
}

} // verus!
