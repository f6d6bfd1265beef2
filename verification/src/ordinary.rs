//! Ordinary sessions: with one model each, whole dollars and counts that are not negative. Reports
//! can be made on all of them.

use crate::double::{
    Double, lemma_integer_exact, lemma_no_units, lemma_of_int_order, lemma_of_int_positive,
    lemma_units_order, of_int,
};
use crate::entries::{
    Measure, SessionEntry, cost_whole_dollars, fits, lemma_all_tokens, measured, spend, total,
    total_fits,
};
use crate::exact::{lemma_over_one, lemma_quotients_compare, lemma_whole_limits};
use crate::ledger::{
    AccountView, Basis, account, accounts, is_in_workspace, is_on, lemma_group_accounts,
    lemma_model_accounts, lemma_one_charge, names, one_model_each, postings, tally_fits,
};
use crate::numbers::{MILLION, num};
use crate::report::{diagnose_defined, optimize_defined};
use crate::rounding::{HIDDEN_BIT, ONE_EXPONENT, lemma_nearest_bounded};
use crate::rules::cache_miss::{cache_miss_defined, context, is_in, uses_fit, uses_in, workspaces};
use crate::rules::premium::{
    busy_models, choice, dollars_where, is_busy, is_low_risk_on, lemma_spend_where, low_risk_on,
    premium_defined, rate, rate_keys,
};
use crate::summary::{comparable, summary_defined};
use vstd::arithmetic::power2::{lemma_pow2_pos, pow2};
use vstd::prelude::*;

verus! {

/// No count of a session is negative.
pub open spec fn counts_natural(entries: Seq<SessionEntry>) -> bool {
    forall|i: int|
        0 <= i < entries.len() ==> {
            let e = #[trigger] entries[i];
            &&& e.total_input_tokens >= 0
            &&& e.total_output_tokens >= 0
            &&& e.total_cache_read >= 0
            &&& e.message_count >= 0
        }
}

/// All tokens and messages of sessions.
pub open spec fn grand_total(entries: Seq<SessionEntry>) -> int {
    total(entries, Measure::Input) + total(entries, Measure::Output) + total(
        entries,
        Measure::CacheRead,
    ) + total(entries, Measure::Messages)
}

/// Sessions with one model each, that cost whole dollars, with counts that are not negative and that
/// are exact in all.
pub open spec fn are_ordinary(entries: Seq<SessionEntry>, dollars: Seq<int>) -> bool {
    &&& one_model_each(entries)
    &&& cost_whole_dollars(entries, dollars)
    &&& counts_natural(entries)
    &&& grand_total(entries) < HIDDEN_BIT
    &&& entries.len() <= i64::MAX
}

proof fn lemma_totals_natural(entries: Seq<SessionEntry>, m: Measure)
    requires
        counts_natural(entries),
    ensures
        total(entries, m) >= 0,
        total(entries, m) <= i64::MAX ==> total_fits(entries, m),
    decreases entries.len(),
{
    if entries.len() > 0 {
        let fewer = entries.drop_last();
        assert(entries[entries.len() - 1] == entries.last());
        assert forall|i: int| 0 <= i < fewer.len() implies #[trigger] fewer[i] == entries[i] by {}
        lemma_totals_natural(fewer, m);
    }
}

/// Every count of sessions fits.
proof fn lemma_counts_fit(entries: Seq<SessionEntry>)
    requires
        counts_natural(entries),
        grand_total(entries) < HIDDEN_BIT,
    ensures
        forall|m: Measure| #[trigger] total_fits(entries, m) && 0 <= total(entries, m) < HIDDEN_BIT,
{
    lemma_all_tokens(entries);
    lemma_totals_natural(entries, Measure::Input);
    lemma_totals_natural(entries, Measure::Output);
    lemma_totals_natural(entries, Measure::CacheRead);
    lemma_totals_natural(entries, Measure::Messages);
    lemma_totals_natural(entries, Measure::InputAndOutput);
    assert forall|m: Measure| #[trigger] total_fits(entries, m) && 0 <= total(entries, m)
        < HIDDEN_BIT by {
        lemma_totals_natural(entries, m);
        match m {
            Measure::Input => {},
            Measure::Output => {},
            Measure::InputAndOutput => {},
            Measure::CacheRead => {},
            Measure::Messages => {},
        }
    }
}

/// Some of the sessions have no more of anything than all of them.
proof fn lemma_some_of(entries: Seq<SessionEntry>, test: spec_fn(SessionEntry) -> bool)
    requires
        counts_natural(entries),
        one_model_each(entries),
    ensures
        counts_natural(entries.filter(test)),
        one_model_each(entries.filter(test)),
        forall|m: Measure|
            0 <= #[trigger] total(entries.filter(test), m) <= total(entries, m),
        grand_total(entries.filter(test)) <= grand_total(entries),
    decreases entries.len(),
{
    reveal(Seq::filter);
    let kept = entries.filter(test);
    if entries.len() > 0 {
        let fewer = entries.drop_last();
        let e = entries.last();
        assert(entries[entries.len() - 1] == e);
        assert forall|i: int| 0 <= i < fewer.len() implies #[trigger] fewer[i] == entries[i] by {}
        lemma_some_of(fewer, test);
        let earlier = fewer.filter(test);
        if test(e) {
            assert(kept =~= earlier.push(e));
            assert(kept.drop_last() =~= earlier);
            assert forall|i: int| 0 <= i < kept.len() implies #[trigger] kept[i] == (if i
                < earlier.len() {
                earlier[i]
            } else {
                e
            }) by {}
        }
        assert forall|m: Measure| 0 <= #[trigger] total(kept, m) <= total(entries, m) by {
            assert(0 <= total(earlier, m) <= total(fewer, m));
            assert(measured(e, m) >= 0);
        }
    }
    assert(total(kept, Measure::Input) <= total(entries, Measure::Input));
    assert(total(kept, Measure::Output) <= total(entries, Measure::Output));
    assert(total(kept, Measure::CacheRead) <= total(entries, Measure::CacheRead));
    assert(total(kept, Measure::Messages) <= total(entries, Measure::Messages));
}

proof fn lemma_ledgers_fit(entries: Seq<SessionEntry>)
    requires
        counts_natural(entries),
        one_model_each(entries),
        grand_total(entries) < HIDDEN_BIT,
    ensures
        tally_fits(Basis::ModelContext, entries),
        tally_fits(Basis::ModelTokens, entries),
    decreases entries.len(),
{
    if entries.len() > 0 {
        let fewer = entries.drop_last();
        let e = entries.last();
        assert(entries[entries.len() - 1] == e);
        assert forall|i: int| 0 <= i < fewer.len() implies #[trigger] fewer[i] == entries[i] by {}
        lemma_counts_fit(fewer);
        lemma_totals_natural(fewer, Measure::Input);
        lemma_totals_natural(fewer, Measure::Output);
        lemma_ledgers_fit(fewer);
        let model = e.models_used@[0]@;
        let own = entries.filter(is_on(model));
        lemma_one_charge(Basis::ModelContext, entries);
        lemma_one_charge(Basis::ModelTokens, entries);
        lemma_model_accounts(entries, model);
        lemma_some_of(entries, is_on(model));
        lemma_counts_fit(entries);
        lemma_second_unused(entries, model);
        assert(0 <= total(own, Measure::Input) <= total(entries, Measure::Input));
        assert(0 <= total(own, Measure::CacheRead) <= total(entries, Measure::CacheRead));
        assert(0 <= total(own, Measure::Output) <= total(entries, Measure::Output));
        assert(total_fits(entries, Measure::Input) && total_fits(entries, Measure::CacheRead));
        assert(total_fits(entries, Measure::Output));
    }
}

/// All tokens are counted as one number.
proof fn lemma_second_unused(entries: Seq<SessionEntry>, model: Seq<char>)
    requires
        one_model_each(entries),
    ensures
        account(postings(Basis::ModelTokens, entries), model).second == 0,
    decreases entries.len(),
{
    if entries.len() > 0 {
        let fewer = entries.drop_last();
        assert(entries[entries.len() - 1] == entries.last());
        assert forall|i: int| 0 <= i < fewer.len() implies #[trigger] fewer[i] == entries[i] by {}
        lemma_second_unused(fewer, model);
        lemma_one_charge(Basis::ModelTokens, entries);
    }
}

/// The costs of models and of workspaces are numbers.
proof fn lemma_costs_are_numbers(entries: Seq<SessionEntry>, dollars: Seq<int>, name: Seq<char>)
    requires
        one_model_each(entries),
        cost_whole_dollars(entries, dollars),
    ensures
        account(postings(Basis::ModelSpend, entries), name).cost.is_finite(),
        account(postings(Basis::ModelTokens, entries), name).cost.is_finite(),
        account(postings(Basis::Workspace, entries), name).cost.is_finite(),
{
    lemma_model_accounts(entries, name);
    lemma_group_accounts(entries, name);
    lemma_spend_where(entries, dollars, is_on(name));
    lemma_spend_where(entries, dollars, is_in_workspace(name));
    lemma_integer_exact(dollars_where(entries, dollars, is_on(name)));
    lemma_integer_exact(dollars_where(entries, dollars, is_in_workspace(name)));
    lemma_finite_alike(
        account(postings(Basis::ModelSpend, entries), name).cost,
        of_int(dollars_where(entries, dollars, is_on(name))),
    );
    lemma_finite_alike(
        account(postings(Basis::ModelTokens, entries), name).cost,
        of_int(dollars_where(entries, dollars, is_on(name))),
    );
    lemma_finite_alike(
        account(postings(Basis::Workspace, entries), name).cost,
        of_int(dollars_where(entries, dollars, is_in_workspace(name))),
    );
}

/// The same number is finite or not.
proof fn lemma_finite_alike(a: Double, b: Double)
    requires
        b.is_finite(),
        !a.is_nan(),
        a.value() == b.value(),
    ensures
        a.is_finite(),
{
    lemma_units_order(a.magnitude(), b.magnitude());
    lemma_no_units(a.magnitude());
    lemma_no_units(b.magnitude());
}

/// Ordinary sessions can be summed up.
pub proof fn lemma_ordinary_summed(entries: Seq<SessionEntry>, dollars: Seq<int>)
    requires
        are_ordinary(entries, dollars),
    ensures
        summary_defined(entries),
        comparable(accounts(Basis::Workspace, entries)),
{
    lemma_counts_fit(entries);
    lemma_totals_natural(entries, Measure::Output);
    lemma_totals_natural(entries, Measure::Messages);
    assert(total_fits(entries, Measure::Input) && total_fits(entries, Measure::CacheRead));
    let posted = postings(Basis::ModelSpend, entries);
    let places = postings(Basis::Workspace, entries);
    assert forall|i: int| 0 <= i < accounts(Basis::ModelSpend, entries).len() implies !(
    #[trigger] accounts(Basis::ModelSpend, entries)[i]).cost.is_nan() by {
        lemma_costs_are_numbers(entries, dollars, names(posted)[i]);
    }
    assert forall|i: int| 0 <= i < accounts(Basis::Workspace, entries).len() implies !(
    #[trigger] accounts(Basis::Workspace, entries)[i]).cost.is_nan() by {
        lemma_costs_are_numbers(entries, dollars, names(places)[i]);
    }
}

proof fn lemma_ordinary_cached(entries: Seq<SessionEntry>, dollars: Seq<int>)
    requires
        are_ordinary(entries, dollars),
    ensures
        cache_miss_defined(entries),
{
    assert forall|i: int| 0 <= i < workspaces(entries).len() implies uses_fit(
        entries,
        #[trigger] workspaces(entries)[i],
    ) by {
        let place = workspaces(entries)[i];
        let there = entries.filter(is_in(place));
        let posted = postings(Basis::ModelContext, there);
        lemma_some_of(entries, is_in(place));
        lemma_ledgers_fit(there);
        assert forall|k: int| 0 <= k < uses_in(entries, place).len() implies fits(
            context((#[trigger] uses_in(entries, place)[k]).account),
        ) by {
            let model = names(posted)[k];
            lemma_model_accounts(there, model);
            lemma_some_of(there, is_on(model));
            lemma_counts_fit(there);
            let own = there.filter(is_on(model));
            assert(0 <= total(own, Measure::Input) <= total(there, Measure::Input));
            assert(0 <= total(own, Measure::CacheRead) <= total(there, Measure::CacheRead));
            assert(total_fits(there, Measure::Input) && total_fits(there, Measure::CacheRead));
        }
    }
}

/// The rate of a model with a finite cost and some tokens is a number.
proof fn lemma_rate_is_number(a: AccountView)
    requires
        a.cost.is_finite(),
        0 < a.first < HIDDEN_BIT,
    ensures
        !rate(a).is_nan(),
{
    let w = of_int(a.first).over(num(MILLION));
    lemma_whole_limits();
    lemma_integer_exact(0);
    lemma_integer_exact(1);
    lemma_over_one(of_int(0));
    lemma_quotients_compare(0, 1, a.first, 1_000_000);
    assert(of_int(0).less(w));
    lemma_pow2_pos(ONE_EXPONENT as nat);
    assert(0 * pow2(ONE_EXPONENT as nat) == 0) by (nonlinear_arith);
    lemma_no_units(w.magnitude());
    lemma_no_units(0);
    assert(w.magnitude() > 0);
    lemma_nearest_bounded(a.cost.units() * pow2(ONE_EXPONENT as nat), w.units());
}

proof fn lemma_ordinary_ranked(entries: Seq<SessionEntry>, dollars: Seq<int>, total_cost: Double)
    requires
        are_ordinary(entries, dollars),
    ensures
        premium_defined(entries, total_cost),
{
    let posted = postings(Basis::ModelTokens, entries);
    let list = accounts(Basis::ModelTokens, entries);
    let busy = busy_models(entries);
    lemma_ledgers_fit(entries);
    lemma_counts_fit(entries);
    assert forall|i: int| 0 <= i < rate_keys(busy).len() implies !(
    #[trigger] rate_keys(busy)[i]).amount.is_nan() by {
        let a = busy[i];
        assert(busy.contains(a));
        list.lemma_filter_pred(is_busy(), i);
        list.lemma_filter_contains_rev(is_busy(), a);
        let k = list.index_of(a);
        let model = names(posted)[k];
        lemma_costs_are_numbers(entries, dollars, model);
        lemma_model_accounts(entries, model);
        lemma_some_of(entries, is_on(model));
        let own = entries.filter(is_on(model));
        assert(0 <= total(own, Measure::Input) <= total(entries, Measure::Input));
        assert(0 <= total(own, Measure::Output) <= total(entries, Measure::Output));
        lemma_totals_natural(entries, Measure::CacheRead);
        lemma_totals_natural(entries, Measure::Messages);
        lemma_rate_is_number(a);
    }
    match choice(entries, total_cost) {
        Some(c) => {
            lemma_some_of(entries, is_low_risk_on(c.premium));
            lemma_counts_fit(low_risk_on(entries, c.premium));
        },
        None => {},
    }
}

/// Both advisors can report on ordinary sessions, in comparison with ordinary sessions or without.
pub proof fn lemma_ordinary_reported(
    current: Seq<SessionEntry>,
    dollars: Seq<int>,
    previous: Seq<SessionEntry>,
    earlier_dollars: Seq<int>,
)
    requires
        are_ordinary(current, dollars),
        are_ordinary(previous, earlier_dollars),
    ensures
        optimize_defined(current, None),
        optimize_defined(current, Some(previous)),
        diagnose_defined(current, None),
        diagnose_defined(current, Some(previous)),
{
    lemma_ordinary_summed(current, dollars);
    lemma_ordinary_summed(previous, earlier_dollars);
    lemma_ordinary_cached(current, dollars);
    lemma_ordinary_ranked(current, dollars, spend(current));
    lemma_counts_fit(current);
    lemma_counts_fit(previous);
    assert forall|i: int| 0 <= i < current.len() implies !(
    #[trigger] current[i]).total_cost.is_nan() by {
        assert(current[i].total_cost == of_int(dollars[i]));
        assert(dollars[i] >= 0);
        lemma_of_int_number(dollars[i]);
    }
}

proof fn lemma_of_int_number(n: int)
    requires
        n >= 0,
    ensures
        !of_int(n).is_nan(),
{
    if n > 0 {
        lemma_of_int_positive(n);
    } else {
        lemma_of_int_order(0, 0);
    }
}

} // verus!
