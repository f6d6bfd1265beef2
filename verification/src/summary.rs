//! What a period comes to, and how it differs from the one before.

use crate::double::{
    Double, lemma_integer_sum, lemma_larger, lemma_no_units, lemma_of_int_order,
    lemma_over_monotone, lemma_part_of_whole, lemma_quotient_sign, lemma_units_increase, of_int,
};
use crate::entries::{
    Measure, SessionEntry, all, checked_total, fits, lemma_all_tokens, measured, spend, total,
    total_fits, total_spend,
};
use crate::exact::{
    lemma_difference_sign, lemma_quotients_compare, lemma_same_difference, lemma_same_positive,
    lemma_scaled_sign, lemma_whole_difference, lemma_whole_limits, lemma_whole_product,
    lemma_whole_quotient, lemma_whole_units, same_number,
};
use crate::ledger::{
    Account, AccountView, Basis, account, account_views, accounts, charges, find, is_on, ledger,
    lemma_account_absent, lemma_account_name, lemma_costs_fit, lemma_model_accounts, names,
    one_model_each, postings, tally,
};
use crate::numbers::{HUNDRED, ONE, THOUSANDTH, ZERO, num};
use crate::rounding::{HIDDEN_BIT, ONE_EXPONENT, lemma_nearest_bounded};
use crate::text::{number, number_text};
use vstd::arithmetic::power2::pow2;
use vstd::prelude::*;

verus! {

/// The figures of one period.
#[derive(Debug)]
pub struct PeriodSummary {
    pub sessions: usize,
    pub total_cost: Double,
    pub total_tokens: i64,
    pub avg_cost_per_session: Double,
    pub cache_reuse_rate: Double,
    pub input_tokens_per_message: Double,
    pub top_model: Option<String>,
    pub top_model_share: Double,
}

#[verifier::ext_equal]
pub struct PeriodSummaryView {
    pub sessions: nat,
    pub total_cost: Double,
    pub total_tokens: int,
    pub avg_cost_per_session: Double,
    pub cache_reuse_rate: Double,
    pub input_tokens_per_message: Double,
    pub top_model: Option<Seq<char>>,
    pub top_model_share: Double,
}

impl View for PeriodSummary {
    type V = PeriodSummaryView;

    open spec fn view(&self) -> PeriodSummaryView {
        PeriodSummaryView {
            sessions: self.sessions as nat,
            total_cost: self.total_cost,
            total_tokens: self.total_tokens as int,
            avg_cost_per_session: self.avg_cost_per_session,
            cache_reuse_rate: self.cache_reuse_rate,
            input_tokens_per_message: self.input_tokens_per_message,
            top_model: match self.top_model {
                Some(m) => Some(m@),
                None => None,
            },
            top_model_share: self.top_model_share,
        }
    }
}

/// How the figures of two periods differ.
#[derive(Debug)]
pub struct PeriodDelta {
    pub cost_change: Double,
    pub cost_change_pct: Double,
    pub sessions_change: i64,
    pub cache_rate_change_pp: Double,
    pub main_driver: String,
}

#[verifier::ext_equal]
pub struct PeriodDeltaView {
    pub cost_change: Double,
    pub cost_change_pct: Double,
    pub sessions_change: int,
    pub cache_rate_change_pp: Double,
    pub main_driver: Seq<char>,
}

impl View for PeriodDelta {
    type V = PeriodDeltaView;

    open spec fn view(&self) -> PeriodDeltaView {
        PeriodDeltaView {
            cost_change: self.cost_change,
            cost_change_pct: self.cost_change_pct,
            sessions_change: self.sessions_change as int,
            cache_rate_change_pp: self.cache_rate_change_pp,
            main_driver: self.main_driver@,
        }
    }
}

/// The costs of accounts can be compared: there are no two, or all of them are numbers.
pub open spec fn comparable(accounts: Seq<AccountView>) -> bool {
    accounts.len() <= 1 || forall|i: int|
        0 <= i < accounts.len() ==> !(#[trigger] accounts[i]).cost.is_nan()
}

/// The position of the account with the highest cost, of several the last one.
pub open spec fn top(accounts: Seq<AccountView>) -> int
    decreases accounts.len(),
{
    if accounts.len() <= 1 {
        0
    } else {
        let best = top(accounts.drop_last());
        if accounts.last().cost.less(accounts[best].cost) {
            best
        } else {
            accounts.len() - 1
        }
    }
}

/// The top account costs no less than any other.
pub proof fn lemma_top(accounts: Seq<AccountView>)
    requires
        accounts.len() > 0,
    ensures
        0 <= top(accounts) < accounts.len(),
        comparable(accounts) ==> forall|i: int|
            0 <= i < accounts.len() ==> !accounts[top(accounts)].cost.less(
                (#[trigger] accounts[i]).cost,
            ),
    decreases accounts.len(),
{
    if accounts.len() > 1 {
        let fewer = accounts.drop_last();
        lemma_top(fewer);
        let best = top(fewer);
        if comparable(accounts) {
            assert(comparable(fewer)) by {
                assert forall|i: int| 0 <= i < fewer.len() implies !(
                #[trigger] fewer[i]).cost.is_nan() by {
                    assert(fewer[i] == accounts[i]);
                }
            }
            assert forall|i: int| 0 <= i < accounts.len() implies !accounts[top(
                accounts,
            )].cost.less((#[trigger] accounts[i]).cost) by {
                assert(!accounts[accounts.len() - 1].cost.is_nan());
                assert(!accounts[best].cost.is_nan());
                if i < fewer.len() {
                    assert(!fewer[best].cost.less(fewer[i].cost));
                }
            }
        }
    }
}

/// An amount as a fraction of a total that counts as at least 0.001.
pub open spec fn fraction_of(part: Double, whole: Double) -> Double {
    part.over(whole.larger(num(THOUSANDTH)))
}

/// If a part exceeds a positive fraction of a whole, so does a part that is no smaller.
pub proof fn lemma_larger_fraction(part: Double, other: Double, whole: Double, limit: Double)
    requires
        !other.is_nan(),
        !other.less(part),
        num(ZERO).less(limit),
        limit.less(fraction_of(part, whole)),
    ensures
        limit.less(fraction_of(other, whole)),
{
    let w = whole.larger(num(THOUSANDTH));
    lemma_units_increase(0, THOUSANDTH as nat);
    lemma_larger(whole, num(THOUSANDTH));
    assert(num(ZERO).value() == 0);
    assert(w.is_finite());
    if part.value() <= 0 {
        lemma_quotient_sign(part, w);
        assert(false);
    }
    lemma_over_monotone(part, other, w);
}

/// Some account exceeds a positive fraction of a whole exactly if the top account does.
pub proof fn lemma_some_exceeds(accounts: Seq<AccountView>, whole: Double, limit: Double)
    requires
        comparable(accounts),
        num(ZERO).less(limit),
    ensures
        accounts.len() > 0 && limit.less(fraction_of(accounts[top(accounts)].cost, whole))
            <==> exists|i: int|
            0 <= i < accounts.len() && limit.less(
                fraction_of((#[trigger] accounts[i]).cost, whole),
            ),
{
    if accounts.len() > 0 {
        lemma_top(accounts);
        let t = top(accounts);
        assert forall|i: int|
            0 <= i < accounts.len() && limit.less(
                fraction_of((#[trigger] accounts[i]).cost, whole),
            ) implies limit.less(fraction_of(accounts[t].cost, whole)) by {
            if i != t {
                assert(!accounts[t].cost.is_nan());
                lemma_larger_fraction(accounts[i].cost, accounts[t].cost, whole, limit);
            }
        }
    }
}

/// The part of the context that was read from a cache.
pub open spec fn reuse_rate(input: int, cache_read: int) -> Double {
    if input + cache_read > 0 {
        of_int(cache_read).over(of_int(input + cache_read))
    } else {
        num(ZERO)
    }
}

/// The figures of sessions can be computed within 64 bits and compared.
pub open spec fn summary_defined(entries: Seq<SessionEntry>) -> bool {
    &&& total_fits(entries, Measure::InputAndOutput)
    &&& total_fits(entries, Measure::Input)
    &&& total_fits(entries, Measure::CacheRead)
    &&& total_fits(entries, Measure::Messages)
    &&& fits(total(entries, Measure::Input) + total(entries, Measure::CacheRead))
    &&& comparable(accounts(Basis::ModelSpend, entries))
}

/// The figures of sessions.
pub open spec fn summary_of(entries: Seq<SessionEntry>) -> PeriodSummaryView {
    let total_cost = spend(entries);
    let input = total(entries, Measure::Input);
    let messages = total(entries, Measure::Messages);
    let models = accounts(Basis::ModelSpend, entries);
    PeriodSummaryView {
        sessions: entries.len(),
        total_cost,
        total_tokens: total(entries, Measure::InputAndOutput),
        avg_cost_per_session: if entries.len() > 0 {
            total_cost.over(of_int(entries.len() as int))
        } else {
            num(ZERO)
        },
        cache_reuse_rate: reuse_rate(input, total(entries, Measure::CacheRead)),
        input_tokens_per_message: if messages > 0 {
            of_int(input).over(of_int(messages))
        } else {
            num(ZERO)
        },
        top_model: if models.len() > 0 {
            Some(models[top(models)].name)
        } else {
            None
        },
        top_model_share: fraction_of(
            if models.len() > 0 {
                models[top(models)].cost
            } else {
                num(ZERO)
            },
            total_cost,
        ),
    }
}

/// The change of what sessions spent on a model.
pub open spec fn model_change(
    model: Seq<char>,
    current: Seq<SessionEntry>,
    previous: Seq<SessionEntry>,
) -> Double {
    account(postings(Basis::ModelSpend, current), model).cost.minus(
        account(postings(Basis::ModelSpend, previous), model).cost,
    )
}

/// The largest change in size among the first `n` models of the current period, zero if there is
/// none, and the position of the first model with it.
pub open spec fn largest_change(
    current: Seq<SessionEntry>,
    previous: Seq<SessionEntry>,
    n: nat,
) -> (Double, Option<int>)
    decreases n,
{
    if n == 0 {
        (num(ZERO), None)
    } else {
        let best = largest_change(current, previous, (n - 1) as nat);
        let change = model_change(
            names(postings(Basis::ModelSpend, current))[n - 1],
            current,
            previous,
        );
        if best.0.abs().less(change.abs()) {
            (change, Some(n - 1))
        } else {
            best
        }
    }
}

/// The model whose cost changed most, with the change, or "mixed" if none changed.
pub open spec fn driver_text(
    current: Seq<SessionEntry>,
    previous: Seq<SessionEntry>,
) -> Seq<char> {
    let models = names(postings(Basis::ModelSpend, current));
    let largest = largest_change(current, previous, models.len());
    match largest.1 {
        Some(i) => models[i] + " ("@ + number_text(largest.0, 2, true) + ")"@,
        None => "mixed"@,
    }
}

/// How two periods differ.
pub open spec fn delta_of(
    current: PeriodSummaryView,
    previous: PeriodSummaryView,
    current_entries: Seq<SessionEntry>,
    previous_entries: Seq<SessionEntry>,
) -> PeriodDeltaView {
    let change = current.total_cost.minus(previous.total_cost);
    PeriodDeltaView {
        cost_change: change,
        cost_change_pct: if num(ZERO).less(previous.total_cost) {
            change.over(previous.total_cost).times(num(HUNDRED))
        } else {
            num(ZERO)
        },
        sessions_change: current.sessions - previous.sessions,
        cache_rate_change_pp: current.cache_reuse_rate.minus(previous.cache_reuse_rate).times(
            num(HUNDRED),
        ),
        main_driver: driver_text(current_entries, previous_entries),
    }
}

/// Without negative counts a total is not negative.
proof fn lemma_total_not_negative(entries: Seq<SessionEntry>, m: Measure)
    requires
        forall|i: int| 0 <= i < entries.len() ==> measured(#[trigger] entries[i], m) >= 0,
    ensures
        total(entries, m) >= 0,
    decreases entries.len(),
{
    if entries.len() > 0 {
        let fewer = entries.drop_last();
        assert(measured(entries[entries.len() - 1], m) >= 0);
        assert forall|i: int| 0 <= i < fewer.len() implies measured(#[trigger] fewer[i], m) >= 0 by {
            assert(fewer[i] == entries[i]);
        }
        lemma_total_not_negative(fewer, m);
    }
}

/// The cache reuse rate is a number from zero to one, unless there are negative token counts.
pub proof fn lemma_reuse_rate(entries: Seq<SessionEntry>)
    requires
        summary_defined(entries),
        forall|i: int|
            0 <= i < entries.len() ==> measured(#[trigger] entries[i], Measure::Input) >= 0
                && measured(entries[i], Measure::CacheRead) >= 0,
    ensures
        num(ZERO).at_most(summary_of(entries).cache_reuse_rate),
        summary_of(entries).cache_reuse_rate.at_most(num(ONE)),
{
    let input = total(entries, Measure::Input);
    let cached = total(entries, Measure::CacheRead);
    lemma_total_not_negative(entries, Measure::Input);
    lemma_total_not_negative(entries, Measure::CacheRead);
    lemma_of_int_order(0, 1);
    lemma_units_increase(0, ONE as nat);
    assert(num(ZERO).value() == 0);
    if input + cached > 0 {
        lemma_part_of_whole(cached, input + cached);
    }
}

proof fn lemma_largest_change(
    current: Seq<SessionEntry>,
    previous: Seq<SessionEntry>,
    n: nat,
)
    requires
        n <= names(postings(Basis::ModelSpend, current)).len(),
    ensures
        ({
            let models = names(postings(Basis::ModelSpend, current));
            let largest = largest_change(current, previous, n);
            &&& forall|i: int|
                0 <= i < n ==> !largest.0.abs().less(
                    model_change(#[trigger] models[i], current, previous).abs(),
                )
            &&& match largest.1 {
                Some(i) => 0 <= i < n && largest.0 == model_change(models[i], current, previous),
                None => largest.0 == num(ZERO),
            }
        }),
    decreases n,
{
    if n > 0 {
        lemma_largest_change(current, previous, (n - 1) as nat);
        let models = names(postings(Basis::ModelSpend, current));
        let best = largest_change(current, previous, (n - 1) as nat);
        let change = model_change(models[n - 1], current, previous);
        if best.0.abs().less(change.abs()) {
            assert forall|i: int| 0 <= i < n implies !change.abs().less(
                model_change(#[trigger] models[i], current, previous).abs(),
            ) by {
                if i < n - 1 {
                    assert(!best.0.abs().less(model_change(models[i], current, previous).abs()));
                }
            }
        }
    }
}

/// The main driver is a model of the current period whose cost changed no less than that of any
/// other, or "mixed" if none of them changed.
pub proof fn lemma_main_driver(current: Seq<SessionEntry>, previous: Seq<SessionEntry>)
    ensures
        ({
            let models = names(postings(Basis::ModelSpend, current));
            ||| exists|d: int|
                0 <= d < models.len() && driver_text(current, previous) == (#[trigger] models[d])
                    + " ("@ + number_text(model_change(models[d], current, previous), 2, true)
                    + ")"@ && forall|i: int|
                    0 <= i < models.len() ==> !model_change(
                        models[d],
                        current,
                        previous,
                    ).abs().less(model_change(#[trigger] models[i], current, previous).abs())
            ||| driver_text(current, previous) == "mixed"@ && forall|i: int|
                0 <= i < models.len() ==> !num(ZERO).less(
                    model_change(#[trigger] models[i], current, previous).abs(),
                )
        }),
{
    let models = names(postings(Basis::ModelSpend, current));
    lemma_largest_change(current, previous, models.len());
    let largest = largest_change(current, previous, models.len());
    match largest.1 {
        Some(d) => {
            assert(largest.0 == model_change(models[d], current, previous));
        },
        None => {
            assert(num(ZERO).abs() == num(ZERO));
        },
    }
}

/// There is a top model exactly if some session used a model, and none was more costly.
pub proof fn lemma_top_model(entries: Seq<SessionEntry>)
    requires
        summary_defined(entries),
    ensures
        ({
            let models = accounts(Basis::ModelSpend, entries);
            match summary_of(entries).top_model {
                Some(name) => exists|t: int|
                    0 <= t < models.len() && (#[trigger] models[t]).name == name && forall|i: int|
                        0 <= i < models.len() ==> !models[t].cost.less((#[trigger] models[i]).cost),
                None => forall|i: int|
                    0 <= i < entries.len() ==> (#[trigger] entries[i]).models_used@.len() == 0,
            }
        }),
{
    let models = accounts(Basis::ModelSpend, entries);
    if models.len() > 0 {
        lemma_top(models);
        let t = top(models);
        assert(models[t].name == summary_of(entries).top_model->0);
    } else {
        lemma_no_models(entries);
    }
}

/// Without accounts there are no models.
proof fn lemma_no_models(entries: Seq<SessionEntry>)
    requires
        accounts(Basis::ModelSpend, entries).len() == 0,
    ensures
        forall|i: int| 0 <= i < entries.len() ==> (#[trigger] entries[i]).models_used@.len() == 0,
    decreases entries.len(),
{
    let posted = postings(Basis::ModelSpend, entries);
    if posted.len() > 0 {
        let earlier = names(posted.drop_last());
        assert(names(posted).len() > 0) by {
            if earlier.contains(posted.last().name) {
                assert(earlier.len() > 0);
            }
        }
    }
    if entries.len() > 0 {
        let fewer = entries.drop_last();
        let own = charges(Basis::ModelSpend, entries.last());
        assert(own.len() == entries.last().models_used@.len());
        assert(posted.len() == postings(Basis::ModelSpend, fewer).len() + own.len());
        assert(postings(Basis::ModelSpend, fewer) =~= Seq::empty());
        lemma_no_models(fewer);
        assert forall|i: int| 0 <= i < entries.len() implies (
        #[trigger] entries[i]).models_used@.len() == 0 by {
            if i < fewer.len() {
                assert(fewer[i] == entries[i]);
            }
        }
    }
}

/// Whether the costs of accounts can be compared.
pub fn are_comparable(list: &Vec<Account>) -> (r: bool)
    ensures
        r == comparable(account_views(list@)),
{
    if list.len() <= 1 {
        return true;
    }
    let mut i: usize = 0;
    let ghost seen = account_views(list@);
    while i < list.len()
        invariant
            1 < list@.len(),
            i <= list@.len(),
            seen == account_views(list@),
            forall|j: int| 0 <= j < i ==> !(#[trigger] seen[j]).cost.is_nan(),
        decreases list@.len() - i,
    {
        assert(seen[i as int] == list@[i as int]@);
        if list[i].cost.nan() {
            return false;
        }
        i = i + 1;
    }
    true
}

/// The position of the account with the highest cost.
pub fn find_top(list: &Vec<Account>) -> (best: usize)
    requires
        list@.len() > 0,
    ensures
        best == top(account_views(list@)),
        best < list@.len(),
{
    let mut best: usize = 0;
    let mut i: usize = 1;
    let ghost seen = account_views(list@);
    while i < list.len()
        invariant
            1 <= i <= list@.len(),
            best < i,
            seen == account_views(list@),
            best == top(seen.take(i as int)),
        decreases list@.len() - i,
    {
        proof {
            assert(seen.take(i + 1).drop_last() =~= seen.take(i as int));
            assert(seen[i as int] == list@[i as int]@ && seen[best as int] == list@[best as int]@);
            assert(seen.take(i + 1)[best as int] == seen[best as int]);
        }
        if !list[i].cost.less(list[best].cost) {
            best = i;
        }
        i = i + 1;
    }
    assert(seen.take(i as int) =~= seen);
    best
}

/// An amount as a fraction of a total.
pub fn fraction(part: Double, whole: Double) -> (r: Double)
    ensures
        r == fraction_of(part, whole),
{
    part.over(whole.larger(num(THOUSANDTH)))
}

/// Whether the figures of sessions can be computed.
pub fn is_summary_defined(entries: &[SessionEntry]) -> (r: bool)
    ensures
        r == summary_defined(entries@),
{
    let list = all(entries);
    proof {
        lemma_costs_fit(Basis::ModelSpend, entries@);
    }
    let input = checked_total(&list, Measure::Input);
    let cache_read = checked_total(&list, Measure::CacheRead);
    if checked_total(&list, Measure::InputAndOutput).is_none() {
        return false;
    }
    if checked_total(&list, Measure::Messages).is_none() {
        return false;
    }
    match (input, cache_read, tally(Basis::ModelSpend, entries)) {
        (Some(i), Some(c), Some(models)) => i.checked_add(c).is_some() && are_comparable(&models),
        _ => false,
    }
}

/// Computes the figures of sessions.
pub fn compute_period_summary(entries: &[SessionEntry]) -> (summary: PeriodSummary)
    requires
        summary_defined(entries@),
    ensures
        summary@ == summary_of(entries@),
{
    let list = all(entries);
    proof {
        lemma_costs_fit(Basis::ModelSpend, entries@);
    }
    let sessions = entries.len();
    let total_cost = total_spend(&list);
    let total_tokens = checked_total(&list, Measure::InputAndOutput).unwrap();
    let total_input = checked_total(&list, Measure::Input).unwrap();
    let total_cache_read = checked_total(&list, Measure::CacheRead).unwrap();
    let total_messages = checked_total(&list, Measure::Messages).unwrap();
    let context = total_input + total_cache_read;
    let cache_reuse_rate = if context > 0 {
        Double::from_i64(total_cache_read).over(Double::from_i64(context))
    } else {
        num(ZERO)
    };
    let input_tokens_per_message = if total_messages > 0 {
        Double::from_i64(total_input).over(Double::from_i64(total_messages))
    } else {
        num(ZERO)
    };
    let models = tally(Basis::ModelSpend, entries).unwrap();
    let ghost views = accounts(Basis::ModelSpend, entries@);
    assert(account_views(models@).len() == views.len());
    let (top_model, top_cost) = if models.len() > 0 {
        let best = find_top(&models);
        assert(account_views(models@)[best as int] == models@[best as int]@);
        (Some(models[best].name.clone()), models[best].cost)
    } else {
        (None, num(ZERO))
    };
    PeriodSummary {
        sessions,
        total_cost,
        total_tokens,
        avg_cost_per_session: if sessions > 0 {
            total_cost.over(Double::from_usize(sessions))
        } else {
            num(ZERO)
        },
        cache_reuse_rate,
        input_tokens_per_message,
        top_model,
        top_model_share: fraction(top_cost, total_cost),
    }
}

/// The cost of the account of a name, zero if there is none.
fn cost_of(list: &Vec<Account>, name: &String, Ghost(entries): Ghost<Seq<SessionEntry>>) -> (cost:
    Double)
    requires
        account_views(list@) == accounts(Basis::ModelSpend, entries),
    ensures
        cost == account(postings(Basis::ModelSpend, entries), name@).cost,
{
    let ghost posted = postings(Basis::ModelSpend, entries);
    let ghost known = names(posted);
    proof {
        assert(account_views(list@).len() == known.len());
        assert forall|j: int| 0 <= j < list@.len() implies (#[trigger] list@[j])@ == account(
            posted,
            known[j],
        ) && list@[j].name@ == known[j] by {
            assert(account_views(list@)[j] == ledger(posted)[j]);
            lemma_account_name(posted, known[j]);
        }
    }
    match find(list, name) {
        Some(i) => list[i].cost,
        None => {
            proof {
                lemma_account_absent(posted, name@);
                if known.contains(name@) {
                    let j = known.index_of(name@);
                    assert(list@[j].name@ == known[j]);
                }
            }
            num(ZERO)
        },
    }
}

/// Names the model whose cost changed most.
pub fn find_main_cost_driver(current: &[SessionEntry], previous: &[SessionEntry]) -> (s: String)
    ensures
        s@ == driver_text(current@, previous@),
{
    proof {
        lemma_costs_fit(Basis::ModelSpend, current@);
        lemma_costs_fit(Basis::ModelSpend, previous@);
    }
    let now = tally(Basis::ModelSpend, current).unwrap();
    let then = tally(Basis::ModelSpend, previous).unwrap();
    let ghost posted = postings(Basis::ModelSpend, current@);
    let ghost known = names(posted);
    let mut largest = num(ZERO);
    let mut driver = "mixed".to_owned();
    let mut i: usize = 0;
    assert(account_views(now@).len() == known.len());
    while i < now.len()
        invariant
            i <= now@.len(),
            now@.len() == known.len(),
            posted == postings(Basis::ModelSpend, current@),
            known == names(posted),
            account_views(now@) == accounts(Basis::ModelSpend, current@),
            account_views(then@) == accounts(Basis::ModelSpend, previous@),
            largest == largest_change(current@, previous@, i as nat).0,
            driver@ == (match largest_change(current@, previous@, i as nat).1 {
                Some(k) => known[k] + " ("@ + number_text(largest, 2, true) + ")"@,
                None => "mixed"@,
            }),
        decreases now@.len() - i,
    {
        proof {
            assert(account_views(now@)[i as int] == ledger(posted)[i as int]);
            lemma_account_name(posted, known[i as int]);
        }
        let change = now[i].cost.minus(cost_of(&then, &now[i].name, Ghost(previous@)));
        if largest.abs().less(change.abs()) {
            largest = change;
            driver = now[i].name.clone().concat(" (").concat(number(change, 2, true).as_str()).concat(
                ")",
            );
        }
        i = i + 1;
    }
    driver
}

/// Computes how two periods differ.
pub fn compute_deltas(
    current: &PeriodSummary,
    previous: &PeriodSummary,
    current_entries: &[SessionEntry],
    previous_entries: &[SessionEntry],
) -> (delta: PeriodDelta)
    requires
        current.sessions <= i64::MAX,
        previous.sessions <= i64::MAX,
    ensures
        delta@ == delta_of(current@, previous@, current_entries@, previous_entries@),
{
    let cost_change = current.total_cost.minus(previous.total_cost);
    let cost_change_pct = if num(ZERO).less(previous.total_cost) {
        cost_change.over(previous.total_cost).times(num(HUNDRED))
    } else {
        num(ZERO)
    };
    PeriodDelta {
        cost_change,
        cost_change_pct,
        sessions_change: current.sessions as i64 - previous.sessions as i64,
        cache_rate_change_pp: current.cache_reuse_rate.minus(previous.cache_reuse_rate).times(
            num(HUNDRED),
        ),
        main_driver: find_main_cost_driver(current_entries, previous_entries),
    }
}

/// Swapping the terms of a difference reverses it, also when it is scaled.
proof fn lemma_swapped(a: Double, b: Double)
    requires
        !a.is_nan(),
        !b.is_nan(),
        a.is_finite() || b.is_finite(),
    ensures
        a.minus(b).times(num(HUNDRED)).value() == -b.minus(a).times(num(HUNDRED)).value(),
{
    let (x, y) = (a.minus(b), b.minus(a));
    lemma_whole_limits();
    lemma_whole_units(100);
    lemma_difference_sign(a, b);
    lemma_difference_sign(b, a);
    lemma_scaled_sign(x, num(HUNDRED));
    lemma_scaled_sign(y, num(HUNDRED));
    if x.value() > 0 {
        lemma_scaled_sign(y.negated(), num(HUNDRED));
        assert(y.negated().value() == x.value());
        lemma_same_positive(y.negated(), x);
    } else if x.value() < 0 {
        lemma_scaled_sign(x.negated(), num(HUNDRED));
        assert(x.negated().value() == y.value());
        lemma_same_positive(x.negated(), y);
    }
}

/// The changes are those from the previous period to the current one: positive where the current
/// figure is larger, negative where it is smaller, and reversed where the periods are swapped. The
/// cache rate changes by the difference of the rates in percentage points.
pub proof fn lemma_changes_signed(
    current: PeriodSummaryView,
    previous: PeriodSummaryView,
    current_entries: Seq<SessionEntry>,
    previous_entries: Seq<SessionEntry>,
)
    ensures
        ({
            let d = delta_of(current, previous, current_entries, previous_entries);
            let back = delta_of(previous, current, previous_entries, current_entries);
            let (cost, old_cost) = (current.total_cost, previous.total_cost);
            let (rate, old_rate) = (current.cache_reuse_rate, previous.cache_reuse_rate);
            &&& d.sessions_change == current.sessions - previous.sessions
            &&& d.sessions_change == -back.sessions_change
            &&& !cost.is_nan() && !old_cost.is_nan() && (cost.is_finite() || old_cost.is_finite())
                ==> {
                &&& !d.cost_change.is_nan()
                &&& d.cost_change.value() < 0 <==> cost.less(old_cost)
                &&& d.cost_change.value() > 0 <==> old_cost.less(cost)
                &&& d.cost_change.value() == -back.cost_change.value()
            }
            &&& !rate.is_nan() && !old_rate.is_nan() && (rate.is_finite() || old_rate.is_finite())
                ==> {
                &&& !d.cache_rate_change_pp.is_nan()
                &&& d.cache_rate_change_pp.value() < 0 <==> rate.less(old_rate)
                &&& d.cache_rate_change_pp.value() > 0 <==> old_rate.less(rate)
                &&& d.cache_rate_change_pp.value() == -back.cache_rate_change_pp.value()
            }
            &&& d.cache_rate_change_pp == rate.minus(old_rate).times(num(HUNDRED))
        }),
{
    let (cost, old_cost) = (current.total_cost, previous.total_cost);
    let (rate, old_rate) = (current.cache_reuse_rate, previous.cache_reuse_rate);
    if !cost.is_nan() && !old_cost.is_nan() && (cost.is_finite() || old_cost.is_finite()) {
        lemma_difference_sign(cost, old_cost);
    }
    if !rate.is_nan() && !old_rate.is_nan() && (rate.is_finite() || old_rate.is_finite()) {
        lemma_difference_sign(rate, old_rate);
        lemma_whole_limits();
        lemma_whole_units(100);
        lemma_scaled_sign(rate.minus(old_rate), num(HUNDRED));
        lemma_swapped(rate, old_rate);
    }
}

/// The change of the cost in percent is relative to the previous cost and has the sign of the
/// change. It is zero where the previous cost is not positive.
pub proof fn lemma_percent_signed(
    current: PeriodSummaryView,
    previous: PeriodSummaryView,
    current_entries: Seq<SessionEntry>,
    previous_entries: Seq<SessionEntry>,
)
    ensures
        ({
            let d = delta_of(current, previous, current_entries, previous_entries);
            let (cost, old_cost) = (current.total_cost, previous.total_cost);
            &&& !num(ZERO).less(old_cost) ==> d.cost_change_pct == num(ZERO)
            &&& num(ZERO).less(old_cost) ==> d.cost_change_pct == cost.minus(old_cost).over(
                old_cost,
            ).times(num(HUNDRED))
            &&& num(ZERO).less(old_cost) && old_cost.is_finite() && !cost.is_nan() ==> {
                &&& !d.cost_change_pct.is_nan()
                &&& cost.less(old_cost) ==> d.cost_change_pct.value() <= 0
                &&& old_cost.less(cost) ==> d.cost_change_pct.value() >= 0
            }
        }),
{
    let (cost, old_cost) = (current.total_cost, previous.total_cost);
    if num(ZERO).less(old_cost) && old_cost.is_finite() && !cost.is_nan() {
        let x = cost.minus(old_cost);
        let part = x.over(old_cost);
        lemma_no_units(old_cost.magnitude());
        lemma_no_units(0);
        assert(num(ZERO).value() == 0);
        lemma_difference_sign(cost, old_cost);
        lemma_no_units(x.magnitude());
        lemma_nearest_bounded(x.units() * pow2(ONE_EXPONENT as nat), old_cost.units());
        assert(!part.is_nan());
        if x.value() <= 0 {
            lemma_quotient_sign(x, old_cost);
        } else {
            lemma_no_units(part.magnitude());
            assert(!part.is_negative());
        }
        lemma_whole_limits();
        lemma_whole_units(100);
        lemma_scaled_sign(part, num(HUNDRED));
    }
}

/// Where the cost grows by a whole multiple of the previous cost, it changes by as many hundred
/// percent, and from a cache rate of zero to one there are a hundred points.
pub proof fn lemma_whole_changes(
    current: PeriodSummaryView,
    previous: PeriodSummaryView,
    current_entries: Seq<SessionEntry>,
    previous_entries: Seq<SessionEntry>,
    old_cost: int,
    times: int,
)
    requires
        0 < old_cost < 0x100_0000,
        0 <= times < 0x100_0000,
        previous.total_cost == of_int(old_cost),
        current.total_cost == of_int(old_cost + times * old_cost),
        previous.cache_reuse_rate == num(ZERO),
        current.cache_reuse_rate == num(ONE),
    ensures
        ({
            let d = delta_of(current, previous, current_entries, previous_entries);
            &&& d.cost_change == of_int(times * old_cost)
            &&& d.cost_change_pct == of_int(100 * times)
            &&& d.cache_rate_change_pp == of_int(100)
        }),
{
    let more = times * old_cost;
    assert(0 <= more <= 0x100_0000 * 0x100_0000) by (nonlinear_arith)
        requires
            0 < old_cost < 0x100_0000,
            0 <= times < 0x100_0000,
            more == times * old_cost,
    ;
    lemma_whole_limits();
    lemma_whole_difference(old_cost + more, old_cost);
    lemma_integer_sum(0, old_cost);
    lemma_whole_quotient(times, old_cost);
    assert(times * 100 == 100 * times);
    lemma_whole_product(times, 100);
    lemma_whole_difference(1, 0);
    lemma_whole_product(1, 100);
}

/// The figures of a period: how many sessions there are, what they cost in all and on average, how
/// many tokens were sent and received, which part of the context came from a cache, and how much
/// input a message took.
pub proof fn lemma_figures(entries: Seq<SessionEntry>)
    ensures
        ({
            let s = summary_of(entries);
            let (input, output) = (total(entries, Measure::Input), total(entries, Measure::Output));
            let cached = total(entries, Measure::CacheRead);
            let messages = total(entries, Measure::Messages);
            &&& s.sessions == entries.len()
            &&& s.total_cost == spend(entries)
            &&& s.total_tokens == input + output
            &&& entries.len() > 0 ==> s.avg_cost_per_session == s.total_cost.over(
                of_int(entries.len() as int),
            )
            &&& entries.len() == 0 ==> s.avg_cost_per_session == num(ZERO)
            &&& input + cached > 0 ==> s.cache_reuse_rate == of_int(cached).over(
                of_int(input + cached),
            )
            &&& input + cached <= 0 ==> s.cache_reuse_rate == num(ZERO)
            &&& messages > 0 ==> s.input_tokens_per_message == of_int(input).over(of_int(messages))
            &&& messages <= 0 ==> s.input_tokens_per_message == num(ZERO)
        }),
{
    lemma_all_tokens(entries);
}

/// With counts that are exact, the reuse rate is less than a fraction exactly if the tokens read
/// from a cache are less than that fraction of all tokens sent.
pub proof fn lemma_whole_figures(entries: Seq<SessionEntry>, p: int, q: int)
    requires
        total(entries, Measure::Input) >= 0,
        total(entries, Measure::CacheRead) >= 0,
        0 < total(entries, Measure::Input) + total(entries, Measure::CacheRead) < HIDDEN_BIT,
        0 <= p < HIDDEN_BIT,
        0 < q < HIDDEN_BIT,
        p * (total(entries, Measure::Input) + total(entries, Measure::CacheRead)) < HIDDEN_BIT,
    ensures
        summary_of(entries).cache_reuse_rate.less(of_int(p).over(of_int(q))) <==> total(
            entries,
            Measure::CacheRead,
        ) * q < p * (total(entries, Measure::Input) + total(entries, Measure::CacheRead)),
{
    let (input, cached) = (total(entries, Measure::Input), total(entries, Measure::CacheRead));
    lemma_quotients_compare(cached, input + cached, p, q);
}

/// The accounts that come after the top one cost less than it.
pub proof fn lemma_top_is_last(accounts: Seq<AccountView>)
    requires
        accounts.len() > 0,
        comparable(accounts),
    ensures
        forall|i: int|
            top(accounts) < i < accounts.len() ==> (#[trigger] accounts[i]).cost.less(
                accounts[top(accounts)].cost,
            ),
    decreases accounts.len(),
{
    if accounts.len() > 1 {
        let fewer = accounts.drop_last();
        assert(comparable(fewer)) by {
            assert forall|i: int| 0 <= i < fewer.len() implies !(
            #[trigger] fewer[i]).cost.is_nan() by {
                assert(fewer[i] == accounts[i]);
            }
        }
        lemma_top(fewer);
        lemma_top_is_last(fewer);
        let best = top(fewer);
        assert(fewer[best] == accounts[best]);
        assert forall|i: int| top(accounts) < i < accounts.len() implies (
        #[trigger] accounts[i]).cost.less(accounts[top(accounts)].cost) by {
            if i < fewer.len() {
                assert(fewer[i] == accounts[i]);
            }
        }
    }
}

/// The share of the top model is what it cost, out of all spend, which counts as $0.001 at least. No
/// model costs more, and those that come after it cost less.
pub proof fn lemma_top_share(entries: Seq<SessionEntry>)
    requires
        summary_defined(entries),
    ensures
        ({
            let models = accounts(Basis::ModelSpend, entries);
            let s = summary_of(entries);
            let least = spend(entries).larger(num(THOUSANDTH));
            &&& models.len() == 0 ==> s.top_model is None && s.top_model_share == num(ZERO).over(
                least,
            )
            &&& models.len() > 0 ==> exists|t: int|
                0 <= t < models.len() && s.top_model == Some((#[trigger] models[t]).name)
                    && s.top_model_share == models[t].cost.over(least) && (forall|i: int|
                    0 <= i < models.len() ==> !models[t].cost.less((#[trigger] models[i]).cost))
                    && (forall|i: int|
                    t < i < models.len() ==> (#[trigger] models[i]).cost.less(models[t].cost))
        }),
{
    let models = accounts(Basis::ModelSpend, entries);
    if models.len() > 0 {
        lemma_top(models);
        lemma_top_is_last(models);
        let t = top(models);
        assert(summary_of(entries).top_model == Some(models[t].name));
    }
}

/// Where each session has one model, a model changes by what the sessions on it cost now, less what
/// they cost in the previous period.
pub proof fn lemma_model_changes(
    current: Seq<SessionEntry>,
    previous: Seq<SessionEntry>,
    model: Seq<char>,
)
    requires
        one_model_each(current),
        one_model_each(previous),
    ensures
        same_number(
            model_change(model, current, previous),
            spend(current.filter(is_on(model))).minus(spend(previous.filter(is_on(model)))),
        ),
{
    lemma_model_accounts(current, model);
    lemma_model_accounts(previous, model);
    lemma_same_difference(
        account(postings(Basis::ModelSpend, current), model).cost,
        spend(current.filter(is_on(model))),
        account(postings(Basis::ModelSpend, previous), model).cost,
        spend(previous.filter(is_on(model))),
    );
}

proof fn lemma_first_largest(current: Seq<SessionEntry>, previous: Seq<SessionEntry>, n: nat)
    requires
        n <= names(postings(Basis::ModelSpend, current)).len(),
    ensures
        ({
            let models = names(postings(Basis::ModelSpend, current));
            let largest = largest_change(current, previous, n);
            largest.1 matches Some(d) ==> num(ZERO).less(largest.0.abs()) && forall|i: int|
                0 <= i < d ==> !largest.0.abs().at_most(
                    model_change(#[trigger] models[i], current, previous).abs(),
                )
        }),
    decreases n,
{
    if n > 0 {
        lemma_first_largest(current, previous, (n - 1) as nat);
        lemma_largest_change(current, previous, (n - 1) as nat);
        assert(num(ZERO).abs() == num(ZERO));
        let models = names(postings(Basis::ModelSpend, current));
        let best = largest_change(current, previous, (n - 1) as nat);
        let change = model_change(models[n - 1], current, previous);
        if best.0.abs().less(change.abs()) {
            assert forall|i: int| 0 <= i < n - 1 implies !change.abs().at_most(
                model_change(#[trigger] models[i], current, previous).abs(),
            ) by {
                assert(!best.0.abs().less(model_change(models[i], current, previous).abs()));
            }
        }
    }
}

/// Of several models that changed most, the first one is named; and where some model changed, one
/// is named.
pub proof fn lemma_first_driver(current: Seq<SessionEntry>, previous: Seq<SessionEntry>)
    ensures
        ({
            let models = names(postings(Basis::ModelSpend, current));
            &&& (forall|i: int|
                0 <= i < models.len() ==> !num(ZERO).less(
                    model_change(#[trigger] models[i], current, previous).abs(),
                )) ==> driver_text(current, previous) == "mixed"@
            &&& (exists|i: int|
                0 <= i < models.len() && num(ZERO).less(
                    model_change(#[trigger] models[i], current, previous).abs(),
                )) ==> exists|d: int|
                0 <= d < models.len() && driver_text(current, previous) == (#[trigger] models[d])
                    + " ("@ + number_text(model_change(models[d], current, previous), 2, true)
                    + ")"@ && (forall|i: int|
                    0 <= i < models.len() ==> !model_change(models[d], current, previous).abs().less(
                        model_change(#[trigger] models[i], current, previous).abs(),
                    )) && forall|i: int|
                    0 <= i < d ==> !model_change(models[d], current, previous).abs().at_most(
                        model_change(#[trigger] models[i], current, previous).abs(),
                    )
        }),
{
    let models = names(postings(Basis::ModelSpend, current));
    lemma_largest_change(current, previous, models.len());
    lemma_first_largest(current, previous, models.len());
    assert(num(ZERO).abs() == num(ZERO));
    let largest = largest_change(current, previous, models.len());
    match largest.1 {
        Some(d) => {
            assert(largest.0 == model_change(models[d], current, previous));
            assert(num(ZERO).less(model_change(models[d], current, previous).abs()));
        },
        None => {},
    }
}

} // verus!
