//! Sums by name: what each model, workspace or task category accounts for.
//!
//! Sessions give rise to postings, each to one name; the ledger of postings has one account per
//! name, in the order in which the names first occur.

use crate::double::{Double, lemma_integer_exact, lemma_no_units, of_int};
use crate::entries::{
    Measure, SessionEntry, all, fits, lemma_all_tokens, measure, measured, spend, total,
};
use crate::exact::{
    lemma_over_one, lemma_same_sum, lemma_times_one, lemma_whole_limits, lemma_whole_truncated,
    same_number,
};
use crate::numbers::{ONE, ZERO, num};
use crate::rounding::SIGNIFICAND_LIMIT;
use vstd::prelude::*;

verus! {

/// What is added to an account at a time.
#[derive(Debug)]
pub struct Posting {
    pub name: String,
    pub cost: Double,
    pub first: i64,
    pub second: i64,
}

/// The sums of the postings to one name.
#[derive(Debug)]
pub struct Account {
    pub name: String,
    pub cost: Double,
    pub first: i64,
    pub second: i64,
    /// The number of postings.
    pub count: usize,
}

pub struct PostingView {
    pub name: Seq<char>,
    pub cost: Double,
    pub first: int,
    pub second: int,
}

pub struct AccountView {
    pub name: Seq<char>,
    pub cost: Double,
    pub first: int,
    pub second: int,
    pub count: nat,
}

impl View for Posting {
    type V = PostingView;

    open spec fn view(&self) -> PostingView {
        PostingView {
            name: self.name@,
            cost: self.cost,
            first: self.first as int,
            second: self.second as int,
        }
    }
}

impl View for Account {
    type V = AccountView;

    open spec fn view(&self) -> AccountView {
        AccountView {
            name: self.name@,
            cost: self.cost,
            first: self.first as int,
            second: self.second as int,
            count: self.count as nat,
        }
    }
}

pub open spec fn posting_views(list: Seq<Posting>) -> Seq<PostingView> {
    list.map_values(|p: Posting| p@)
}

pub open spec fn account_views(list: Seq<Account>) -> Seq<AccountView> {
    list.map_values(|a: Account| a@)
}

/// The names of postings, each once, in the order of their first occurrence.
pub open spec fn names(postings: Seq<PostingView>) -> Seq<Seq<char>>
    decreases postings.len(),
{
    if postings.len() == 0 {
        Seq::empty()
    } else {
        let earlier = names(postings.drop_last());
        if earlier.contains(postings.last().name) {
            earlier
        } else {
            earlier.push(postings.last().name)
        }
    }
}

/// The sums of the postings to `name`, added in order; the sum of no costs is zero.
pub open spec fn account(postings: Seq<PostingView>, name: Seq<char>) -> AccountView
    decreases postings.len(),
{
    if postings.len() == 0 {
        AccountView { name, cost: num(ZERO), first: 0, second: 0, count: 0 }
    } else {
        let earlier = account(postings.drop_last(), name);
        let last = postings.last();
        if last.name == name {
            AccountView {
                name,
                cost: earlier.cost.plus(last.cost),
                first: earlier.first + last.first,
                second: earlier.second + last.second,
                count: earlier.count + 1,
            }
        } else {
            earlier
        }
    }
}

/// The accounts of all names.
pub open spec fn ledger(postings: Seq<PostingView>) -> Seq<AccountView> {
    names(postings).map_values(|name: Seq<char>| account(postings, name))
}

/// Keeping the ledger stays within 64 bits throughout.
pub open spec fn ledger_fits(postings: Seq<PostingView>) -> bool
    decreases postings.len(),
{
    postings.len() > 0 ==> {
        let changed = account(postings, postings.last().name);
        &&& ledger_fits(postings.drop_last())
        &&& fits(changed.first)
        &&& fits(changed.second)
    }
}

/// What sessions are posted by.
#[derive(Clone, Copy, Debug)]
pub enum Basis {
    /// The cost of a session, divided among its models.
    ModelSpend,
    /// The same, with input tokens (`first`) and cached tokens read (`second`).
    ModelContext,
    /// The same, with all tokens (`first`).
    ModelTokens,
    /// The cost of a session, to its workspace.
    Workspace,
    /// The cost of a session, to its task category.
    Category,
}

/// The number of models that a session is divided among, at least one.
pub open spec fn model_count(e: SessionEntry) -> Double {
    of_int(if e.models_used@.len() == 0 { 1 } else { e.models_used@.len() as int })
}

/// The fraction of a session that falls to each of its models.
pub open spec fn model_share(e: SessionEntry) -> Double {
    num(ONE).over(model_count(e))
}

/// `n`, times the fraction of a session that falls to each model, cut to an integer.
pub open spec fn shared_tokens(n: int, e: SessionEntry) -> int {
    of_int(n).times(model_share(e)).truncated() as int
}

pub open spec fn workspace_name(e: SessionEntry) -> Seq<char> {
    match e.workspace {
        Some(w) => w@,
        None => "(none)"@,
    }
}

pub open spec fn category_name(e: SessionEntry) -> Seq<char> {
    match e.task_category {
        Some(c) => c@,
        None => "other"@,
    }
}

/// The posting of a session to one name.
pub open spec fn charge(basis: Basis, e: SessionEntry, name: Seq<char>) -> PostingView {
    match basis {
        Basis::ModelSpend => PostingView {
            name,
            cost: e.total_cost.over(model_count(e)),
            first: 0,
            second: 0,
        },
        Basis::ModelContext => PostingView {
            name,
            cost: e.total_cost.times(model_share(e)),
            first: shared_tokens(e.total_input_tokens as int, e),
            second: shared_tokens(e.total_cache_read as int, e),
        },
        Basis::ModelTokens => PostingView {
            name,
            cost: e.total_cost.times(model_share(e)),
            first: shared_tokens(measured(e, Measure::InputAndOutput), e),
            second: 0,
        },
        _ => PostingView { name, cost: e.total_cost, first: 0, second: 0 },
    }
}

/// The names that a session is posted to.
pub open spec fn charged_names(basis: Basis, e: SessionEntry) -> Seq<Seq<char>> {
    match basis {
        Basis::Workspace => seq![workspace_name(e)],
        Basis::Category => seq![category_name(e)],
        _ => e.models_used@.map_values(|m: String| m@),
    }
}

/// The postings of one session.
pub open spec fn charges(basis: Basis, e: SessionEntry) -> Seq<PostingView> {
    charged_names(basis, e).map_values(|name: Seq<char>| charge(basis, e, name))
}

/// The postings of sessions.
pub open spec fn postings(basis: Basis, entries: Seq<SessionEntry>) -> Seq<PostingView>
    decreases entries.len(),
{
    if entries.len() == 0 {
        Seq::empty()
    } else {
        postings(basis, entries.drop_last()) + charges(basis, entries.last())
    }
}

/// All counts that are posted fit in 64 bits.
pub open spec fn charges_fit(basis: Basis, entries: Seq<SessionEntry>) -> bool {
    basis is ModelTokens ==> forall|i: int|
        0 <= i < entries.len() && (#[trigger] entries[i]).models_used@.len() > 0 ==> fits(
            measured(entries[i], Measure::InputAndOutput),
        )
}

/// Sessions can be posted and summed up within 64 bits.
pub open spec fn tally_fits(basis: Basis, entries: Seq<SessionEntry>) -> bool {
    charges_fit(basis, entries) && ledger_fits(postings(basis, entries))
}

/// The accounts of sessions.
pub open spec fn accounts(basis: Basis, entries: Seq<SessionEntry>) -> Seq<AccountView> {
    ledger(postings(basis, entries))
}

/// Each account is the one of its name.
pub proof fn lemma_account_name(postings: Seq<PostingView>, name: Seq<char>)
    ensures
        account(postings, name).name == name,
    decreases postings.len(),
{
    if postings.len() > 0 {
        lemma_account_name(postings.drop_last(), name);
    }
}

/// A name without postings has an empty account, and a name with postings stands in the ledger.
pub proof fn lemma_account_absent(postings: Seq<PostingView>, name: Seq<char>)
    ensures
        !names(postings).contains(name) ==> account(postings, name) == (AccountView {
            name,
            cost: num(ZERO),
            first: 0,
            second: 0,
            count: 0,
        }),
        names(postings).contains(name) <==> account(postings, name).count > 0,
        account(postings, name).count <= postings.len(),
    decreases postings.len(),
{
    if postings.len() > 0 {
        let earlier = postings.drop_last();
        let last = postings.last().name;
        lemma_account_absent(earlier, name);
        let known = names(earlier);
        if !known.contains(last) {
            assert(names(postings)[known.len() as int] == last);
            if known.contains(name) {
                let i = known.index_of(name);
                assert(names(postings)[i] == name);
            }
            if names(postings).contains(name) && name != last {
                let i = names(postings).index_of(name);
                assert(known[i] == name);
            }
        }
    }
}

proof fn lemma_no_counts(postings: Seq<PostingView>, name: Seq<char>)
    requires
        forall|i: int|
            0 <= i < postings.len() ==> (#[trigger] postings[i]).first == 0 && postings[i].second
                == 0,
    ensures
        account(postings, name).first == 0,
        account(postings, name).second == 0,
    decreases postings.len(),
{
    if postings.len() > 0 {
        assert(postings[postings.len() - 1].first == 0);
        assert forall|i: int| 0 <= i < postings.drop_last().len() implies (
        #[trigger] postings.drop_last()[i]).first == 0 && postings.drop_last()[i].second == 0 by {
            assert(postings.drop_last()[i] == postings[i]);
        }
        lemma_no_counts(postings.drop_last(), name);
    }
}

proof fn lemma_ledger_without_counts(postings: Seq<PostingView>)
    requires
        forall|i: int|
            0 <= i < postings.len() ==> (#[trigger] postings[i]).first == 0 && postings[i].second
                == 0,
    ensures
        ledger_fits(postings),
    decreases postings.len(),
{
    if postings.len() > 0 {
        lemma_no_counts(postings, postings.last().name);
        assert forall|i: int| 0 <= i < postings.drop_last().len() implies (
        #[trigger] postings.drop_last()[i]).first == 0 && postings.drop_last()[i].second == 0 by {
            assert(postings.drop_last()[i] == postings[i]);
        }
        lemma_ledger_without_counts(postings.drop_last());
    }
}

/// Where only costs are posted, nothing can exceed 64 bits.
pub proof fn lemma_costs_fit(basis: Basis, entries: Seq<SessionEntry>)
    requires
        !(basis is ModelContext),
        !(basis is ModelTokens),
    ensures
        tally_fits(basis, entries),
{
    lemma_only_costs(basis, entries);
    lemma_ledger_without_counts(postings(basis, entries));
}

proof fn lemma_only_costs(basis: Basis, entries: Seq<SessionEntry>)
    requires
        !(basis is ModelContext),
        !(basis is ModelTokens),
    ensures
        forall|i: int|
            0 <= i < postings(basis, entries).len() ==> (#[trigger] postings(
                basis,
                entries,
            )[i]).first == 0 && postings(basis, entries)[i].second == 0,
    decreases entries.len(),
{
    if entries.len() > 0 {
        lemma_only_costs(basis, entries.drop_last());
        let earlier = postings(basis, entries.drop_last());
        let own = charges(basis, entries.last());
        assert forall|i: int| 0 <= i < postings(basis, entries).len() implies (#[trigger] postings(
            basis,
            entries,
        )[i]).first == 0 && postings(basis, entries)[i].second == 0 by {
            if i < earlier.len() {
                assert(postings(basis, entries)[i] == earlier[i]);
            } else {
                assert(postings(basis, entries)[i] == own[i - earlier.len()]);
            }
        }
    }
}

/// No two accounts of a ledger have the same name.
pub proof fn lemma_names_distinct(postings: Seq<PostingView>)
    ensures
        names(postings).no_duplicates(),
    decreases postings.len(),
{
    if postings.len() > 0 {
        let earlier = names(postings.drop_last());
        lemma_names_distinct(postings.drop_last());
        if !earlier.contains(postings.last().name) {
            assert forall|i: int, j: int|
                0 <= i < names(postings).len() && 0 <= j < names(postings).len() && i
                    != j implies names(postings)[i] != names(postings)[j] by {
                if i < earlier.len() {
                    assert(earlier.contains(earlier[i]));
                }
                if j < earlier.len() {
                    assert(earlier.contains(earlier[j]));
                }
            }
        }
    }
}

/// The names of postings are those that something was posted to.
proof fn lemma_posted_name(postings: Seq<PostingView>, i: int)
    requires
        0 <= i < postings.len(),
    ensures
        names(postings).contains(postings[i].name),
    decreases postings.len(),
{
    let earlier = names(postings.drop_last());
    let all = names(postings);
    if i == postings.len() - 1 {
        if !earlier.contains(postings[i].name) {
            assert(all[earlier.len() as int] == postings[i].name);
        }
    } else {
        lemma_posted_name(postings.drop_last(), i);
        assert(postings.drop_last()[i] == postings[i]);
        let k = earlier.index_of(postings[i].name);
        assert(all[k] == postings[i].name);
    }
}

/// Whatever a session is posted to has an account.
pub proof fn lemma_charged_name(basis: Basis, entries: Seq<SessionEntry>, i: int, k: int)
    requires
        0 <= i < entries.len(),
        0 <= k < charged_names(basis, entries[i]).len(),
    ensures
        names(postings(basis, entries)).contains(charged_names(basis, entries[i])[k]),
{
    let at = lemma_charge_posted(basis, entries, i, k);
    lemma_posted_name(postings(basis, entries), at);
}

proof fn lemma_charge_posted(basis: Basis, entries: Seq<SessionEntry>, i: int, k: int) -> (at: int)
    requires
        0 <= i < entries.len(),
        0 <= k < charged_names(basis, entries[i]).len(),
    ensures
        0 <= at < postings(basis, entries).len(),
        postings(basis, entries)[at].name == charged_names(basis, entries[i])[k],
    decreases entries.len(),
{
    let fewer = entries.drop_last();
    let earlier = postings(basis, fewer);
    let own = charges(basis, entries.last());
    if i == entries.len() - 1 {
        assert(own[k].name == charged_names(basis, entries[i])[k]);
        assert(postings(basis, entries)[earlier.len() + k] == own[k]);
        earlier.len() + k
    } else {
        assert(fewer[i] == entries[i]);
        let at = lemma_charge_posted(basis, fewer, i, k);
        assert(postings(basis, entries)[at] == earlier[at]);
        at
    }
}

/// The number of postings to accounts.
pub open spec fn count_sum(accounts: Seq<AccountView>) -> nat
    decreases accounts.len(),
{
    if accounts.len() == 0 {
        0
    } else {
        count_sum(accounts.drop_last()) + accounts.last().count
    }
}

spec fn postings_to(list: Seq<Seq<char>>, postings: Seq<PostingView>) -> Seq<AccountView> {
    list.map_values(|name: Seq<char>| account(postings, name))
}

/// One more posting counts once, if its name is listed.
proof fn lemma_count_next(list: Seq<Seq<char>>, postings: Seq<PostingView>)
    requires
        postings.len() > 0,
        list.no_duplicates(),
    ensures
        count_sum(postings_to(list, postings)) == count_sum(
            postings_to(list, postings.drop_last()),
        ) + (if list.contains(postings.last().name) {
            1nat
        } else {
            0
        }),
    decreases list.len(),
{
    if list.len() > 0 {
        let fewer = list.drop_last();
        let name = postings.last().name;
        lemma_count_next(fewer, postings);
        assert(postings_to(list, postings).drop_last() =~= postings_to(fewer, postings));
        assert(postings_to(list, postings.drop_last()).drop_last() =~= postings_to(
            fewer,
            postings.drop_last(),
        ));
        if list.last() == name {
            assert(list[list.len() - 1] == name);
            assert(!fewer.contains(name));
        } else if list.contains(name) {
            let i = list.index_of(name);
            assert(fewer[i] == name);
        } else if fewer.contains(name) {
            let i = fewer.index_of(name);
            assert(list[i] == name);
        }
    }
}

proof fn lemma_all_counted(postings: Seq<PostingView>)
    ensures
        count_sum(ledger(postings)) == postings.len(),
    decreases postings.len(),
{
    if postings.len() > 0 {
        let earlier = postings.drop_last();
        let known = names(earlier);
        let name = postings.last().name;
        lemma_all_counted(earlier);
        lemma_names_distinct(earlier);
        lemma_count_next(known, postings);
        assert(postings_to(known, earlier) =~= ledger(earlier));
        if known.contains(name) {
            assert(postings_to(known, postings) =~= ledger(postings));
        } else {
            lemma_account_absent(earlier, name);
            assert(ledger(postings).drop_last() =~= postings_to(known, postings));
            assert(ledger(postings).last() == account(postings, name));
        }
    } else {
        assert(ledger(postings).len() == 0);
    }
}

/// Each session counts once, in one workspace and in one task category.
pub proof fn lemma_each_session_counts_once(basis: Basis, entries: Seq<SessionEntry>)
    requires
        basis is Workspace || basis is Category,
    ensures
        count_sum(accounts(basis, entries)) == entries.len(),
{
    lemma_all_counted(postings(basis, entries));
    lemma_one_posting_each(basis, entries);
}

proof fn lemma_one_posting_each(basis: Basis, entries: Seq<SessionEntry>)
    requires
        basis is Workspace || basis is Category,
    ensures
        postings(basis, entries).len() == entries.len(),
    decreases entries.len(),
{
    if entries.len() > 0 {
        lemma_one_posting_each(basis, entries.drop_last());
        assert(charges(basis, entries.last()).len() == 1);
    }
}

/// The position of the first account of a name.
pub fn find(accounts: &Vec<Account>, name: &String) -> (r: Option<usize>)
    ensures
        r matches Some(i) ==> i < accounts@.len() && accounts@[i as int].name@ == name@
            && forall|j: int| 0 <= j < i ==> (#[trigger] accounts@[j]).name@ != name@,
        r is None ==> forall|j: int|
            0 <= j < accounts@.len() ==> (#[trigger] accounts@[j]).name@ != name@,
{
    let mut i: usize = 0;
    while i < accounts.len()
        invariant
            i <= accounts@.len(),
            forall|j: int| 0 <= j < i ==> (#[trigger] accounts@[j]).name@ != name@,
        decreases accounts@.len() - i,
    {
        if accounts[i].name == *name {
            return Some(i);
        }
        i = i + 1;
    }
    None
}

/// Adds one posting to the accounts of earlier ones, if the sums fit.
fn post(accounts: &mut Vec<Account>, p: &Posting, Ghost(earlier): Ghost<Seq<PostingView>>) -> (ok:
    bool)
    requires
        account_views(old(accounts)@) == ledger(earlier),
        earlier.len() < usize::MAX,
    ensures
        ({
            let changed = account(earlier.push(p@), p.name@);
            ok == (fits(changed.first) && fits(changed.second))
        }),
        ok ==> account_views(final(accounts)@) == ledger(earlier.push(p@)),
{
    let ghost all = earlier.push(p@);
    let ghost before = accounts@;
    let ghost known = names(earlier);
    proof {
        assert(all.drop_last() =~= earlier);
        lemma_account_absent(earlier, p.name@);
        lemma_names_distinct(earlier);
        assert(account_views(before).len() == ledger(earlier).len());
        assert forall|j: int| 0 <= j < before.len() implies (#[trigger] before[j])@ == account(
            earlier,
            known[j],
        ) && before[j].name@ == known[j] by {
            assert(account_views(before)[j] == ledger(earlier)[j]);
            lemma_account_name(earlier, known[j]);
        }
        assert forall|name: Seq<char>| name != p.name@ implies #[trigger] account(all, name)
            == account(earlier, name) by {}
    }
    match find(accounts, &p.name) {
        Some(i) => {
            assert(known[i as int] == p.name@);
            assert(known.contains(p.name@));
            let first = accounts[i].first.checked_add(p.first);
            let second = accounts[i].second.checked_add(p.second);
            match (first, second) {
                (Some(first), Some(second)) => {
                    let name = accounts[i].name.clone();
                    let cost = accounts[i].cost.plus(p.cost);
                    let count = accounts[i].count + 1;
                    accounts.set(i, Account { name, cost, first, second, count });
                    proof {
                        assert(names(all) == known);
                        assert forall|j: int| 0 <= j < accounts@.len() implies account_views(
                            accounts@,
                        )[j] == ledger(all)[j] by {
                            if j != i {
                                assert(accounts@[j] == before[j]);
                                assert(known[j] != known[i as int]);
                            }
                        }
                        assert(account_views(accounts@) =~= ledger(all));
                    }
                    true
                },
                _ => false,
            }
        },
        None => {
            assert(!known.contains(p.name@)) by {
                if known.contains(p.name@) {
                    let j = known.index_of(p.name@);
                    assert(before[j].name@ == known[j]);
                }
            }
            let zero = num(ZERO);
            accounts.push(
                Account {
                    name: p.name.clone(),
                    cost: zero.plus(p.cost),
                    first: p.first,
                    second: p.second,
                    count: 1,
                },
            );
            proof {
                assert(names(all) == known.push(p.name@));
                assert forall|j: int| 0 <= j < accounts@.len() implies account_views(accounts@)[j]
                    == ledger(all)[j] by {
                    if j < known.len() {
                        assert(accounts@[j] == before[j]);
                        assert(known.contains(known[j]));
                    }
                }
                assert(account_views(accounts@) =~= ledger(all));
            }
            true
        },
    }
}

proof fn lemma_ledger_fits_take(postings: Seq<PostingView>, k: int)
    requires
        0 <= k <= postings.len(),
        ledger_fits(postings),
    ensures
        ledger_fits(postings.take(k)),
    decreases postings.len(),
{
    if k < postings.len() {
        lemma_ledger_fits_take(postings.drop_last(), k);
        assert(postings.drop_last().take(k) =~= postings.take(k));
    } else {
        assert(postings.take(k) =~= postings);
    }
}

/// The ledger of postings, if keeping it stays within 64 bits.
pub fn keep(list: &Vec<Posting>) -> (r: Option<Vec<Account>>)
    ensures
        r is Some <==> ledger_fits(posting_views(list@)),
        r matches Some(accounts) ==> account_views(accounts@) == ledger(posting_views(list@)),
{
    let mut accounts: Vec<Account> = Vec::new();
    let mut i: usize = 0;
    let ghost all = posting_views(list@);
    assert(account_views(accounts@) =~= ledger(all.take(0)));
    while i < list.len()
        invariant
            i <= list@.len(),
            all == posting_views(list@),
            account_views(accounts@) == ledger(all.take(i as int)),
            ledger_fits(all.take(i as int)),
        decreases list@.len() - i,
    {
        let ghost next = all.take(i + 1);
        assert(next.drop_last() =~= all.take(i as int));
        assert(all.take(i as int).push(list@[i as int]@) =~= next);
        proof {
            if ledger_fits(all) {
                lemma_ledger_fits_take(all, i + 1);
            }
        }
        if !post(&mut accounts, &list[i], Ghost(all.take(i as int))) {
            return None;
        }
        i = i + 1;
    }
    assert(all.take(i as int) =~= all);
    Some(accounts)
}

fn share_tokens(n: i64, e: &SessionEntry) -> (r: i64)
    ensures
        r == shared_tokens(n as int, *e),
{
    Double::from_i64(n).times(share(e)).truncated()
}

fn models(e: &SessionEntry) -> (r: Double)
    ensures
        r == model_count(*e),
{
    let len = e.models_used.len();
    Double::from_usize(if len == 0 { 1 } else { len })
}

fn share(e: &SessionEntry) -> (r: Double)
    ensures
        r == model_share(*e),
{
    num(ONE).over(models(e))
}

/// The posting of a session to one name, if its counts fit.
fn charge_to(basis: Basis, e: &SessionEntry, name: String) -> (r: Option<Posting>)
    ensures
        r is None <==> basis is ModelTokens && !fits(measured(*e, Measure::InputAndOutput)),
        r matches Some(p) ==> p@ == charge(basis, *e, name@),
{
    match basis {
        Basis::ModelSpend => Some(
            Posting { name, cost: e.total_cost.over(models(e)), first: 0, second: 0 },
        ),
        Basis::ModelContext => Some(
            Posting {
                name,
                cost: e.total_cost.times(share(e)),
                first: share_tokens(e.total_input_tokens, e),
                second: share_tokens(e.total_cache_read, e),
            },
        ),
        Basis::ModelTokens => {
            match measure(e, Measure::InputAndOutput) {
                Some(n) => Some(
                    Posting {
                        name,
                        cost: e.total_cost.times(share(e)),
                        first: share_tokens(n, e),
                        second: 0,
                    },
                ),
                None => None,
            }
        },
        _ => Some(Posting { name, cost: e.total_cost, first: 0, second: 0 }),
    }
}

/// The names that a session is posted to.
fn charge_names(basis: Basis, e: &SessionEntry) -> (list: Vec<String>)
    ensures
        crate::text::texts(list@) == charged_names(basis, *e),
{
    let mut list: Vec<String> = Vec::new();
    match basis {
        Basis::Workspace => {
            list.push(workspace(e));
        },
        Basis::Category => {
            list.push(category(e));
        },
        _ => {
            let mut i: usize = 0;
            while i < e.models_used.len()
                invariant
                    i <= e.models_used@.len(),
                    list@.len() == i,
                    forall|j: int|
                        0 <= j < i ==> (#[trigger] list@[j])@ == e.models_used@[j]@,
                decreases e.models_used@.len() - i,
            {
                list.push(e.models_used[i].clone());
                i = i + 1;
            }
        },
    }
    assert(crate::text::texts(list@) =~= charged_names(basis, *e));
    list
}

/// The name of the workspace of a session.
pub fn workspace(e: &SessionEntry) -> (s: String)
    ensures
        s@ == workspace_name(*e),
{
    match &e.workspace {
        Some(w) => w.clone(),
        None => "(none)".to_owned(),
    }
}

/// The task category of a session.
pub fn category(e: &SessionEntry) -> (s: String)
    ensures
        s@ == category_name(*e),
{
    match &e.task_category {
        Some(c) => c.clone(),
        None => "other".to_owned(),
    }
}

/// The accounts of sessions, if posting and summing up stays within 64 bits.
pub fn tally(basis: Basis, entries: &[SessionEntry]) -> (r: Option<Vec<Account>>)
    ensures
        r is Some <==> tally_fits(basis, entries@),
        r matches Some(list) ==> account_views(list@) == accounts(basis, entries@),
{
    tally_some(basis, &all(entries))
}

/// The accounts of some sessions, if posting and summing up stays within 64 bits.
pub fn tally_some(basis: Basis, sessions: &Vec<&SessionEntry>) -> (r: Option<Vec<Account>>)
    ensures
        r is Some <==> tally_fits(basis, sessions@.unref()),
        r matches Some(list) ==> account_views(list@) == accounts(basis, sessions@.unref()),
{
    let ghost entries = sessions@.unref();
    let mut list: Vec<Posting> = Vec::new();
    let mut i: usize = 0;
    assert(posting_views(list@) =~= postings(basis, entries.take(0)));
    while i < sessions.len()
        invariant
            entries == sessions@.unref(),
            entries.len() == sessions@.len(),
            i <= entries.len(),
            posting_views(list@) == postings(basis, entries.take(i as int)),
            charges_fit(basis, entries.take(i as int)),
        decreases entries.len() - i,
    {
        let e = sessions[i];
        let ghost before = list@;
        let ghost own = charges(basis, *e);
        let owed = charge_names(basis, e);
        let ghost next = entries.take(i + 1);
        proof {
            assert(next.drop_last() =~= entries.take(i as int));
            assert(next[i as int] == *e);
            assert(posting_views(list@) =~= posting_views(before) + own.take(0));
        }
        let mut j: usize = 0;
        while j < owed.len()
            invariant
                entries == sessions@.unref(),
                i < entries.len(),
                *e == entries[i as int],
                j <= owed@.len(),
                crate::text::texts(owed@) == charged_names(basis, *e),
                own == charges(basis, *e),
                posting_views(list@) == posting_views(before) + own.take(j as int),
                j > 0 ==> charges_fit(basis, seq![*e]),
            decreases owed@.len() - j,
        {
            proof {
                assert(crate::text::texts(owed@)[j as int] == owed@[j as int]@);
                assert(own[j as int] == charge(basis, *e, owed@[j as int]@));
            }
            match charge_to(basis, e, owed[j].clone()) {
                Some(p) => {
                    let ghost so_far = list@;
                    list.push(p);
                    proof {
                        assert(posting_views(list@) =~= posting_views(so_far).push(p@));
                        assert(own.take(j + 1) =~= own.take(j as int).push(own[j as int]));
                        assert(posting_views(list@) =~= posting_views(before) + own.take(j + 1));
                    }
                },
                None => {
                    assert(entries[i as int].models_used@.len() > 0);
                    return None;
                },
            }
            j = j + 1;
        }
        proof {
            assert(own.take(j as int) =~= own);
            assert(owed@.len() == charged_names(basis, *e).len());
            assert forall|k: int|
                basis is ModelTokens && 0 <= k < next.len() && (
                #[trigger] next[k]).models_used@.len() > 0 implies fits(
                measured(next[k], Measure::InputAndOutput),
            ) by {
                if k < i {
                    assert(entries.take(i as int)[k] == next[k]);
                } else {
                    assert(seq![*e][0] == *e);
                }
            }
        }
        i = i + 1;
    }
    assert(entries.take(i as int) =~= entries);
    keep(&list)
}

/// A session with `n` models is posted to each of them, with an `n`-th of its cost and its tokens.
pub proof fn lemma_models_share(e: SessionEntry, i: int)
    requires
        0 <= i < e.models_used@.len(),
    ensures
        ({
            let n = of_int(e.models_used@.len() as int);
            let part = num(ONE).over(n);
            let (a, b, c) = (
                charges(Basis::ModelSpend, e),
                charges(Basis::ModelContext, e),
                charges(Basis::ModelTokens, e),
            );
            &&& a.len() == e.models_used@.len() && b.len() == a.len() && c.len() == a.len()
            &&& a[i].name == e.models_used@[i]@ && b[i].name == a[i].name && c[i].name == a[i].name
            &&& a[i].cost == e.total_cost.over(n)
            &&& b[i].cost == e.total_cost.times(part)
            &&& c[i].cost == e.total_cost.times(part)
            &&& b[i].first == of_int(e.total_input_tokens as int).times(part).truncated()
            &&& b[i].second == of_int(e.total_cache_read as int).times(part).truncated()
            &&& c[i].first == of_int(e.total_input_tokens + e.total_output_tokens).times(
                part,
            ).truncated()
        }),
{
}

/// Sessions whose only model is `model`, among sessions with one model each.
pub open spec fn is_on(model: Seq<char>) -> spec_fn(SessionEntry) -> bool {
    |e: SessionEntry| e.models_used@[0]@ == model
}

/// Each session has one model, and token counts that are exact as binary64 numbers.
pub open spec fn one_model_each(entries: Seq<SessionEntry>) -> bool {
    forall|i: int|
        0 <= i < entries.len() ==> {
            let e = #[trigger] entries[i];
            &&& e.models_used@.len() == 1
            &&& -SIGNIFICAND_LIMIT < e.total_input_tokens < SIGNIFICAND_LIMIT
            &&& -SIGNIFICAND_LIMIT < e.total_cache_read < SIGNIFICAND_LIMIT
            &&& -SIGNIFICAND_LIMIT < e.total_input_tokens + e.total_output_tokens
                < SIGNIFICAND_LIMIT
        }
}

/// Where each session has one model, a model accounts for the spend, the tokens and the number of
/// the sessions on it.
pub proof fn lemma_model_accounts(entries: Seq<SessionEntry>, model: Seq<char>)
    requires
        one_model_each(entries),
    ensures
        ({
            let own = entries.filter(is_on(model));
            let a = account(postings(Basis::ModelSpend, entries), model);
            let b = account(postings(Basis::ModelContext, entries), model);
            let c = account(postings(Basis::ModelTokens, entries), model);
            &&& same_number(a.cost, spend(own))
            &&& same_number(b.cost, spend(own))
            &&& same_number(c.cost, spend(own))
            &&& a.count == own.len() && b.count == own.len() && c.count == own.len()
            &&& b.first == total(own, Measure::Input)
            &&& b.second == total(own, Measure::CacheRead)
            &&& c.first == total(own, Measure::Input) + total(own, Measure::Output)
        }),
    decreases entries.len(),
{
    reveal(Seq::filter);
    let own = entries.filter(is_on(model));
    lemma_all_tokens(own);
    if entries.len() > 0 {
        let fewer = entries.drop_last();
        let e = entries.last();
        assert(entries[entries.len() - 1] == e);
        assert forall|i: int| 0 <= i < fewer.len() implies #[trigger] fewer[i] == entries[i] by {}
        lemma_model_accounts(fewer, model);
        lemma_all_tokens(fewer.filter(is_on(model)));
        lemma_one_charge(Basis::ModelSpend, entries);
        lemma_one_charge(Basis::ModelContext, entries);
        lemma_one_charge(Basis::ModelTokens, entries);
        lemma_whole_limits();
        lemma_integer_exact(1);
        lemma_over_one(num(ONE));
        if !e.total_cost.is_nan() {
            lemma_over_one(e.total_cost);
            lemma_times_one(e.total_cost);
        }
        lemma_unshared(e.total_input_tokens as int);
        lemma_unshared(e.total_cache_read as int);
        lemma_unshared(e.total_input_tokens + e.total_output_tokens);
        if is_on(model)(e) {
            let before = fewer.filter(is_on(model));
            assert(own =~= before.push(e));
            assert(own.drop_last() =~= before);
            let start = spend(before);
            lemma_same_sum(
                account(postings(Basis::ModelSpend, fewer), model).cost,
                start,
                e.total_cost,
            );
            lemma_same_sum(
                account(postings(Basis::ModelContext, fewer), model).cost,
                start,
                e.total_cost,
            );
            lemma_same_sum(
                account(postings(Basis::ModelTokens, fewer), model).cost,
                start,
                e.total_cost,
            );
        }
    } else {
        assert(own =~= Seq::<SessionEntry>::empty());
        lemma_no_units(0);
    }
}

proof fn lemma_unshared(n: int)
    requires
        -SIGNIFICAND_LIMIT < n < SIGNIFICAND_LIMIT,
    ensures
        of_int(n).times(num(ONE)).truncated() == n,
{
    lemma_integer_exact(n);
    lemma_times_one(of_int(n));
    lemma_whole_truncated(n);
}

/// A session that is posted to one name adds one posting.
pub proof fn lemma_one_charge(basis: Basis, entries: Seq<SessionEntry>)
    requires
        entries.len() > 0,
        charged_names(basis, entries.last()).len() == 1,
    ensures
        ({
            let list = postings(basis, entries);
            &&& list.len() > 0
            &&& list.drop_last() == postings(basis, entries.drop_last())
            &&& list.last() == charge(
                basis,
                entries.last(),
                charged_names(basis, entries.last())[0],
            )
        }),
{
    let own = charges(basis, entries.last());
    assert(own.len() == 1);
    assert(postings(basis, entries).drop_last() =~= postings(basis, entries.drop_last()));
    assert(postings(basis, entries).last() == own[0]);
}

/// Sessions in a workspace, those without one under the name "(none)".
pub open spec fn is_in_workspace(name: Seq<char>) -> spec_fn(SessionEntry) -> bool {
    |e: SessionEntry|
        match e.workspace {
            Some(w) => w@ == name,
            None => name == "(none)"@,
        }
}

/// Sessions of a task category, those without one under the name "other".
pub open spec fn is_of_category(name: Seq<char>) -> spec_fn(SessionEntry) -> bool {
    |e: SessionEntry|
        match e.task_category {
            Some(c) => c@ == name,
            None => name == "other"@,
        }
}

/// A workspace or a category accounts for the spend and the number of its sessions.
pub proof fn lemma_group_accounts(entries: Seq<SessionEntry>, name: Seq<char>)
    ensures
        ({
            let a = account(postings(Basis::Workspace, entries), name);
            let own = entries.filter(is_in_workspace(name));
            same_number(a.cost, spend(own)) && a.count == own.len()
        }),
        ({
            let a = account(postings(Basis::Category, entries), name);
            let own = entries.filter(is_of_category(name));
            same_number(a.cost, spend(own)) && a.count == own.len()
        }),
    decreases entries.len(),
{
    reveal(Seq::filter);
    let places = entries.filter(is_in_workspace(name));
    let tasks = entries.filter(is_of_category(name));
    if entries.len() > 0 {
        let fewer = entries.drop_last();
        let e = entries.last();
        lemma_group_accounts(fewer, name);
        lemma_one_charge(Basis::Workspace, entries);
        lemma_one_charge(Basis::Category, entries);
        if is_in_workspace(name)(e) {
            let before = fewer.filter(is_in_workspace(name));
            assert(places =~= before.push(e));
            assert(places.drop_last() =~= before);
            lemma_same_sum(
                account(postings(Basis::Workspace, fewer), name).cost,
                spend(before),
                e.total_cost,
            );
        }
        if is_of_category(name)(e) {
            let before = fewer.filter(is_of_category(name));
            assert(tasks =~= before.push(e));
            assert(tasks.drop_last() =~= before);
            lemma_same_sum(
                account(postings(Basis::Category, fewer), name).cost,
                spend(before),
                e.total_cost,
            );
        }
    } else {
        assert(places =~= Seq::<SessionEntry>::empty());
        assert(tasks =~= Seq::<SessionEntry>::empty());
        lemma_no_units(0);
    }
}

/// A posting adds its cost and its counts to the account of its name and leaves the others as they
/// are; a new name is listed behind those before it.
pub proof fn lemma_posting_adds(postings: Seq<PostingView>, p: PostingView, name: Seq<char>)
    ensures
        ({
            let (before, after) = (account(postings, name), account(postings.push(p), name));
            &&& p.name == name ==> {
                &&& after.cost == before.cost.plus(p.cost)
                &&& after.first == before.first + p.first
                &&& after.second == before.second + p.second
                &&& after.count == before.count + 1
            }
            &&& p.name != name ==> after == before
        }),
        names(postings).contains(p.name) ==> names(postings.push(p)) == names(postings),
        !names(postings).contains(p.name) ==> names(postings.push(p)) == names(postings).push(
            p.name,
        ),
{
    assert(postings.push(p).drop_last() =~= postings);
}

/// Each session adds its postings behind those of the sessions before it: one for each of its
/// models, or its whole cost to its workspace or its category.
pub proof fn lemma_session_posted(entries: Seq<SessionEntry>, e: SessionEntry, basis: Basis)
    ensures
        postings(basis, entries.push(e)) == postings(basis, entries) + charges(basis, e),
        charges(Basis::Workspace, e) == seq![
            PostingView {
                name: match e.workspace {
                    Some(w) => w@,
                    None => "(none)"@,
                },
                cost: e.total_cost,
                first: 0,
                second: 0,
            },
        ],
        charges(Basis::Category, e) == seq![
            PostingView {
                name: match e.task_category {
                    Some(c) => c@,
                    None => "other"@,
                },
                cost: e.total_cost,
                first: 0,
                second: 0,
            },
        ],
        charges(Basis::ModelSpend, e).len() == e.models_used@.len(),
        charges(Basis::ModelContext, e).len() == e.models_used@.len(),
        charges(Basis::ModelTokens, e).len() == e.models_used@.len(),
{
    assert(entries.push(e).drop_last() =~= entries);
    assert(charges(Basis::Workspace, e) =~= seq![charge(Basis::Workspace, e, workspace_name(e))]);
    assert(charges(Basis::Category, e) =~= seq![charge(Basis::Category, e, category_name(e))]);
}

} // verus!
