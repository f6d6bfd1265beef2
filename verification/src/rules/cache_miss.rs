//! Models that process much input in a workspace at a significant cost, hardly any of it from a
//! cache.

use crate::double::{Double, of_int};
use crate::entries::{
    Measure, SessionEntry, fits, lemma_picked_filter, pick, spend, total, uses,
};
use crate::exact::{lemma_fraction_limits, lemma_quotients_compare, lemma_same_compares};
use crate::ledger::{
    Account, AccountView, Basis, account, account_views, accounts, charged_names, is_in_workspace,
    is_on, ledger, lemma_account_name, lemma_charged_name, lemma_costs_fit, lemma_model_accounts,
    lemma_names_distinct, names, one_model_each, postings, tally, tally_fits, tally_some, workspace,
    workspace_name,
};
use crate::numbers::{HUNDRED, TENTH, THREE, TWO_FIFTHS, num};
use crate::recommendation::{Level, Recommendation, RecommendationView, lemma_views_push, views};
use crate::rounding::{HIDDEN_BIT, SIGNIFICAND_LIMIT};
use crate::text::{integer, integer_text, number, number_text, same, texts};
use vstd::prelude::*;

verus! {

/// What a model was used for in a workspace.
pub struct UseView {
    pub workspace: Seq<char>,
    pub account: AccountView,
}

pub open spec fn is_in(workspace: Seq<char>) -> spec_fn(SessionEntry) -> bool {
    |e: SessionEntry| workspace_name(e) == workspace
}

/// What each model was used for in one workspace.
pub open spec fn uses_in(entries: Seq<SessionEntry>, workspace: Seq<char>) -> Seq<UseView> {
    accounts(Basis::ModelContext, entries.filter(is_in(workspace))).map_values(
        |account: AccountView| UseView { workspace, account },
    )
}

/// The workspaces of sessions, each once, in the order of their first occurrence.
pub open spec fn workspaces(entries: Seq<SessionEntry>) -> Seq<Seq<char>> {
    names(postings(Basis::Workspace, entries))
}

/// What each model was used for in each of some workspaces.
pub open spec fn uses_in_all(
    entries: Seq<SessionEntry>,
    places: Seq<Seq<char>>,
) -> Seq<UseView>
    decreases places.len(),
{
    if places.len() == 0 {
        Seq::empty()
    } else {
        uses_in_all(entries, places.drop_last()) + uses_in(entries, places.last())
    }
}

/// One account for each pair of a model and a workspace that it was used in.
pub open spec fn model_workspace_accounts(entries: Seq<SessionEntry>) -> Seq<UseView> {
    uses_in_all(entries, workspaces(entries))
}

/// The tokens that a model was sent, read from a cache or not.
pub open spec fn context(a: AccountView) -> int {
    a.first + a.second
}

/// The part of them that was read from a cache.
pub open spec fn cached_part(a: AccountView) -> Double {
    of_int(a.second).over(of_int(context(a)))
}

/// At least 100000 tokens and $3, and less than a tenth read from a cache.
pub open spec fn misses_cache() -> spec_fn(UseView) -> bool {
    |u: UseView|
        context(u.account) >= 100_000 && !u.account.cost.less(num(THREE)) && cached_part(
            u.account,
        ).less(num(TENTH))
}

/// Where a model was used; nothing for sessions without a workspace.
pub open spec fn place_text(workspace: Seq<char>) -> Seq<char> {
    if workspace == "(none)"@ {
        ""@
    } else {
        " in \""@ + workspace + "\""@
    }
}

pub open spec fn cache_miss_finding() -> spec_fn(UseView) -> RecommendationView {
    |u: UseView|
        RecommendationView {
            id: "cache_miss_expensive"@,
            severity: Level::High,
            confidence: Level::High,
            title: "Cache reuse near zero for "@ + u.account.name + place_text(u.workspace),
            evidence: seq![
                integer_text(context(u.account) / 1000, false)
                    + "k input tokens processed, cache reuse rate: "@ + number_text(
                    cached_part(u.account).times(num(HUNDRED)),
                    0,
                    false,
                ) + "%"@,
                "Spend on this model"@ + place_text(u.workspace) + ": $"@ + number_text(
                    u.account.cost,
                    2,
                    false,
                ),
                "With 50% cache reuse, input costs would drop ~40%"@,
            ],
            action: "Enable prompt caching, use session continuation, or reduce repeated repository context. Check if your client supports cache_control headers."@,
            estimated_savings: Some(u.account.cost.times(num(TWO_FIFTHS))),
        }
}

/// The sums for one workspace stay within 64 bits.
pub open spec fn uses_fit(entries: Seq<SessionEntry>, workspace: Seq<char>) -> bool {
    &&& tally_fits(Basis::ModelContext, entries.filter(is_in(workspace)))
    &&& forall|i: int|
        0 <= i < uses_in(entries, workspace).len() ==> fits(
            context((#[trigger] uses_in(entries, workspace)[i]).account),
        )
}

/// The sums of the rule stay within 64 bits.
pub open spec fn cache_miss_defined(entries: Seq<SessionEntry>) -> bool {
    forall|i: int|
        0 <= i < workspaces(entries).len() ==> uses_fit(entries, #[trigger] workspaces(entries)[i])
}

/// One finding for each model and workspace where the cache is missed.
pub open spec fn cache_miss_findings(entries: Seq<SessionEntry>) -> Seq<RecommendationView> {
    model_workspace_accounts(entries).filter(misses_cache()).map_values(cache_miss_finding())
}

/// The uses in one workspace are of different models, all in that workspace.
proof fn lemma_uses_in(entries: Seq<SessionEntry>, workspace: Seq<char>)
    ensures
        forall|i: int|
            0 <= i < uses_in(entries, workspace).len() ==> (#[trigger] uses_in(
                entries,
                workspace,
            )[i]).workspace == workspace,
        forall|i: int, j: int|
            #![trigger uses_in(entries, workspace)[i], uses_in(entries, workspace)[j]]
            0 <= i < j < uses_in(entries, workspace).len() ==> uses_in(
                entries,
                workspace,
            )[i].account.name != uses_in(entries, workspace)[j].account.name,
{
    let posted = postings(Basis::ModelContext, entries.filter(is_in(workspace)));
    lemma_names_distinct(posted);
    assert forall|i: int, j: int|
        #![trigger uses_in(entries, workspace)[i], uses_in(entries, workspace)[j]]
        0 <= i < j < uses_in(entries, workspace).len() implies uses_in(
        entries,
        workspace,
    )[i].account.name != uses_in(entries, workspace)[j].account.name by {
        lemma_account_name(posted, names(posted)[i]);
        lemma_account_name(posted, names(posted)[j]);
    }
}

proof fn lemma_uses_in_all(entries: Seq<SessionEntry>, places: Seq<Seq<char>>)
    requires
        places.no_duplicates(),
    ensures
        ({
            let list = uses_in_all(entries, places);
            &&& forall|i: int|
                0 <= i < list.len() ==> places.contains((#[trigger] list[i]).workspace)
            &&& forall|i: int, j: int|
                #![trigger list[i], list[j]]
                0 <= i < j < list.len() ==> list[i].workspace != list[j].workspace
                    || list[i].account.name != list[j].account.name
        }),
    decreases places.len(),
{
    if places.len() > 0 {
        let fewer = places.drop_last();
        let last = places.last();
        let (earlier, own) = (uses_in_all(entries, fewer), uses_in(entries, last));
        let list = uses_in_all(entries, places);
        lemma_uses_in_all(entries, fewer);
        lemma_uses_in(entries, last);
        assert forall|i: int| 0 <= i < list.len() implies places.contains(
            (#[trigger] list[i]).workspace,
        ) by {
            if i < earlier.len() {
                assert(list[i] == earlier[i]);
                let k = fewer.index_of(earlier[i].workspace);
                assert(places[k] == list[i].workspace);
            } else {
                assert(list[i] == own[i - earlier.len()]);
                assert(places[places.len() - 1] == last);
            }
        }
        assert forall|i: int, j: int|
            #![trigger list[i], list[j]]
            0 <= i < j < list.len() implies list[i].workspace != list[j].workspace
            || list[i].account.name != list[j].account.name by {
            if j < earlier.len() {
                assert(list[i] == earlier[i] && list[j] == earlier[j]);
            } else {
                assert(list[j] == own[j - earlier.len()]);
                if i < earlier.len() {
                    assert(list[i] == earlier[i]);
                    let k = fewer.index_of(earlier[i].workspace);
                    assert(fewer[k] == places[k]);
                } else {
                    assert(list[i] == own[i - earlier.len()]);
                }
            }
        }
    }
}

/// Each pair of a model and a workspace has one account.
pub proof fn lemma_pairs_distinct(entries: Seq<SessionEntry>)
    ensures
        ({
            let list = model_workspace_accounts(entries);
            forall|i: int, j: int|
                #![trigger list[i], list[j]]
                0 <= i < j < list.len() ==> list[i].workspace != list[j].workspace
                    || list[i].account.name != list[j].account.name
        }),
{
    lemma_names_distinct(postings(Basis::Workspace, entries));
    lemma_uses_in_all(entries, workspaces(entries));
}

proof fn lemma_use_listed(
    entries: Seq<SessionEntry>,
    places: Seq<Seq<char>>,
    p: int,
    k: int,
) -> (at: int)
    requires
        0 <= p < places.len(),
        0 <= k < uses_in(entries, places[p]).len(),
    ensures
        0 <= at < uses_in_all(entries, places).len(),
        uses_in_all(entries, places)[at] == uses_in(entries, places[p])[k],
    decreases places.len(),
{
    let fewer = places.drop_last();
    let earlier = uses_in_all(entries, fewer);
    if p == places.len() - 1 {
        assert(uses_in_all(entries, places)[earlier.len() + k] == uses_in(entries, places[p])[k]);
        earlier.len() + k
    } else {
        assert(fewer[p] == places[p]);
        let at = lemma_use_listed(entries, fewer, p, k);
        assert(uses_in_all(entries, places)[at] == earlier[at]);
        at
    }
}

/// Every model that a session used has an account with the workspace of the session, and where
/// that account misses the cache there is a finding for it.
pub proof fn lemma_each_use_judged(entries: Seq<SessionEntry>, i: int, model: Seq<char>)
    requires
        0 <= i < entries.len(),
        uses(entries[i], model),
    ensures
        exists|at: int|
            #![trigger model_workspace_accounts(entries)[at]]
            {
                let list = model_workspace_accounts(entries);
                &&& 0 <= at < list.len()
                &&& list[at].workspace == workspace_name(entries[i])
                &&& list[at].account.name == model
                &&& misses_cache()(list[at]) ==> cache_miss_findings(entries).contains(
                    cache_miss_finding()(list[at]),
                )
            },
{
    let place = workspace_name(entries[i]);
    let own = entries.filter(is_in(place));
    let posted = postings(Basis::ModelContext, own);
    let list = model_workspace_accounts(entries);
    lemma_charged_name(Basis::Workspace, entries, i, 0);
    let p = workspaces(entries).index_of(place);
    entries.lemma_filter_contains(is_in(place), i);
    let j = own.index_of(entries[i]);
    let m = choose|m: int|
        0 <= m < entries[i].models_used@.len() && (#[trigger] entries[i].models_used@[m])@ == model;
    assert(charged_names(Basis::ModelContext, own[j])[m] == model);
    lemma_charged_name(Basis::ModelContext, own, j, m);
    let k = names(posted).index_of(model);
    lemma_account_name(posted, model);
    let at = lemma_use_listed(entries, workspaces(entries), p, k);
    assert(list[at] == uses_in(entries, place)[k]);
    if misses_cache()(list[at]) {
        list.lemma_filter_contains(misses_cache(), at);
        let missed = list.filter(misses_cache());
        let f = missed.index_of(list[at]);
        assert(cache_miss_findings(entries)[f] == cache_miss_finding()(list[at]));
    }
}

/// References to the sessions in a workspace.
fn sessions_in<'a>(entries: &'a [SessionEntry], place: &String) -> (list: Vec<&'a SessionEntry>)
    ensures
        list@.unref() == entries@.filter(is_in(place@)),
{
    let mut flags: Vec<bool> = Vec::new();
    let mut i: usize = 0;
    while i < entries.len()
        invariant
            i <= entries@.len(),
            flags@.len() == i,
            forall|j: int| 0 <= j < i ==> flags@[j] == is_in(place@)(#[trigger] entries@[j]),
        decreases entries@.len() - i,
    {
        flags.push(workspace(&entries[i]) == *place);
        i = i + 1;
    }
    proof {
        lemma_picked_filter(entries@, flags@, is_in(place@));
    }
    pick(entries, &flags)
}

/// The accounts of the models in a workspace, if their sums stay within 64 bits.
fn find_uses(entries: &[SessionEntry], place: &String) -> (r: Option<Vec<Account>>)
    ensures
        r is Some <==> uses_fit(entries@, place@),
        r matches Some(list) ==> {
            &&& account_views(list@) == accounts(
                Basis::ModelContext,
                entries@.filter(is_in(place@)),
            )
            &&& forall|j: int| 0 <= j < list@.len() ==> fits(context((#[trigger] list@[j])@))
        },
{
    match tally_some(Basis::ModelContext, &sessions_in(entries, place)) {
        Some(list) => {
            let ghost all = uses_in(entries@, place@);
            let mut i: usize = 0;
            assert(account_views(list@).len() == all.len());
            while i < list.len()
                invariant
                    i <= list@.len(),
                    list@.len() == all.len(),
                    all == uses_in(entries@, place@),
                    account_views(list@) == accounts(
                        Basis::ModelContext,
                        entries@.filter(is_in(place@)),
                    ),
                    forall|j: int| 0 <= j < i ==> fits(context((#[trigger] list@[j])@)),
                decreases list@.len() - i,
            {
                assert(all[i as int].account == account_views(list@)[i as int]);
                if list[i].first.checked_add(list[i].second).is_none() {
                    return None;
                }
                i = i + 1;
            }
            assert forall|j: int| 0 <= j < all.len() implies fits(
                context((#[trigger] uses_in(entries@, place@)[j]).account),
            ) by {
                assert(all[j].account == account_views(list@)[j]);
                assert(fits(context(list@[j]@)));
            }
            Some(list)
        },
        None => None,
    }
}

/// Whether the sums of the rule stay within 64 bits.
pub fn is_cache_miss_defined(entries: &[SessionEntry]) -> (r: bool)
    ensures
        r == cache_miss_defined(entries@),
{
    let places = find_workspaces(entries);
    let mut i: usize = 0;
    while i < places.len()
        invariant
            i <= places@.len(),
            texts(places@) == workspaces(entries@),
            places@.len() == workspaces(entries@).len(),
            forall|j: int| 0 <= j < i ==> uses_fit(entries@, #[trigger] workspaces(entries@)[j]),
        decreases places@.len() - i,
    {
        assert(texts(places@)[i as int] == places@[i as int]@);
        if find_uses(entries, &places[i]).is_none() {
            assert(!uses_fit(entries@, workspaces(entries@)[i as int]));
            return false;
        }
        i = i + 1;
    }
    true
}

/// The workspaces of sessions.
fn find_workspaces(entries: &[SessionEntry]) -> (places: Vec<String>)
    ensures
        texts(places@) == workspaces(entries@),
        places@.len() == workspaces(entries@).len(),
{
    let ghost posted = postings(Basis::Workspace, entries@);
    let ghost known = names(posted);
    proof {
        lemma_costs_fit(Basis::Workspace, entries@);
    }
    let list = tally(Basis::Workspace, entries).unwrap();
    let mut places: Vec<String> = Vec::new();
    let mut i: usize = 0;
    assert(account_views(list@).len() == known.len());
    while i < list.len()
        invariant
            i <= list@.len(),
            list@.len() == known.len(),
            posted == postings(Basis::Workspace, entries@),
            known == names(posted),
            account_views(list@) == ledger(posted),
            places@.len() == i,
            forall|j: int| 0 <= j < i ==> (#[trigger] places@[j])@ == known[j],
        decreases list@.len() - i,
    {
        proof {
            assert(account_views(list@)[i as int] == ledger(posted)[i as int]);
            lemma_account_name(posted, known[i as int]);
        }
        places.push(list[i].name.clone());
        i = i + 1;
    }
    assert(texts(places@) =~= known);
    places
}

fn describe_place(place: &String) -> (s: String)
    ensures
        s@ == place_text(place@),
{
    if same(place.as_str(), "(none)") {
        "".to_owned()
    } else {
        " in \"".to_owned().concat(place.as_str()).concat("\"")
    }
}

fn finding(place: &String, a: &Account) -> (r: Recommendation)
    requires
        fits(context(a@)),
        context(a@) >= 100_000,
    ensures
        r@ == cache_miss_finding()(UseView { workspace: place@, account: a@ }),
{
    let total = a.first + a.second;
    let rate = Double::from_i64(a.second).over(Double::from_i64(total));
    let where_used = describe_place(place);
    let r = Recommendation {
        id: "cache_miss_expensive".to_owned(),
        severity: Level::High,
        confidence: Level::High,
        title: "Cache reuse near zero for ".to_owned().concat(a.name.as_str()).concat(
            where_used.as_str(),
        ),
        evidence: vec![
            integer(total / 1000, false).concat(
                "k input tokens processed, cache reuse rate: ",
            ).concat(number(rate.times(num(HUNDRED)), 0, false).as_str()).concat("%"),
            "Spend on this model".to_owned().concat(where_used.as_str()).concat(": $").concat(
                number(a.cost, 2, false).as_str(),
            ),
            "With 50% cache reuse, input costs would drop ~40%".to_owned(),
        ],
        action: "Enable prompt caching, use session continuation, or reduce repeated repository context. Check if your client supports cache_control headers.".to_owned(),
        estimated_savings: Some(a.cost.times(num(TWO_FIFTHS))),
    };
    proof {
        let u = UseView { workspace: place@, account: a@ };
        assert(texts(r.evidence@) =~= cache_miss_finding()(u).evidence);
    }
    r
}

/// The findings for uses, in order.
spec fn found(uses: Seq<UseView>) -> Seq<RecommendationView> {
    uses.filter(misses_cache()).map_values(cache_miss_finding())
}

proof fn lemma_found_add(a: Seq<UseView>, b: Seq<UseView>)
    ensures
        found(a + b) == found(a) + found(b),
{
    Seq::filter_distributes_over_add(a, b, misses_cache());
    assert(found(a + b) =~= found(a) + found(b));
}

proof fn lemma_found_one(u: UseView)
    ensures
        found(seq![u]) == (if misses_cache()(u) {
            seq![cache_miss_finding()(u)]
        } else {
            Seq::empty()
        }),
{
    reveal(Seq::filter);
    let one = seq![u];
    assert(one.drop_last() =~= Seq::<UseView>::empty());
    assert(one.drop_last().filter(misses_cache()) =~= Seq::<UseView>::empty());
    assert(one.filter(misses_cache()) =~= if misses_cache()(u) {
        seq![u]
    } else {
        Seq::empty()
    });
    if misses_cache()(u) {
        assert(found(one) =~= seq![cache_miss_finding()(u)]);
    } else {
        assert(found(one) =~= Seq::empty());
    }
}

/// Adds the findings for one workspace.
fn add_findings(
    entries: &[SessionEntry],
    place: &String,
    list: &Vec<Account>,
    recs: &mut Vec<Recommendation>,
)
    requires
        account_views(list@) == accounts(Basis::ModelContext, entries@.filter(is_in(place@))),
        forall|j: int| 0 <= j < list@.len() ==> fits(context((#[trigger] list@[j])@)),
    ensures
        views(final(recs)@) == views(old(recs)@) + found(uses_in(entries@, place@)),
{
    let ghost all = uses_in(entries@, place@);
    let ghost before = views(recs@);
    let mut i: usize = 0;
    proof {
        reveal(Seq::filter);
        assert(account_views(list@).len() == all.len());
        assert(found(all.take(0)) =~= Seq::empty());
        assert(before + Seq::<RecommendationView>::empty() =~= before);
    }
    while i < list.len()
        invariant
            i <= list@.len(),
            list@.len() == all.len(),
            all == uses_in(entries@, place@),
            account_views(list@) == accounts(Basis::ModelContext, entries@.filter(is_in(place@))),
            forall|j: int| 0 <= j < list@.len() ==> fits(context((#[trigger] list@[j])@)),
            views(recs@) == before + found(all.take(i as int)),
        decreases list@.len() - i,
    {
        let a = &list[i];
        let ghost u = UseView { workspace: place@, account: a@ };
        let ghost so_far = found(all.take(i as int));
        proof {
            assert(account_views(list@)[i as int] == a@);
            assert(all[i as int] == u);
            assert(all.take(i + 1) =~= all.take(i as int) + seq![u]);
            lemma_found_add(all.take(i as int), seq![u]);
            lemma_found_one(u);
        }
        let total = a.first + a.second;
        if total >= 100_000 && !a.cost.less(num(THREE)) && Double::from_i64(a.second).over(
            Double::from_i64(total),
        ).less(num(TENTH)) {
            let r = finding(place, a);
            proof {
                lemma_views_push(recs@, r);
                assert(before + (so_far + seq![r@]) =~= (before + so_far) + seq![r@]);
            }
            recs.push(r);
        } else {
            assert(so_far + Seq::<RecommendationView>::empty() =~= so_far);
        }
        i = i + 1;
    }
    assert(all.take(i as int) =~= all);
}

/// Recommends caching where models need it.
pub fn rule_cache_miss(entries: &[SessionEntry], recs: &mut Vec<Recommendation>)
    requires
        cache_miss_defined(entries@),
    ensures
        views(final(recs)@) == views(old(recs)@) + cache_miss_findings(entries@),
{
    let places = find_workspaces(entries);
    let ghost all = workspaces(entries@);
    let ghost before = views(recs@);
    let mut i: usize = 0;
    proof {
        reveal(Seq::filter);
        assert(all.take(0) =~= Seq::empty());
        assert(found(uses_in_all(entries@, all.take(0))) =~= Seq::empty());
        assert(before + Seq::<RecommendationView>::empty() =~= before);
    }
    while i < places.len()
        invariant
            i <= places@.len(),
            all == workspaces(entries@),
            texts(places@) == all,
            places@.len() == all.len(),
            cache_miss_defined(entries@),
            views(recs@) == before + found(uses_in_all(entries@, all.take(i as int))),
        decreases places@.len() - i,
    {
        let ghost earlier = uses_in_all(entries@, all.take(i as int));
        let ghost own = uses_in(entries@, all[i as int]);
        proof {
            assert(texts(places@)[i as int] == places@[i as int]@);
            assert(uses_fit(entries@, workspaces(entries@)[i as int]));
            assert(all.take(i + 1).drop_last() =~= all.take(i as int));
            lemma_found_add(earlier, own);
            assert(before + (found(earlier) + found(own)) =~= (before + found(earlier)) + found(
                own,
            ));
        }
        let list = find_uses(entries, &places[i]).unwrap();
        add_findings(entries, &places[i], &list, recs);
        i = i + 1;
    }
    assert(all.take(i as int) =~= all);
}

/// There is a finding for exactly those models in a workspace that were sent 100000 tokens at
/// least, that cost $3 at least, and that read less than a tenth of these tokens from a cache. It
/// is of high severity and would save two fifths of the cost.
pub proof fn lemma_misses_found(entries: Seq<SessionEntry>)
    ensures
        ({
            let missed = model_workspace_accounts(entries).filter(
                |u: UseView|
                    u.account.first + u.account.second >= 100_000 && !u.account.cost.less(
                        num(THREE),
                    ) && of_int(u.account.second).over(
                        of_int(u.account.first + u.account.second),
                    ).less(num(TENTH)),
            );
            let found = cache_miss_findings(entries);
            &&& found.len() == missed.len()
            &&& forall|i: int|
                0 <= i < found.len() ==> {
                    let f = #[trigger] found[i];
                    &&& f.id == "cache_miss_expensive"@
                    &&& f.severity == Level::High
                    &&& f.confidence == Level::High
                    &&& f.estimated_savings == Some(missed[i].account.cost.times(num(TWO_FIFTHS)))
                }
        }),
{
    assert(misses_cache() =~= |u: UseView|
        u.account.first + u.account.second >= 100_000 && !u.account.cost.less(num(THREE))
            && of_int(u.account.second).over(of_int(u.account.first + u.account.second)).less(
            num(TENTH),
        ));
}

/// The account of a model that a session used, in the workspace of the session.
proof fn lemma_account_of_use(entries: Seq<SessionEntry>, i: int, model: Seq<char>) -> (at: int)
    requires
        0 <= i < entries.len(),
        uses(entries[i], model),
    ensures
        ({
            let list = model_workspace_accounts(entries);
            let place = workspace_name(entries[i]);
            &&& 0 <= at < list.len()
            &&& list[at].workspace == place
            &&& list[at].account == account(
                postings(Basis::ModelContext, entries.filter(is_in(place))),
                model,
            )
        }),
{
    let place = workspace_name(entries[i]);
    let own = entries.filter(is_in(place));
    let posted = postings(Basis::ModelContext, own);
    lemma_charged_name(Basis::Workspace, entries, i, 0);
    let p = workspaces(entries).index_of(place);
    entries.lemma_filter_contains(is_in(place), i);
    let j = own.index_of(entries[i]);
    let m = choose|m: int|
        0 <= m < entries[i].models_used@.len() && (#[trigger] entries[i].models_used@[m])@ == model;
    assert(charged_names(Basis::ModelContext, own[j])[m] == model);
    lemma_charged_name(Basis::ModelContext, own, j, m);
    let k = names(posted).index_of(model);
    lemma_use_listed(entries, workspaces(entries), p, k)
}

/// Where each session has one model: a model of a session, in the workspace of that session, gets a
/// finding exactly if its sessions there sent 100000 tokens at least, cost $3 at least, and less
/// than a tenth of the tokens were read from a cache.
pub proof fn lemma_whole_miss(entries: Seq<SessionEntry>, i: int, model: Seq<char>)
    requires
        one_model_each(entries),
        0 <= i < entries.len(),
        entries[i].models_used@[0]@ == model,
        ({
            let own = entries.filter(is_in_workspace(workspace_name(entries[i]))).filter(
                is_on(model),
            );
            &&& total(own, Measure::CacheRead) >= 0
            &&& total(own, Measure::Input) + total(own, Measure::CacheRead) < HIDDEN_BIT
            &&& total(own, Measure::CacheRead) < HIDDEN_BIT
        }),
    ensures
        ({
            let place = workspace_name(entries[i]);
            let own = entries.filter(is_in_workspace(place)).filter(is_on(model));
            let (input, cached) = (total(own, Measure::Input), total(own, Measure::CacheRead));
            let missed = input + cached >= 100_000 && !spend(own).less(num(THREE)) && 10 * cached
                < input + cached;
            exists|at: int|
                #![trigger model_workspace_accounts(entries)[at]]
                {
                    let list = model_workspace_accounts(entries);
                    &&& 0 <= at < list.len()
                    &&& list[at].workspace == place
                    &&& list[at].account.name == model
                    &&& missed ==> cache_miss_findings(entries).contains(
                        cache_miss_finding()(list[at]),
                    )
                    &&& !missed ==> !list.filter(misses_cache()).contains(list[at])
                }
        }),
{
    let place = workspace_name(entries[i]);
    let there = entries.filter(is_in(place));
    assert(is_in(place) =~= is_in_workspace(place));
    let own = there.filter(is_on(model));
    let (input, cached) = (total(own, Measure::Input), total(own, Measure::CacheRead));
    let list = model_workspace_accounts(entries);
    let at = lemma_account_of_use(entries, i, model);
    assert forall|k: int| 0 <= k < there.len() implies entries.contains(#[trigger] there[k]) by {
        assert(there.contains(there[k]));
        entries.lemma_filter_contains_rev(is_in(place), there[k]);
    }
    assert(one_model_each(there)) by {
        assert forall|k: int| 0 <= k < there.len() implies {
            let e = #[trigger] there[k];
            &&& e.models_used@.len() == 1
            &&& -SIGNIFICAND_LIMIT < e.total_input_tokens < SIGNIFICAND_LIMIT
            &&& -SIGNIFICAND_LIMIT < e.total_cache_read < SIGNIFICAND_LIMIT
            &&& -SIGNIFICAND_LIMIT < e.total_input_tokens + e.total_output_tokens
                < SIGNIFICAND_LIMIT
        } by {
            let x = entries.index_of(there[k]);
            assert(entries[x] == there[k]);
        }
    }
    lemma_model_accounts(there, model);
    lemma_account_name(postings(Basis::ModelContext, there), model);
    let a = list[at].account;
    assert(a.first == input && a.second == cached);
    lemma_same_compares(a.cost, spend(own), num(THREE));
    if input + cached > 0 {
        lemma_fraction_limits();
        lemma_quotients_compare(cached, input + cached, 1, 10);
    }
    if misses_cache()(list[at]) {
        list.lemma_filter_contains(misses_cache(), at);
        let f = list.filter(misses_cache()).index_of(list[at]);
        assert(cache_miss_findings(entries)[f] == cache_miss_finding()(list[at]));
    } else {
        let kept = list.filter(misses_cache());
        if kept.contains(list[at]) {
            list.lemma_filter_pred(misses_cache(), kept.index_of(list[at]));
        }
    }
}

/// A finding names the model, and the workspace where there is one; it gives the tokens that were
/// sent in thousands, the part that was read from a cache in percent, and the cost.
pub proof fn lemma_miss_told(u: UseView)
    requires
        u.account.first + u.account.second > 0,
    ensures
        ({
            let r = cache_miss_finding()(u);
            let sent = u.account.first + u.account.second;
            let place = if u.workspace == "(none)"@ {
                ""@
            } else {
                " in \""@ + u.workspace + "\""@
            };
            &&& r.title == "Cache reuse near zero for "@ + u.account.name + place
            &&& r.evidence.len() == 3
            &&& r.evidence[0] == integer_text(sent / 1000, false)
                + "k input tokens processed, cache reuse rate: "@ + number_text(
                of_int(u.account.second).over(of_int(sent)).times(num(HUNDRED)),
                0,
                false,
            ) + "%"@
            &&& r.evidence[1] == "Spend on this model"@ + place + ": $"@ + number_text(
                u.account.cost,
                2,
                false,
            )
        }),
{
}

} // verus!
