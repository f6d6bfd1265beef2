//! Recommendations and the order in which they are shown.

use crate::double::Double;
use crate::numbers::{ZERO, num};
use crate::ranking::{
    Key, as_ints, below, is_arrangement, lemma_arrangement_covers, lemma_ranking_arranges,
    lemma_ranking_extends, lemma_ranking_prefix, lemma_ranking_sorts, rank, ranking,
};
use crate::text::texts;
use vstd::prelude::*;

verus! {

/// How severe a finding is, or how certain.
#[derive(Clone, Copy, Debug, PartialEq, Eq, Structural)]
pub enum Level {
    High,
    Medium,
    Low,
}

impl Level {
    pub open spec fn spec_label(self) -> Seq<char> {
        match self {
            Level::High => "high"@,
            Level::Medium => "medium"@,
            Level::Low => "low"@,
        }
    }

    /// The name of a level.
    pub fn label(self) -> (s: String)
        ensures
            s@ == self.spec_label(),
    {
        match self {
            Level::High => "high".to_owned(),
            Level::Medium => "medium".to_owned(),
            Level::Low => "low".to_owned(),
        }
    }
}

/// One finding, with what speaks for it and what to do about it.
#[derive(Debug)]
pub struct Recommendation {
    pub id: String,
    pub severity: Level,
    pub confidence: Level,
    pub title: String,
    pub evidence: Vec<String>,
    pub action: String,
    pub estimated_savings: Option<Double>,
}

#[verifier::ext_equal]
pub struct RecommendationView {
    pub id: Seq<char>,
    pub severity: Level,
    pub confidence: Level,
    pub title: Seq<char>,
    pub evidence: Seq<Seq<char>>,
    pub action: Seq<char>,
    pub estimated_savings: Option<Double>,
}

impl View for Recommendation {
    type V = RecommendationView;

    open spec fn view(&self) -> RecommendationView {
        RecommendationView {
            id: self.id@,
            severity: self.severity,
            confidence: self.confidence,
            title: self.title@,
            evidence: texts(self.evidence@),
            action: self.action@,
            estimated_savings: self.estimated_savings,
        }
    }
}

pub open spec fn views(recs: Seq<Recommendation>) -> Seq<RecommendationView> {
    recs.map_values(|r: Recommendation| r@)
}

/// Pushing a recommendation adds its view.
pub proof fn lemma_views_push(recs: Seq<Recommendation>, r: Recommendation)
    ensures
        views(recs.push(r)) == views(recs).push(r@),
        views(recs.push(r)) == views(recs) + seq![r@],
{
    assert(views(recs.push(r)) =~= views(recs).push(r@));
    assert(views(recs.push(r)) =~= views(recs) + seq![r@]);
}

/// What recommendations are ranked by: the severe ones first, then the larger savings; no estimate
/// counts as zero.
pub open spec fn rank_key(r: RecommendationView) -> Key {
    Key {
        class: match r.severity {
            Level::High => 0,
            Level::Medium => 1,
            Level::Low => 2,
        },
        amount: match r.estimated_savings {
            Some(s) => s,
            None => num(ZERO),
        },
    }
}

pub open spec fn rank_keys(recs: Seq<RecommendationView>) -> Seq<Key> {
    recs.map_values(|r: RecommendationView| rank_key(r))
}

/// Recommendations, the severe ones first, then the larger savings, else as they were.
pub open spec fn by_rank(recs: Seq<RecommendationView>) -> Seq<RecommendationView> {
    ranking(rank_keys(recs)).map_values(|i: int| recs[i])
}

/// Sorting shows each recommendation once and adds none.
pub proof fn lemma_by_rank_arranges(recs: Seq<RecommendationView>)
    ensures
        by_rank(recs).len() == recs.len(),
        exists|order: Seq<int>| #[trigger]
            is_arrangement(order, recs.len()) && by_rank(recs) == order.map_values(
                |i: int| recs[i],
            ),
        forall|r: RecommendationView| #[trigger] by_rank(recs).contains(r) <==> recs.contains(r),
{
    let keys = rank_keys(recs);
    let order = ranking(keys);
    lemma_ranking_arranges(keys, keys.len());
    assert(is_arrangement(order, recs.len()));
    assert(by_rank(recs) == order.map_values(|i: int| recs[i]));
    assert forall|r: RecommendationView| #[trigger] by_rank(recs).contains(r) <==> recs.contains(
        r,
    ) by {
        if by_rank(recs).contains(r) {
            let i = by_rank(recs).index_of(r);
            assert(0 <= order[i] < recs.len());
            assert(recs[order[i]] == r);
        }
        if recs.contains(r) {
            let x = recs.index_of(r);
            lemma_arrangement_covers(order, recs.len(), x);
            let i = choose|i: int| 0 <= i < order.len() && #[trigger] order[i] == x;
            assert(by_rank(recs)[i] == r);
        }
    }
}

/// Sorted recommendations go from the most severe to the least; those of one severity from the
/// largest savings to the smallest.
pub proof fn lemma_by_rank_sorts(recs: Seq<RecommendationView>)
    requires
        forall|i: int|
            0 <= i < recs.len() ==> !rank_key(#[trigger] recs[i]).amount.is_nan(),
    ensures
        forall|i: int, j: int|
            #![trigger by_rank(recs)[i], by_rank(recs)[j]]
            0 <= i < j < by_rank(recs).len() ==> {
                let earlier = rank_key(by_rank(recs)[i]);
                let later = rank_key(by_rank(recs)[j]);
                &&& earlier.class <= later.class
                &&& earlier.class == later.class ==> later.amount.at_most(earlier.amount)
            },
{
    let keys = rank_keys(recs);
    let order = ranking(keys);
    assert forall|i: int| 0 <= i < keys.len() implies !(#[trigger] keys[i]).amount.is_nan() by {
        assert(keys[i] == rank_key(recs[i]));
    }
    lemma_ranking_sorts(keys);
    assert forall|i: int, j: int|
        #![trigger by_rank(recs)[i], by_rank(recs)[j]]
        0 <= i < j < by_rank(recs).len() implies {
        let earlier = rank_key(by_rank(recs)[i]);
        let later = rank_key(by_rank(recs)[j]);
        &&& earlier.class <= later.class
        &&& earlier.class == later.class ==> later.amount.at_most(earlier.amount)
    } by {
        assert(0 <= order[i] < recs.len() && 0 <= order[j] < recs.len());
        assert(keys[order[i]] == rank_key(by_rank(recs)[i]));
        assert(keys[order[j]] == rank_key(by_rank(recs)[j]));
        assert(!keys[order[i]].amount.is_nan() && !keys[order[j]].amount.is_nan());
    }
}

/// Picking positions by their number is picking recommendations by a test that tells the first ones
/// from the others.
proof fn lemma_filter_positions(
    order: Seq<int>,
    recs: Seq<RecommendationView>,
    test: spec_fn(RecommendationView) -> bool,
    n: nat,
)
    requires
        forall|i: int| 0 <= i < order.len() ==> test(recs[#[trigger] order[i]]) == (order[i] < n),
    ensures
        order.map_values(|i: int| recs[i]).filter(test) == order.filter(below(n)).map_values(
            |i: int| recs[i],
        ),
    decreases order.len(),
{
    reveal(Seq::filter);
    let shown = order.map_values(|i: int| recs[i]);
    if order.len() > 0 {
        let fewer = order.drop_last();
        assert forall|i: int| 0 <= i < fewer.len() implies test(recs[#[trigger] fewer[i]]) == (
        fewer[i] < n) by {
            assert(fewer[i] == order[i]);
        }
        lemma_filter_positions(fewer, recs, test, n);
        assert(test(recs[order[order.len() - 1]]) == (order[order.len() - 1] < n));
        assert(shown.drop_last() =~= fewer.map_values(|i: int| recs[i]));
        if order.last() < n {
            assert(order.filter(below(n)) =~= fewer.filter(below(n)).push(order.last()));
        }
        assert(shown.filter(test) =~= order.filter(below(n)).map_values(|i: int| recs[i]));
    } else {
        assert(shown.filter(test) =~= order.filter(below(n)).map_values(|i: int| recs[i]));
    }
}

/// Sorted together with others, recommendations keep the order in which they are sorted alone.
pub proof fn lemma_by_rank_extends(
    recs: Seq<RecommendationView>,
    more: Seq<RecommendationView>,
    test: spec_fn(RecommendationView) -> bool,
)
    requires
        forall|i: int| 0 <= i < recs.len() ==> test(#[trigger] recs[i]),
        forall|i: int| 0 <= i < more.len() ==> !test(#[trigger] more[i]),
    ensures
        by_rank(recs + more).filter(test) == by_rank(recs),
{
    let both = recs + more;
    let (keys, own) = (rank_keys(both), rank_keys(recs));
    let n = recs.len();
    let order = ranking(keys);
    lemma_ranking_arranges(keys, keys.len());
    lemma_ranking_arranges(own, n);
    assert forall|i: int| 0 <= i < n implies #[trigger] keys[i] == own[i] by {
        assert(both[i] == recs[i]);
    }
    lemma_ranking_prefix(keys, own, n);
    lemma_ranking_extends(keys, n, keys.len());
    assert forall|i: int| 0 <= i < order.len() implies test(both[#[trigger] order[i]]) == (order[i]
        < n) by {
        let x = order[i];
        assert(0 <= x < both.len());
        if x < n {
            assert(both[x] == recs[x]);
        } else {
            assert(both[x] == more[x - n]);
        }
    }
    lemma_filter_positions(order, both, test, n);
    assert forall|i: int| 0 <= i < n implies both[#[trigger] ranking(own)[i]] == recs[ranking(
        own,
    )[i]] by {}
    assert(ranking(own).map_values(|i: int| both[i]) =~= by_rank(recs));
}

fn key_of(r: &Recommendation) -> (k: Key)
    ensures
        k == rank_key(r@),
{
    Key {
        class: match r.severity {
            Level::High => 0,
            Level::Medium => 1,
            Level::Low => 2,
        },
        amount: match r.estimated_savings {
            Some(s) => s,
            None => num(ZERO),
        },
    }
}

/// Sorts recommendations for showing.
pub fn sort_recommendations(recs: Vec<Recommendation>) -> (sorted: Vec<Recommendation>)
    ensures
        views(sorted@) == by_rank(views(recs@)),
        sorted@ == ranking(rank_keys(views(recs@))).map_values(|i: int| recs@[i]),
{
    let ghost keyed = rank_keys(views(recs@));
    let mut keys: Vec<Key> = Vec::new();
    let mut i: usize = 0;
    while i < recs.len()
        invariant
            i <= recs@.len(),
            keys@.len() == i,
            forall|j: int| 0 <= j < i ==> #[trigger] keys@[j] == rank_key(recs@[j]@),
        decreases recs@.len() - i,
    {
        keys.push(key_of(&recs[i]));
        i = i + 1;
    }
    assert(keys@ =~= keyed);
    let order = rank(&keys);
    let mut slots: Vec<Option<Recommendation>> = Vec::new();
    let ghost unsorted = recs@;
    for r in it: recs
        invariant
            slots@.len() == it.index(),
            forall|j: int| 0 <= j < slots@.len() ==> #[trigger] slots@[j] == Some(it.seq()[j]),
    {
        slots.push(Some(r));
    }
    let mut sorted: Vec<Recommendation> = Vec::new();
    let mut k: usize = 0;
    assert forall|j: int| 0 <= j < order@.len() implies slots@[#[trigger] order@[j] as int] == Some(
        unsorted[order@[j] as int],
    ) by {
        assert(0 <= as_ints(order@)[j] < unsorted.len());
    }
    while k < order.len()
        invariant
            k <= order@.len(),
            order@.len() == unsorted.len(),
            slots@.len() == unsorted.len(),
            sorted@.len() == k,
            is_arrangement(as_ints(order@), unsorted.len()),
            forall|j: int| 0 <= j < k ==> #[trigger] sorted@[j] == unsorted[order@[j] as int],
            forall|j: int|
                k <= j < order@.len() ==> slots@[#[trigger] order@[j] as int] == Some(
                    unsorted[order@[j] as int],
                ),
        decreases order@.len() - k,
    {
        let ghost positions = as_ints(order@);
        assert(0 <= positions[k as int] < unsorted.len());
        let p = order[k];
        let ghost full = slots@;
        let taken = slots[p].take();
        proof {
            assert forall|j: int| k < j < order@.len() implies slots@[#[trigger] order@[j] as int]
                == Some(unsorted[order@[j] as int]) by {
                assert(positions[j] != positions[k as int]);
                assert(0 <= positions[j] < unsorted.len());
            }
        }
        match taken {
            Some(r) => {
                sorted.push(r);
            },
            None => {
                assert(false);
            },
        }
        k = k + 1;
    }
    proof {
        assert forall|j: int| 0 <= j < sorted@.len() implies sorted@[j] == unsorted[ranking(
            keyed,
        )[j]] by {
            assert(as_ints(order@)[j] == order@[j] as int);
        }
        assert(sorted@ =~= ranking(keyed).map_values(|i: int| unsorted[i]));
        assert forall|j: int| 0 <= j < sorted@.len() implies views(sorted@)[j] == by_rank(
            views(unsorted),
        )[j] by {
            assert(0 <= as_ints(order@)[j] < unsorted.len());
        }
        assert(views(sorted@) =~= by_rank(views(unsorted)));
    }
    sorted
}

/// A severe recommendation stands before a less severe one; of those with one severity, none stands
/// before another that would save more; and those that would save the same stay as they were. No
/// estimate counts as zero.
pub proof fn lemma_severe_first(recs: Seq<RecommendationView>)
    requires
        forall|i: int|
            0 <= i < recs.len() ==> ((#[trigger] recs[i]).estimated_savings matches Some(s)
                ==> !s.is_nan()),
    ensures
        ({
            let sorted = by_rank(recs);
            let saved = |r: RecommendationView|
                match r.estimated_savings {
                    Some(s) => s,
                    None => num(ZERO),
                };
            exists|order: Seq<int>|
                {
                    &&& #[trigger] is_arrangement(order, recs.len())
                    &&& sorted == order.map_values(|i: int| recs[i])
                    &&& forall|i: int, j: int|
                        #![trigger order[i], order[j]]
                        0 <= i < j < order.len() ==> {
                            let (earlier, later) = (recs[order[i]], recs[order[j]]);
                            &&& later.severity == Level::High ==> earlier.severity == Level::High
                            &&& earlier.severity == Level::Low ==> later.severity == Level::Low
                            &&& earlier.severity == later.severity ==> saved(later).at_most(
                                saved(earlier),
                            )
                            &&& earlier.severity == later.severity && !saved(later).less(
                                saved(earlier),
                            ) ==> order[i] < order[j]
                        }
                }
        }),
{
    let saved = |r: RecommendationView|
        match r.estimated_savings {
            Some(s) => s,
            None => num(ZERO),
        };
    let keys = rank_keys(recs);
    let order = ranking(keys);
    assert forall|i: int| 0 <= i < keys.len() implies !(#[trigger] keys[i]).amount.is_nan() by {
        assert(keys[i].amount == saved(recs[i]));
    }
    lemma_ranking_sorts(keys);
    assert(is_arrangement(order, recs.len()));
    assert(by_rank(recs) == order.map_values(|i: int| recs[i]));
    assert forall|i: int, j: int|
        #![trigger order[i], order[j]]
        0 <= i < j < order.len() implies {
        let (earlier, later) = (recs[order[i]], recs[order[j]]);
        &&& later.severity == Level::High ==> earlier.severity == Level::High
        &&& earlier.severity == Level::Low ==> later.severity == Level::Low
        &&& earlier.severity == later.severity ==> saved(later).at_most(saved(earlier))
        &&& earlier.severity == later.severity && !saved(later).less(saved(earlier)) ==> order[i]
            < order[j]
    } by {
        let (a, b) = (order[i], order[j]);
        assert(0 <= a < recs.len() && 0 <= b < recs.len());
        assert(!keys[a].amount.is_nan() && !keys[b].amount.is_nan());
        assert(keys[a].amount == saved(recs[a]) && keys[b].amount == saved(recs[b]));
    }
}

} // verus!
