//! Stable orders: by class, and within a class from the largest amount to the smallest.

use crate::double::Double;
use vstd::prelude::*;

verus! {

/// What an item is ranked by.
#[derive(Clone, Copy, Debug)]
pub struct Key {
    pub class: u8,
    pub amount: Double,
}

/// `a` ranks strictly before `b`. Amounts of which one is not a number rank the same.
pub open spec fn ranks_before(a: Key, b: Key) -> bool {
    a.class < b.class || (a.class == b.class && b.amount.less(a.amount))
}

/// `x`, put into an order before those at its end that it ranks strictly before.
pub open spec fn insert_ranked(order: Seq<int>, keys: Seq<Key>, x: int) -> Seq<int>
    decreases order.len(),
{
    if order.len() > 0 && ranks_before(keys[x], keys[order.last()]) {
        insert_ranked(order.drop_last(), keys, x).push(order.last())
    } else {
        order.push(x)
    }
}

/// The positions of the first `n` keys, in the order of their ranks.
pub open spec fn ranking_of_first(keys: Seq<Key>, n: nat) -> Seq<int>
    decreases n,
{
    if n == 0 {
        Seq::empty()
    } else {
        insert_ranked(ranking_of_first(keys, (n - 1) as nat), keys, n - 1)
    }
}

/// The positions of all keys, in the order of their ranks.
pub open spec fn ranking(keys: Seq<Key>) -> Seq<int> {
    ranking_of_first(keys, keys.len())
}

/// `order` lists each of the first `n` positions once.
pub open spec fn is_arrangement(order: Seq<int>, n: nat) -> bool {
    &&& order.len() == n
    &&& order.no_duplicates()
    &&& forall|i: int| 0 <= i < order.len() ==> 0 <= #[trigger] order[i] < n
}

/// Of two positions in `order`, the earlier one ranks before the later one, or ranks the same and
/// is the smaller.
pub open spec fn is_stable_order(order: Seq<int>, keys: Seq<Key>) -> bool {
    forall|i: int, j: int|
        #![trigger order[i], order[j]]
        0 <= i < j < order.len() ==> ranks_before(keys[order[i]], keys[order[j]]) || (
        !ranks_before(keys[order[j]], keys[order[i]]) && order[i] < order[j])
}

pub open spec fn no_nan(keys: Seq<Key>) -> bool {
    forall|i: int| 0 <= i < keys.len() ==> !(#[trigger] keys[i]).amount.is_nan()
}

proof fn lemma_insert_ranked(order: Seq<int>, keys: Seq<Key>, x: int)
    requires
        is_arrangement(order, x as nat),
        0 <= x < keys.len(),
    ensures
        is_arrangement(insert_ranked(order, keys, x), (x + 1) as nat),
{
    lemma_insert_position(order, keys, x);
    let p = insert_position(order, keys, x);
    let longer = order.insert(p, x);
    assert forall|i: int, j: int|
        0 <= i < longer.len() && 0 <= j < longer.len() && i != j implies longer[i] != longer[j] by {
        let (a, b) = (if i < p { i } else { i - 1 }, if j < p { j } else { j - 1 });
        if i != p && j != p {
            assert(order[a] != order[b]);
        }
    }
}

spec fn insert_position(order: Seq<int>, keys: Seq<Key>, x: int) -> int
    decreases order.len(),
{
    if order.len() > 0 && ranks_before(keys[x], keys[order.last()]) {
        insert_position(order.drop_last(), keys, x)
    } else {
        order.len() as int
    }
}

proof fn lemma_insert_position(order: Seq<int>, keys: Seq<Key>, x: int)
    ensures
        ({
            let p = insert_position(order, keys, x);
            &&& 0 <= p <= order.len()
            &&& insert_ranked(order, keys, x) == order.insert(p, x)
            &&& p > 0 ==> !ranks_before(keys[x], keys[order[p - 1]])
            &&& forall|j: int|
                p <= j < order.len() ==> ranks_before(keys[x], keys[#[trigger] order[j]])
        }),
    decreases order.len(),
{
    let p = insert_position(order, keys, x);
    if order.len() > 0 && ranks_before(keys[x], keys[order.last()]) {
        let shorter = order.drop_last();
        lemma_insert_position(shorter, keys, x);
        assert(shorter.insert(p, x).push(order.last()) =~= order.insert(p, x));
        assert forall|j: int| p <= j < order.len() implies ranks_before(
            keys[x],
            keys[#[trigger] order[j]],
        ) by {
            if j < shorter.len() {
                assert(shorter[j] == order[j]);
            }
        }
    } else {
        assert(order.push(x) =~= order.insert(p, x));
    }
}

/// A ranking lists every position once.
pub proof fn lemma_ranking_arranges(keys: Seq<Key>, n: nat)
    requires
        n <= keys.len(),
    ensures
        is_arrangement(ranking_of_first(keys, n), n),
    decreases n,
{
    if n > 0 {
        lemma_ranking_arranges(keys, (n - 1) as nat);
        lemma_insert_ranked(ranking_of_first(keys, (n - 1) as nat), keys, n - 1);
    }
}

/// A ranking is sorted, and what ranks the same stays in its order, provided that every amount is
/// a number.
pub proof fn lemma_ranking_sorts(keys: Seq<Key>)
    requires
        no_nan(keys),
    ensures
        is_arrangement(ranking(keys), keys.len()),
        is_stable_order(ranking(keys), keys),
{
    lemma_ranking_arranges(keys, keys.len());
    lemma_ranking_of_first_sorts(keys, keys.len());
}

proof fn lemma_ranking_of_first_sorts(keys: Seq<Key>, n: nat)
    requires
        no_nan(keys),
        n <= keys.len(),
    ensures
        is_stable_order(ranking_of_first(keys, n), keys),
    decreases n,
{
    if n > 0 {
        let x = n - 1;
        let order = ranking_of_first(keys, x as nat);
        lemma_ranking_of_first_sorts(keys, x as nat);
        lemma_ranking_arranges(keys, x as nat);
        lemma_insert_position(order, keys, x);
        let p = insert_position(order, keys, x);
        let longer = order.insert(p, x);
        assert forall|i: int, j: int|
            #![trigger longer[i], longer[j]]
            0 <= i < j < longer.len() implies ranks_before(keys[longer[i]], keys[longer[j]]) || (
        !ranks_before(keys[longer[j]], keys[longer[i]]) && longer[i] < longer[j]) by {
            if i < p && j < p {
                assert(longer[i] == order[i] && longer[j] == order[j]);
            } else if i < p && j == p {
                // Everything in front of `p - 1` ranks no later than what stands at `p - 1`.
                assert(longer[i] == order[i]);
                assert(order[i] < x);
                let last = order[p - 1];
                assert(!ranks_before(keys[x], keys[last]));
                assert(!keys[x].amount.is_nan() && !keys[last].amount.is_nan()
                    && !keys[order[i]].amount.is_nan());
                if i < p - 1 {
                    assert(ranks_before(keys[order[i]], keys[last]) || !ranks_before(
                        keys[last],
                        keys[order[i]],
                    ));
                }
            } else if i < p && j > p {
                assert(longer[i] == order[i] && longer[j] == order[j - 1]);
            } else if i == p {
                assert(longer[j] == order[j - 1]);
            } else {
                assert(longer[i] == order[i - 1] && longer[j] == order[j - 1]);
            }
        }
    }
}

proof fn lemma_insert_same_keys(order: Seq<int>, keys: Seq<Key>, others: Seq<Key>, x: int)
    requires
        keys[x] == others[x],
        forall|i: int| 0 <= i < order.len() ==> keys[#[trigger] order[i]] == others[order[i]],
    ensures
        insert_ranked(order, keys, x) == insert_ranked(order, others, x),
    decreases order.len(),
{
    if order.len() > 0 {
        assert(keys[order[order.len() - 1]] == others[order[order.len() - 1]]);
        let fewer = order.drop_last();
        assert forall|i: int| 0 <= i < fewer.len() implies keys[#[trigger] fewer[i]]
            == others[fewer[i]] by {
            assert(fewer[i] == order[i]);
        }
        lemma_insert_same_keys(fewer, keys, others, x);
    }
}

/// How the first keys rank does not depend on those behind them.
pub proof fn lemma_ranking_prefix(keys: Seq<Key>, others: Seq<Key>, n: nat)
    requires
        n <= keys.len(),
        n <= others.len(),
        forall|i: int| 0 <= i < n ==> #[trigger] keys[i] == others[i],
    ensures
        ranking_of_first(keys, n) == ranking_of_first(others, n),
    decreases n,
{
    if n > 0 {
        let x = n - 1;
        lemma_ranking_prefix(keys, others, x as nat);
        lemma_ranking_arranges(keys, x as nat);
        let order = ranking_of_first(keys, x as nat);
        assert forall|i: int| 0 <= i < order.len() implies keys[#[trigger] order[i]]
            == others[order[i]] by {
            assert(0 <= order[i] < x);
        }
        lemma_insert_same_keys(order, keys, others, x);
    }
}

pub open spec fn below(n: nat) -> spec_fn(int) -> bool {
    |i: int| i < n
}

proof fn lemma_insert_filtered(order: Seq<int>, keys: Seq<Key>, x: int, n: nat)
    requires
        x >= n,
    ensures
        insert_ranked(order, keys, x).filter(below(n)) == order.filter(below(n)),
    decreases order.len(),
{
    reveal(Seq::filter);
    let inserted = insert_ranked(order, keys, x);
    if order.len() > 0 && ranks_before(keys[x], keys[order.last()]) {
        let fewer = order.drop_last();
        lemma_insert_filtered(fewer, keys, x, n);
        assert(inserted.drop_last() =~= insert_ranked(fewer, keys, x));
    } else {
        assert(inserted.drop_last() =~= order);
    }
}

/// Ranking more keys leaves the order of the first ones as it is.
pub proof fn lemma_ranking_extends(keys: Seq<Key>, n: nat, m: nat)
    requires
        n <= m <= keys.len(),
    ensures
        ranking_of_first(keys, m).filter(below(n)) == ranking_of_first(keys, n),
    decreases m,
{
    if m > n {
        lemma_ranking_extends(keys, n, (m - 1) as nat);
        lemma_insert_filtered(ranking_of_first(keys, (m - 1) as nat), keys, m - 1, n);
    } else {
        lemma_ranking_arranges(keys, n);
        lemma_all_below(ranking_of_first(keys, n), n);
    }
}

proof fn lemma_all_below(order: Seq<int>, n: nat)
    requires
        forall|i: int| 0 <= i < order.len() ==> #[trigger] order[i] < n,
    ensures
        order.filter(below(n)) == order,
    decreases order.len(),
{
    reveal(Seq::filter);
    if order.len() > 0 {
        let fewer = order.drop_last();
        assert(order[order.len() - 1] < n);
        assert forall|i: int| 0 <= i < fewer.len() implies #[trigger] fewer[i] < n by {
            assert(fewer[i] == order[i]);
        }
        lemma_all_below(fewer, n);
        assert(fewer.push(order.last()) =~= order);
    }
}

/// An arrangement leaves no position out.
pub proof fn lemma_arrangement_covers(order: Seq<int>, n: nat, x: int)
    requires
        is_arrangement(order, n),
        0 <= x < n,
    ensures
        exists|i: int| 0 <= i < order.len() && #[trigger] order[i] == x,
{
    let listed = order.to_set();
    let positions = vstd::set_lib::set_int_range(0, n as int);
    order.unique_seq_to_set();
    vstd::seq_lib::seq_to_set_is_finite(order);
    vstd::set_lib::lemma_int_range(0, n as int);
    assert(listed.subset_of(positions)) by {
        assert forall|p: int| listed.contains(p) implies positions.contains(p) by {
            let i = choose|i: int| 0 <= i < order.len() && order[i] == p;
            assert(0 <= order[i] < n);
        }
    }
    vstd::set_lib::lemma_subset_equality(listed, positions);
    assert(listed.contains(x));
}

/// Whether one key ranks strictly before another.
pub fn before(a: Key, b: Key) -> (r: bool)
    ensures
        r == ranks_before(a, b),
{
    a.class < b.class || (a.class == b.class && b.amount.less(a.amount))
}

pub open spec fn as_ints(order: Seq<usize>) -> Seq<int> {
    order.map_values(|i: usize| i as int)
}

/// The positions of keys, in the order of their ranks.
pub fn rank(keys: &Vec<Key>) -> (order: Vec<usize>)
    ensures
        as_ints(order@) == ranking(keys@),
        is_arrangement(as_ints(order@), keys@.len()),
        order@.len() == keys@.len(),
{
    let mut order: Vec<usize> = Vec::new();
    let mut i: usize = 0;
    assert(as_ints(order@) =~= ranking_of_first(keys@, 0));
    while i < keys.len()
        invariant
            i <= keys@.len(),
            order@.len() == i,
            as_ints(order@) == ranking_of_first(keys@, i as nat),
        decreases keys@.len() - i,
    {
        let ghost prior = as_ints(order@);
        proof {
            lemma_ranking_arranges(keys@, i as nat);
            lemma_insert_position(prior, keys@, i as int);
            assert(prior.take(i as int) =~= prior);
        }
        let mut p: usize = i;
        let mut searching: bool = true;
        while searching
            invariant
                p <= i < keys@.len(),
                order@.len() == i,
                prior == as_ints(order@),
                is_arrangement(prior, i as nat),
                insert_position(prior, keys@, i as int) == (if searching {
                    insert_position(prior.take(p as int), keys@, i as int)
                } else {
                    p as int
                }),
            decreases p + (if searching { 1int } else { 0 }),
        {
            if p == 0 {
                searching = false;
            } else {
                proof {
                    assert(prior[p - 1] == order@[p - 1]);
                    assert(0 <= prior[p - 1] < i);
                    assert(prior.take(p as int).drop_last() =~= prior.take(p - 1));
                    assert(prior.take(p as int).last() == prior[p - 1]);
                }
                if before(keys[i], keys[order[p - 1]]) {
                    p = p - 1;
                } else {
                    searching = false;
                }
            }
        }
        order.insert(p, i);
        assert(as_ints(order@) =~= prior.insert(p as int, i as int));
        i = i + 1;
    }
    proof {
        lemma_ranking_arranges(keys@, keys@.len());
    }
    order
}

} // verus!
