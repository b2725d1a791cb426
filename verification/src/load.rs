//! How unevenly a count is shared out.

use vstd::prelude::*;

use crate::rank::as_ints;
use crate::rank::counted;
use crate::rank::is_ranking;
use crate::rank::law_ranking_exists;
use crate::rank::rank_ids;
use crate::rank::ranking;
use crate::rank::ranks_before;

verus! {

/// All counts together.
pub open spec fn total(counts: Seq<u64>) -> int
    decreases counts.len(),
{
    if counts.len() == 0 {
        0
    } else {
        total(counts.drop_last()) + counts.last()
    }
}

/// The largest `n` counts together.
pub open spec fn leading(counts: Seq<u64>, n: int) -> int {
    picked_total(counts, ranking(counts, 0).take(n))
}

/// The counts at some places together.
pub open spec fn picked_total(counts: Seq<u64>, places: Seq<int>) -> int
    decreases places.len(),
{
    if places.len() == 0 {
        0
    } else {
        picked_total(counts, places.drop_last()) + counts[places.last()]
    }
}

/// A changed count changes the total by as much.
pub proof fn lemma_total_update(counts: Seq<u64>, i: int, x: u64)
    requires
        0 <= i < counts.len(),
    ensures
        total(counts.update(i, x)) == total(counts) - counts[i] + x,
        total(counts) >= counts[i],
    decreases counts.len(),
{
    let new = counts.update(i, x);
    lemma_total_positive(counts.drop_last());
    if i == counts.len() - 1 {
        assert(new.drop_last() =~= counts.drop_last());
    } else {
        assert(new.drop_last() =~= counts.drop_last().update(i, x));
        lemma_total_update(counts.drop_last(), i, x);
    }
}

/// A total is not negative.
pub proof fn lemma_total_positive(counts: Seq<u64>)
    ensures
        0 <= total(counts),
    decreases counts.len(),
{
    if counts.len() > 0 {
        lemma_total_positive(counts.drop_last());
    }
}

/// Different places hold no more than there is.
proof fn lemma_picked_bound(counts: Seq<u64>, places: Seq<int>)
    requires
        places.no_duplicates(),
        forall|k: int| 0 <= k < places.len() ==> 0 <= #[trigger] places[k] < counts.len(),
    ensures
        0 <= picked_total(counts, places) <= total(counts),
    decreases places.len(),
{
    lemma_total_positive(counts);
    if places.len() > 0 {
        let short = places.drop_last();
        let i = places.last();
        let less = counts.update(i, 0);
        assert(short.no_duplicates());
        assert forall|k: int| 0 <= k < short.len() implies 0 <= #[trigger] short[k]
            < less.len() by {
            assert(short[k] == places[k]);
        }
        lemma_picked_bound(less, short);
        lemma_total_update(counts, i, 0);
        lemma_picked_same(counts, less, short);
    }
}

proof fn lemma_picked_same(a: Seq<u64>, b: Seq<u64>, places: Seq<int>)
    requires
        forall|k: int| 0 <= k < places.len() ==> a[#[trigger] places[k]] == b[places[k]],
    ensures
        picked_total(a, places) == picked_total(b, places),
    decreases places.len(),
{
    if places.len() > 0 {
        let short = places.drop_last();
        assert forall|k: int| 0 <= k < short.len() implies a[#[trigger] short[k]]
            == b[short[k]] by {
            assert(short[k] == places[k]);
        }
        lemma_picked_same(a, b, short);
        assert(places[places.len() - 1] == places.last());
    }
}

/// A ranking of everything lists every place once.
pub proof fn law_ranking_lists_everything(counts: Seq<u64>)
    ensures
        ranking(counts, 0).len() == counts.len(),
        ranking(counts, 0).no_duplicates(),
        forall|k: int|
            0 <= k < counts.len() ==> 0 <= #[trigger] ranking(counts, 0)[k] < counts.len(),
{
    law_ranking_exists(counts, 0);
    let r = ranking(counts, 0);
    assert forall|i: int, j: int| 0 <= i < j < r.len() implies r[i] != r[j] by {
        assert(ranks_before(counts, r[i], r[j]));
    }
    let n = counts.len() as int;
    assert(r.to_set() =~= vstd::set_lib::set_int_range(0, n)) by {
        assert forall|x: int| r.to_set().contains(x) <==> 0 <= x < n by {
            if 0 <= x < n {
                assert(counted(counts, 0, x));
                assert(r.contains(x));
            }
            if r.to_set().contains(x) {
                let k = choose|k: int| 0 <= k < r.len() && r[k] == x;
                assert(counted(counts, 0, r[k]));
            }
        }
    }
    vstd::set_lib::lemma_int_range(0, n);
    r.unique_seq_to_set();
    assert forall|k: int| 0 <= k < n implies 0 <= #[trigger] r[k] < n by {
        assert(counted(counts, 0, r[k]));
    }
}

/// The largest counts are part of the total, and more of them are no less.
pub proof fn law_leaders_are_part(counts: Seq<u64>, n: int)
    requires
        0 <= n <= counts.len(),
    ensures
        0 <= leading(counts, n) <= total(counts),
        n > 0 ==> leading(counts, n - 1) <= leading(counts, n),
{
    law_ranking_lists_everything(counts);
    let r = ranking(counts, 0);
    let part = r.take(n);
    assert forall|k: int| 0 <= k < part.len() implies 0 <= #[trigger] part[k] < counts.len() by {
        assert(part[k] == r[k]);
    }
    lemma_picked_bound(counts, part);
    if n > 0 {
        assert(part.drop_last() =~= r.take(n - 1));
    }
}

/// All counts together.
pub fn sum(counts: &[u64]) -> (s: u64)
    requires
        total(counts@) <= u64::MAX,
    ensures
        s == total(counts@),
{
    let mut s: u64 = 0;
    let mut k: usize = 0;
    while k < counts.len()
        invariant
            k <= counts@.len(),
            total(counts@) <= u64::MAX,
            s == total(counts@.take(k as int)),
        decreases counts@.len() - k,
    {
        proof {
            assert(counts@.take(k + 1).drop_last() =~= counts@.take(k as int));
            lemma_total_prefix(counts@, k + 1);
        }
        s = s + counts[k];
        k = k + 1;
    }
    proof {
        assert(counts@.take(k as int) =~= counts@);
    }
    s
}

/// A part of the counts comes to no more than all.
proof fn lemma_total_prefix(counts: Seq<u64>, n: int)
    requires
        0 <= n <= counts.len(),
    ensures
        total(counts.take(n)) <= total(counts),
    decreases counts.len() - n,
{
    if n < counts.len() {
        lemma_total_prefix(counts, n + 1);
        assert(counts.take(n + 1).drop_last() =~= counts.take(n));
    } else {
        assert(counts.take(n) =~= counts);
    }
}

/// The largest `n` counts together.
pub fn leaders(counts: &[u64], n: usize) -> (s: u64)
    requires
        total(counts@) <= u64::MAX,
        n <= counts@.len(),
    ensures
        s == leading(counts@, n as int),
{
    let ids: Vec<usize> = rank_ids(counts, 0);
    let ghost r = ranking(counts@, 0);
    proof {
        law_ranking_lists_everything(counts@);
    }
    let mut s: u64 = 0;
    let mut k: usize = 0;
    while k < n
        invariant
            k <= n,
            n <= counts@.len(),
            total(counts@) <= u64::MAX,
            r == ranking(counts@, 0),
            r == as_ints(ids@),
            r.len() == counts@.len(),
            forall|k: int| 0 <= k < counts@.len() ==> 0 <= #[trigger] r[k] < counts@.len(),
            s == picked_total(counts@, r.take(k as int)),
        decreases n - k,
    {
        proof {
            assert(ids@[k as int] == r[k as int]);
            law_leaders_are_part(counts@, k + 1);
            assert(r.take(k + 1).drop_last() =~= r.take(k as int));
        }
        s = s + counts[ids[k]];
        k = k + 1;
    }
    s
}

/// Whether the `n` largest counts hold half of everything.
pub open spec fn holds_half(counts: Seq<u64>, n: int) -> bool {
    total(counts) > 0 && 2 * leading(counts, n) >= total(counts)
}

/// Whether `n` is how many of the largest counts it takes to hold half of
/// everything: the fewest, at least one; all where there is nothing to hold.
pub open spec fn is_half(counts: Seq<u64>, n: int) -> bool {
    &&& 1 <= n <= counts.len()
    &&& forall|k: int| 1 <= k < n ==> !#[trigger] holds_half(counts, k)
    &&& holds_half(counts, n) || n == counts.len()
}

/// How many of the largest counts it takes to hold half of everything.
pub fn half_mass(counts: &[u64]) -> (n: usize)
    requires
        total(counts@) <= u64::MAX,
        counts@.len() >= 1,
    ensures
        is_half(counts@, n as int),
{
    let ids: Vec<usize> = rank_ids(counts, 0);
    let all: u64 = sum(counts);
    let ghost r = ranking(counts@, 0);
    proof {
        law_ranking_lists_everything(counts@);
    }
    let mut s: u64 = 0;
    let mut k: usize = 0;
    while k < counts.len()
        invariant
            k <= counts@.len(),
            total(counts@) <= u64::MAX,
            all == total(counts@),
            r == ranking(counts@, 0),
            r == as_ints(ids@),
            r.len() == counts@.len(),
            forall|k: int| 0 <= k < counts@.len() ==> 0 <= #[trigger] r[k] < counts@.len(),
            s == picked_total(counts@, r.take(k as int)),
            forall|j: int| 1 <= j <= k ==> !#[trigger] holds_half(counts@, j),
        decreases counts@.len() - k,
    {
        proof {
            assert(ids@[k as int] == r[k as int]);
            law_leaders_are_part(counts@, k + 1);
            assert(r.take(k + 1).drop_last() =~= r.take(k as int));
        }
        s = s + counts[ids[k]];
        k = k + 1;
        if all > 0 && 2 * (s as u128) >= all as u128 {
            return k;
        }
    }
    k
}

/// The least, the middle and the most of some counts. The middle of an even
/// number is the larger of the two; of no counts all three are zero.
pub open spec fn spread_of(counts: Seq<u64>) -> (u64, u64, u64) {
    let n = counts.len() as int;
    let r = ranking(counts, 0);
    if n == 0 {
        (0, 0, 0)
    } else {
        (counts[r[n - 1]], counts[r[n - 1 - n / 2]], counts[r[0]])
    }
}

/// The least, the middle and the most of some counts.
pub fn spread(counts: &[u64]) -> (s: (u64, u64, u64))
    ensures
        s == spread_of(counts@),
{
    let n: usize = counts.len();
    if n == 0 {
        return (0, 0, 0);
    }
    let ids: Vec<usize> = rank_ids(counts, 0);
    proof {
        let r = ranking(counts@, 0);
        law_ranking_lists_everything(counts@);
        assert(ids@[0] == r[0]);
        assert(ids@[n - 1] == r[n - 1]);
        assert(ids@[n - 1 - n / 2] == r[n - 1 - n / 2]);
    }
    (counts[ids[n - 1]], counts[ids[n - 1 - n / 2]], counts[ids[0]])
}

/// The middle is between the least and the most, and so is every count.
pub proof fn law_spread_is_ordered(counts: Seq<u64>, k: int)
    requires
        0 <= k < counts.len(),
    ensures
        spread_of(counts).0 <= spread_of(counts).1 <= spread_of(counts).2,
        spread_of(counts).0 <= counts[k] <= spread_of(counts).2,
{
    let n = counts.len() as int;
    let r = ranking(counts, 0);
    law_ranking_lists_everything(counts);
    law_ranking_exists(counts, 0);
    assert(is_ranking(counts, 0, r));
    assert(counted(counts, 0, k));
    assert(r.contains(k));
    let p = choose|p: int| 0 <= p < r.len() && r[p] == k;
    let m = n - 1 - n / 2;
    assert(p == 0 || ranks_before(counts, r[0], r[p]));
    assert(p == n - 1 || ranks_before(counts, r[p], r[n - 1]));
    assert(m == 0 || ranks_before(counts, r[0], r[m]));
    assert(m == n - 1 || ranks_before(counts, r[m], r[n - 1]));
}

/// How many counts are zero.
pub open spec fn zeros(counts: Seq<u64>) -> int
    decreases counts.len(),
{
    if counts.len() == 0 {
        0
    } else {
        zeros(counts.drop_last()) + if counts.last() == 0 {
            1int
        } else {
            0
        }
    }
}

/// How many counts are zero.
pub fn idle(counts: &[u64]) -> (n: usize)
    ensures
        n == zeros(counts@),
        n <= counts@.len(),
{
    let mut n: usize = 0;
    let mut k: usize = 0;
    while k < counts.len()
        invariant
            k <= counts@.len(),
            n == zeros(counts@.take(k as int)),
            n <= k,
        decreases counts@.len() - k,
    {
        proof {
            assert(counts@.take(k + 1).drop_last() =~= counts@.take(k as int));
        }
        if counts[k] == 0 {
            n = n + 1;
        }
        k = k + 1;
    }
    proof {
        assert(counts@.take(k as int) =~= counts@);
    }
    n
}

/// How evenly visits are shared out among places.
#[derive(Clone, Copy, Debug)]
pub struct Load {
    /// How many places were never visited.
    pub idle: usize,
    /// All visits.
    pub total: u64,
    /// The visits of the most visited place.
    pub busiest: u64,
    /// The visits of the busiest tenth of the places.
    pub top_tenth: u64,
}

/// How many places are in the busiest tenth: what is left after nine tenths.
pub open spec fn tenth(n: int) -> int {
    n - n * 9 / 10
}

/// How evenly visits are shared out among places.
pub fn measure(counts: &[u64]) -> (l: Load)
    requires
        total(counts@) <= u64::MAX,
    ensures
        l.idle == zeros(counts@),
        l.total == total(counts@),
        l.busiest == spread_of(counts@).2,
        l.top_tenth == leading(counts@, tenth(counts@.len() as int)),
{
    let n: usize = counts.len();
    let m: usize = n - (n as u128 * 9 / 10) as usize;
    Load {
        idle: idle(counts),
        total: sum(counts),
        busiest: spread(counts).2,
        top_tenth: leaders(counts, m),
    }
}

/// Counts taken together add up, and one count is itself.
pub proof fn law_totals_add_up(a: Seq<u64>, b: Seq<u64>, x: u64)
    ensures
        total(a + b) == total(a) + total(b),
        total(seq![x]) == x,
        total(Seq::<u64>::empty()) == 0,
    decreases b.len(),
{
    reveal_with_fuel(total, 2);
    assert(seq![x].drop_last() =~= Seq::<u64>::empty());
    if b.len() == 0 {
        assert(a + b =~= a);
    } else {
        assert((a + b).drop_last() =~= a + b.drop_last());
        law_totals_add_up(a, b.drop_last(), x);
    }
}

/// Where everything else is zero, some places hold all there is.
proof fn lemma_picked_all(counts: Seq<u64>, places: Seq<int>)
    requires
        places.no_duplicates(),
        forall|k: int| 0 <= k < places.len() ==> 0 <= #[trigger] places[k] < counts.len(),
        forall|i: int|
            0 <= i < counts.len() && !places.contains(i) ==> #[trigger] counts[i] == 0,
    ensures
        picked_total(counts, places) == total(counts),
    decreases places.len(),
{
    if places.len() == 0 {
        lemma_all_zero(counts);
    } else {
        let short = places.drop_last();
        let i = places.last();
        let less = counts.update(i, 0);
        assert(0 <= places[places.len() - 1] < counts.len());
        assert forall|k: int| 0 <= k < short.len() implies 0 <= #[trigger] short[k]
            < less.len() by {
            assert(short[k] == places[k]);
        }
        assert forall|j: int| 0 <= j < less.len() && !short.contains(j) implies #[trigger] less[j]
            == 0 by {
            if j != i && places.contains(j) {
                let k = choose|k: int| 0 <= k < places.len() && places[k] == j;
                assert(short[k] == j);
            }
        }
        lemma_picked_all(less, short);
        lemma_total_update(counts, i, 0);
        assert forall|k: int| 0 <= k < short.len() implies counts[#[trigger] short[k]]
            == less[short[k]] by {
            assert(short[k] == places[k] && places[k] != places[places.len() - 1]);
        }
        lemma_picked_same(counts, less, short);
    }
}

proof fn lemma_all_zero(counts: Seq<u64>)
    requires
        forall|i: int| 0 <= i < counts.len() ==> #[trigger] counts[i] == 0,
    ensures
        total(counts) == 0,
    decreases counts.len(),
{
    if counts.len() > 0 {
        let short = counts.drop_last();
        assert forall|i: int| 0 <= i < short.len() implies #[trigger] short[i] == 0 by {
            assert(short[i] == counts[i]);
        }
        lemma_all_zero(short);
        assert(counts[counts.len() - 1] == 0);
    }
}

/// What counts are above a level, place by place.
spec fn above(counts: Seq<u64>, level: u64) -> Seq<u64> {
    counts.map_values(
        |c: u64|
            if c > level {
                (c - level) as u64
            } else {
                0
            },
    )
}

/// Counts are no more than the level and what is above it.
proof fn lemma_above(counts: Seq<u64>, level: u64, places: Seq<int>)
    requires
        forall|k: int| 0 <= k < places.len() ==> 0 <= #[trigger] places[k] < counts.len(),
    ensures
        picked_total(counts, places) <= picked_total(above(counts, level), places) + places.len()
            * level,
        (forall|k: int| 0 <= k < places.len() ==> counts[#[trigger] places[k]] >= level)
            ==> picked_total(counts, places) == picked_total(above(counts, level), places)
            + places.len() * level,
    decreases places.len(),
{
    if places.len() > 0 {
        let short = places.drop_last();
        assert forall|k: int| 0 <= k < short.len() implies 0 <= #[trigger] short[k]
            < counts.len() by {
            assert(short[k] == places[k]);
        }
        lemma_above(counts, level, short);
        assert(0 <= places[places.len() - 1] < counts.len());
        assert(places.len() * level == short.len() * level + level) by (nonlinear_arith)
            requires
                places.len() == short.len() + 1,
        ;
        if forall|k: int| 0 <= k < places.len() ==> counts[#[trigger] places[k]] >= level {
            assert forall|k: int| 0 <= k < short.len() implies counts[#[trigger] short[k]]
                >= level by {
                assert(short[k] == places[k]);
            }
            assert(counts[places[places.len() - 1]] >= level);
        }
    }
}

/// No choice of so many places holds more than the leaders do.
pub proof fn law_leaders_hold_the_most(counts: Seq<u64>, places: Seq<int>)
    requires
        places.no_duplicates(),
        forall|k: int| 0 <= k < places.len() ==> 0 <= #[trigger] places[k] < counts.len(),
        places.len() <= counts.len(),
    ensures
        picked_total(counts, places) <= leading(counts, places.len() as int),
{
    let n = places.len() as int;
    if n > 0 {
        law_ranking_lists_everything(counts);
        law_ranking_exists(counts, 0);
        let r = ranking(counts, 0);
        let top = r.take(n);
        assert(0 <= r[n - 1] < counts.len());
        let level = counts[r[n - 1]];
        let ex = above(counts, level);
        assert forall|k: int| 0 <= k < top.len() implies 0 <= #[trigger] top[k] < counts.len()
            && counts[top[k]] >= level by {
            assert(top[k] == r[k]);
            if k < n - 1 {
                assert(ranks_before(counts, r[k], r[n - 1]));
            }
        }
        assert forall|i: int| 0 <= i < ex.len() && !top.contains(i) implies #[trigger] ex[i]
            == 0 by {
            assert(counted(counts, 0, i));
            assert(r.contains(i));
            let p = choose|p: int| 0 <= p < r.len() && r[p] == i;
            if p < n {
                assert(top[p] == i);
            } else {
                assert(ranks_before(counts, r[n - 1], r[p]));
            }
        }
        lemma_above(counts, level, places);
        lemma_above(counts, level, top);
        lemma_picked_bound(ex, places);
        lemma_picked_all(ex, top);
    }
}

/// The middle count has as many counts on either side as it can: half of them,
/// rounded down, and itself are no more than it, and the others and itself no
/// less. All three numbers are counts.
pub proof fn law_the_middle_is_in_the_middle(counts: Seq<u64>) -> (sides: (Seq<int>, Seq<int>))
    requires
        counts.len() > 0,
    ensures
        sides.0.len() == counts.len() / 2 + 1,
        sides.1.len() == counts.len() - counts.len() / 2,
        sides.0.no_duplicates(),
        sides.1.no_duplicates(),
        forall|k: int|
            0 <= k < sides.0.len() ==> 0 <= #[trigger] sides.0[k] < counts.len()
                && counts[sides.0[k]] <= spread_of(counts).1,
        forall|k: int|
            0 <= k < sides.1.len() ==> 0 <= #[trigger] sides.1[k] < counts.len()
                && counts[sides.1[k]] >= spread_of(counts).1,
        counts.contains(spread_of(counts).0),
        counts.contains(spread_of(counts).1),
        counts.contains(spread_of(counts).2),
{
    let n = counts.len() as int;
    let r = ranking(counts, 0);
    law_ranking_lists_everything(counts);
    law_ranking_exists(counts, 0);
    let m = n - 1 - n / 2;
    let low = r.subrange(m, n);
    let high = r.take(m + 1);
    assert(0 <= r[m] < n && 0 <= r[0] < n && 0 <= r[n - 1] < n);
    assert forall|k: int| 0 <= k < low.len() implies 0 <= #[trigger] low[k] < n && counts[low[k]]
        <= counts[r[m]] by {
        assert(low[k] == r[m + k]);
        assert(0 <= r[m + k] < n);
        if k > 0 {
            assert(ranks_before(counts, r[m], r[m + k]));
        }
    }
    assert forall|k: int| 0 <= k < high.len() implies 0 <= #[trigger] high[k] < n
        && counts[high[k]] >= counts[r[m]] by {
        assert(high[k] == r[k]);
        assert(0 <= r[k] < n);
        if k < m {
            assert(ranks_before(counts, r[k], r[m]));
        }
    }
    (low, high)
}

/// The idle places are those with a count of zero, and the busiest tenth is a
/// tenth of the places, rounded up.
pub proof fn law_idle_places_count_nothing(counts: Seq<u64>)
    ensures
        zeros(counts) == counts.filter(|c: u64| c == 0).len(),
        counts.len() <= 10 * tenth(counts.len() as int) < counts.len() + 10,
    decreases counts.len(),
{
    reveal(Seq::filter);
    if counts.len() > 0 {
        law_idle_places_count_nothing(counts.drop_last());
    }
}

/// Half is reached by the fewest leaders that hold as much as all the others
/// together, and there is one such number.
pub proof fn law_half_is_reached_first(counts: Seq<u64>, n: int, m: int)
    requires
        is_half(counts, n),
        total(counts) > 0,
        1 <= m <= counts.len(),
    ensures
        n <= m <==> leading(counts, m) >= total(counts) - leading(counts, m),
        is_half(counts, m) <==> m == n,
{
    lemma_all_lead(counts);
    assert(holds_half(counts, n));
    if n <= m {
        lemma_more_lead(counts, n, m);
        assert(n < m ==> !is_half(counts, m));
    } else {
        assert(!holds_half(counts, m));
    }
}

proof fn lemma_more_lead(counts: Seq<u64>, a: int, b: int)
    requires
        0 <= a <= b <= counts.len(),
    ensures
        leading(counts, a) <= leading(counts, b),
    decreases b - a,
{
    if a < b {
        lemma_more_lead(counts, a, b - 1);
        law_leaders_are_part(counts, b);
    }
}

/// All together hold everything.
proof fn lemma_all_lead(counts: Seq<u64>)
    ensures
        leading(counts, counts.len() as int) == total(counts),
{
    let n = counts.len();
    let places = Seq::new(n, |k: int| k);
    law_leaders_hold_the_most(counts, places);
    lemma_in_order(counts, n as int);
    law_leaders_are_part(counts, n as int);
    assert(counts.take(n as int) =~= counts);
}

proof fn lemma_in_order(counts: Seq<u64>, n: int)
    requires
        0 <= n <= counts.len(),
    ensures
        picked_total(counts, Seq::new(n as nat, |k: int| k)) == total(counts.take(n)),
    decreases n,
{
    if n > 0 {
        lemma_in_order(counts, n - 1);
        assert(Seq::new(n as nat, |k: int| k).drop_last() =~= Seq::new((n - 1) as nat, |k: int| k));
        assert(counts.take(n).drop_last() =~= counts.take(n - 1));
    }
}

} // verus!
