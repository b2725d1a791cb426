//! The discrete side of the consolidation bench: its ages, buckets and seeds.

use vstd::prelude::*;

verus! {

/// A number held between one and a limit.
pub open spec fn held(x: u64, max: u64) -> u64 {
    if x < 1 {
        1
    } else if x > max {
        max
    } else {
        x
    }
}

/// A list without what repeats the one before.
pub open spec fn deduped(v: Seq<u64>) -> Seq<u64>
    decreases v.len(),
{
    if v.len() == 0 {
        Seq::empty()
    } else if v.len() >= 2 && v[v.len() - 2] == v.last() {
        deduped(v.drop_last())
    } else {
        deduped(v.drop_last()).push(v.last())
    }
}

/// A list that never falls.
pub open spec fn climbs(v: Seq<u64>) -> bool {
    forall|i: int, j: int| 0 <= i <= j < v.len() ==> v[i] <= v[j]
}

/// A list that always rises.
pub open spec fn rises(v: Seq<u64>) -> bool {
    forall|i: int, j: int| 0 <= i < j < v.len() ==> v[i] < v[j]
}

/// The last thing stays the last.
proof fn lemma_dedup_last(v: Seq<u64>)
    requires
        v.len() > 0,
    ensures
        deduped(v).len() > 0,
        deduped(v).last() == v.last(),
        deduped(v)[0] == v[0],
    decreases v.len(),
{
    reveal_with_fuel(deduped, 2);
    if v.len() >= 2 {
        lemma_dedup_last(v.drop_last());
    }
}

/// A list that never falls always rises once nothing repeats.
proof fn lemma_dedup_rises(v: Seq<u64>)
    requires
        climbs(v),
    ensures
        rises(deduped(v)),
    decreases v.len(),
{
    if v.len() > 0 {
        let short = v.drop_last();
        assert forall|i: int, j: int| 0 <= i <= j < short.len() implies short[i] <= short[j] by {
            assert(short[i] == v[i] && short[j] == v[j]);
        }
        lemma_dedup_rises(short);
        if v.len() >= 2 && v[v.len() - 2] != v.last() {
            lemma_dedup_last(short);
            let rest = deduped(short);
            let all = deduped(v);
            assert(v[v.len() - 2] <= v[v.len() - 1]);
            assert forall|i: int, j: int| 0 <= i < j < all.len() implies all[i] < all[j] by {
                if j < rest.len() {
                    assert(all[i] == rest[i] && all[j] == rest[j]);
                } else {
                    assert(all[i] == rest[i]);
                    assert(rest[i] <= rest[rest.len() - 1]);
                }
            }
        }
    }
}

/// What is left was there.
proof fn lemma_dedup_keeps(v: Seq<u64>, k: int)
    requires
        0 <= k < deduped(v).len(),
    ensures
        v.contains(deduped(v)[k]),
    decreases v.len(),
{
    if v.len() > 0 {
        let short = v.drop_last();
        let rest = deduped(short);
        if k < rest.len() {
            lemma_dedup_keeps(short, k);
            let i = choose|i: int| 0 <= i < short.len() && short[i] == rest[k];
            assert(v[i] == rest[k]);
        } else {
            assert(v[v.len() - 1] == deduped(v)[k]);
        }
    }
}

/// Numbers held between one and a limit.
pub open spec fn all_held(raw: Seq<u64>, max: u64) -> Seq<u64> {
    raw.map_values(|x: u64| held(x, max))
}

/// The ages at which a memory is looked at: the given ones, held between one and
/// the horizon, without what repeats.
pub fn log_spaced(raw: &[u64], max: u64) -> (v: Vec<u64>)
    requires
        max >= 1,
    ensures
        v@ == deduped(all_held(raw@, max)),
{
    let ghost all = all_held(raw@, max);
    let mut v: Vec<u64> = Vec::new();
    let mut k: usize = 0;
    while k < raw.len()
        invariant
            max >= 1,
            k <= raw@.len(),
            all == all_held(raw@, max),
            v@ == deduped(all.take(k as int)),
        decreases raw@.len() - k,
    {
        let x: u64 = if raw[k] < 1 {
            1
        } else if raw[k] > max {
            max
        } else {
            raw[k]
        };
        proof {
            assert(all.take(k + 1).drop_last() =~= all.take(k as int));
            assert(all.take(k + 1).last() == x);
            if k > 0 {
                lemma_dedup_last(all.take(k as int));
                assert(all.take(k + 1)[k - 1] == all.take(k as int).last());
            }
        }
        let n: usize = v.len();
        if n == 0 || v[n - 1] != x {
            v.push(x);
        }
        k = k + 1;
    }
    proof {
        assert(all.take(k as int) =~= all);
    }
    v
}

/// Ages that never fall give ages that rise from the first to the last, all of
/// them between one and the horizon.
pub proof fn law_ages_rise(raw: Seq<u64>, max: u64)
    requires
        max >= 1,
        raw.len() >= 1,
        climbs(raw),
    ensures
        rises(deduped(all_held(raw, max))),
        deduped(all_held(raw, max)).len() >= 1,
        deduped(all_held(raw, max))[0] == held(raw[0], max),
        deduped(all_held(raw, max)).last() == held(raw.last(), max),
        forall|k: int|
            0 <= k < deduped(all_held(raw, max)).len() ==> 1 <= #[trigger] deduped(
                all_held(raw, max),
            )[k] <= max,
{
    let all = all_held(raw, max);
    assert(climbs(all));
    lemma_dedup_rises(all);
    lemma_dedup_last(all);
    assert forall|k: int| 0 <= k < deduped(all).len() implies 1 <= #[trigger] deduped(all)[k]
        <= max by {
        lemma_dedup_keeps(all, k);
        let i = choose|i: int| 0 <= i < all.len() && all[i] == deduped(all)[k];
        assert(1 <= all[i] <= max);
    }
}

/// The edges of the rank buckets: the first is zero.
pub open spec fn edges_of(raw: Seq<u64>, n: u64) -> Seq<u64> {
    deduped(all_held(raw, n).update(0, 0))
}

/// Buckets between neighbouring edges, without the empty ones.
pub open spec fn between_edges(edges: Seq<u64>) -> Seq<(u64, u64)>
    decreases edges.len(),
{
    if edges.len() < 2 {
        Seq::empty()
    } else {
        let rest = between_edges(edges.drop_last());
        let lo = edges[edges.len() - 2];
        let hi = edges.last();
        if hi > lo {
            rest.push((lo, hi))
        } else {
            rest
        }
    }
}

/// The buckets of `n` ranks, from the given edges: each holds the ranks after its
/// first number up to its second.
pub fn rank_buckets(raw: &[u64], n: u64) -> (buckets: Vec<(u64, u64)>)
    requires
        n >= 1,
        raw@.len() >= 1,
    ensures
        buckets@ == between_edges(edges_of(raw@, n)),
{
    let ghost all = all_held(raw@, n).update(0, 0);
    let mut edges: Vec<u64> = Vec::new();
    edges.push(0);
    let mut k: usize = 1;
    proof {
        assert(all.take(1).drop_last() =~= Seq::<u64>::empty());
        reveal_with_fuel(deduped, 2);
        assert(deduped(all.take(1)) =~= seq![0u64]);
    }
    while k < raw.len()
        invariant
            n >= 1,
            1 <= k <= raw@.len(),
            all == all_held(raw@, n).update(0, 0),
            edges@ == deduped(all.take(k as int)),
        decreases raw@.len() - k,
    {
        let x: u64 = if raw[k] < 1 {
            1
        } else if raw[k] > n {
            n
        } else {
            raw[k]
        };
        proof {
            assert(all.take(k + 1).drop_last() =~= all.take(k as int));
            assert(all.take(k + 1).last() == x);
            lemma_dedup_last(all.take(k as int));
            assert(all.take(k + 1)[k - 1] == all.take(k as int).last());
        }
        let m: usize = edges.len();
        if edges[m - 1] != x {
            edges.push(x);
        }
        k = k + 1;
    }
    proof {
        assert(all.take(k as int) =~= all);
        assert(edges@ == edges_of(raw@, n));
        lemma_dedup_last(all);
    }
    let mut buckets: Vec<(u64, u64)> = Vec::new();
    let mut j: usize = 1;
    while j < edges.len()
        invariant
            1 <= j <= edges@.len(),
            edges@ == edges_of(raw@, n),
            buckets@ == between_edges(edges@.take(j as int)),
        decreases edges@.len() - j,
    {
        proof {
            assert(edges@.take(j + 1).drop_last() =~= edges@.take(j as int));
        }
        if edges[j] > edges[j - 1] {
            buckets.push((edges[j - 1], edges[j]));
        }
        j = j + 1;
    }
    proof {
        assert(edges@.take(j as int) =~= edges@);
    }
    buckets
}

proof fn lemma_between_rising(edges: Seq<u64>)
    requires
        rises(edges),
        edges.len() >= 1,
    ensures
        between_edges(edges).len() == edges.len() - 1,
        forall|k: int|
            0 <= k < edges.len() - 1 ==> #[trigger] between_edges(edges)[k] == (
                edges[k],
                edges[k + 1],
            ),
    decreases edges.len(),
{
    if edges.len() >= 2 {
        let short = edges.drop_last();
        assert forall|i: int, j: int| 0 <= i < j < short.len() implies short[i] < short[j] by {
            assert(short[i] == edges[i] && short[j] == edges[j]);
        }
        lemma_between_rising(short);
        assert(edges[edges.len() - 2] < edges[edges.len() - 1]);
        let all = between_edges(edges);
        assert forall|k: int| 0 <= k < edges.len() - 1 implies #[trigger] all[k] == (
            edges[k],
            edges[k + 1],
        ) by {
            if k < short.len() - 1 {
                assert(all[k] == between_edges(short)[k]);
            }
        }
    }
}

/// Where the given edges never fall and end at the last rank, the buckets hold
/// every rank exactly once: the first begins at the first rank, each begins where
/// the one before ends, none is empty, and the last ends at the last rank.
pub proof fn law_buckets_tile(raw: Seq<u64>, n: u64, k: int)
    requires
        n >= 1,
        raw.len() >= 2,
        climbs(raw),
        raw.last() >= n,
        0 <= k < between_edges(edges_of(raw, n)).len(),
    ensures
        between_edges(edges_of(raw, n))[0].0 == 0,
        between_edges(edges_of(raw, n)).last().1 == n,
        between_edges(edges_of(raw, n))[k].0 < between_edges(edges_of(raw, n))[k].1,
        k > 0 ==> between_edges(edges_of(raw, n))[k].0 == between_edges(
            edges_of(raw, n),
        )[k - 1].1,
{
    let all = all_held(raw, n).update(0, 0);
    assert(climbs(all));
    lemma_dedup_rises(all);
    lemma_dedup_last(all);
    let edges = deduped(all);
    lemma_between_rising(edges);
    let b = between_edges(edges);
    assert(b[b.len() - 1] == (edges[edges.len() - 2], edges[edges.len() - 1]));
    assert(b[0] == (edges[0], edges[1]));
    assert(b[k] == (edges[k], edges[k + 1]));
    if k > 0 {
        assert(b[k - 1] == (edges[k - 1], edges[k]));
    }
}

/// Which ages have been looked at.
#[derive(Debug)]
pub struct Sampling {
    ages: Vec<u64>,
    next: usize,
    now: u64,
}

impl Sampling {
    /// The ages to look at.
    pub closed spec fn plan(&self) -> Seq<u64> {
        self.ages@
    }

    /// How many have been looked at.
    pub closed spec fn taken(&self) -> int {
        self.next as int
    }

    /// The age reached.
    pub closed spec fn age(&self) -> int {
        self.now as int
    }

    /// The ages rise from one on, and those looked at are those reached.
    pub closed spec fn wf(&self) -> bool {
        &&& rises(self.ages@)
        &&& self.next <= self.ages@.len()
        &&& forall|k: int| 0 <= k < self.ages@.len() ==> 1 <= #[trigger] self.ages@[k]
        &&& forall|k: int|
            0 <= k < self.ages@.len() ==> (k < self.next <==> #[trigger] self.ages@[k] <= self.now)
    }

    /// None looked at yet.
    pub fn new(ages: Vec<u64>) -> (s: Self)
        requires
            rises(ages@),
            forall|k: int| 0 <= k < ages@.len() ==> 1 <= #[trigger] ages@[k],
        ensures
            s.wf(),
            s.plan() == ages@,
            s.taken() == 0,
            s.age() == 0,
    {
        Sampling { ages, next: 0, now: 0 }
    }

    /// Grows older by one; says whether to look.
    pub fn tick(&mut self) -> (due: bool)
        requires
            old(self).wf(),
            old(self).age() < u64::MAX,
        ensures
            final(self).wf(),
            final(self).plan() == old(self).plan(),
            final(self).age() == old(self).age() + 1,
            due == old(self).plan().contains(final(self).age() as u64),
            final(self).taken() == old(self).taken() + if due {
                1int
            } else {
                0
            },
    {
        self.now = self.now + 1;
        let ghost all = self.ages@;
        if self.next < self.ages.len() && self.ages[self.next] == self.now {
            proof {
                assert(all[self.next as int] == self.now);
            }
            self.next = self.next + 1;
            proof {
                assert forall|k: int| 0 <= k < all.len() implies (k < self.next <==> #[trigger] all[k]
                    <= self.now) by {
                    if k >= self.next {
                        assert(all[self.next - 1] < all[k]);
                    }
                }
            }
            true
        } else {
            proof {
                assert forall|k: int| 0 <= k < all.len() implies all[k] != self.now by {
                    if k >= self.next && all[k] == self.now {
                        if k > self.next {
                            assert(all[self.next as int] < all[k]);
                        }
                        assert(all[self.next as int] == self.now);
                    }
                }
            }
            false
        }
    }

    /// At the horizon every age up to it has been looked at.
    pub proof fn law_every_age_is_looked_at(&self, horizon: u64)
        requires
            self.wf(),
            self.age() == horizon,
            forall|k: int| 0 <= k < self.plan().len() ==> (#[trigger] self.plan()[k]) <= horizon,
        ensures
            self.taken() == self.plan().len(),
    {
        if self.next < self.ages@.len() {
            assert(self.plan()[self.next as int] <= horizon);
            assert(self.ages@[self.next as int] <= self.now);
        }
    }
}

/// What the trial number is multiplied by for a retention trial.
pub const RETENTION_STEP: u64 = 0x9E37_79B9;

/// What the trial number is multiplied by for a capacity trial.
pub const CAPACITY_STEP: u64 = 0x85EB_CA6B;

/// Keeps the draws for probes and decoys apart from those for the stream.
pub const PROBE_SALT: u64 = 0xA076_1D64_78BD_642F;

/// The seed of a trial.
pub open spec fn seed_of(seed: u64, trial: u64, step: u64) -> u64 {
    seed ^ ((trial * step) as u64)
}

/// The seed of a trial: it depends on the trial alone, so that every scheme is
/// buried under the same stream.
pub fn trial_seed(seed: u64, trial: u64, step: u64) -> (s: u64)
    ensures
        s == seed_of(seed, trial, step),
{
    proof {
        assert(trial.wrapping_mul(step) == (trial * step) as u64) by {
            lemma_wrap(trial, step);
        }
    }
    seed ^ trial.wrapping_mul(step)
}

proof fn lemma_wrap(a: u64, b: u64)
    ensures
        a.wrapping_mul(b) == (a * b) as u64,
        (a * b) as u64 == (a * b) % 0x1_0000_0000_0000_0000,
{
    let p = (a * b) as u64;
    assert(p as int == (a * b) % 0x1_0000_0000_0000_0000int) by {
        let x: u128 = (a * b) as u128;
        assert(a * b <= 0xffff_ffff_ffff_ffff * 0xffff_ffff_ffff_ffff) by (nonlinear_arith)
            requires
                0 <= a <= 0xffff_ffff_ffff_ffff,
                0 <= b <= 0xffff_ffff_ffff_ffff,
        ;
        assert(0 <= a * b) by (nonlinear_arith);
        assert(x as u64 == x % 0x1_0000_0000_0000_0000u128) by (bit_vector);
    }
}

/// A product with an odd step can be undone.
proof fn lemma_step_undone(a: u64, step: int, back: int, wraps: int)
    requires
        step * back == 1 + wraps * 0x1_0000_0000_0000_0000,
    ensures
        ((a * step) % 0x1_0000_0000_0000_0000 * back) % 0x1_0000_0000_0000_0000 == a,
{
    let m = 0x1_0000_0000_0000_0000int;
    vstd::arithmetic::div_mod::lemma_mul_mod_noop_left(a * step, back, m);
    assert(a * step * back == a + (a * wraps) * m) by (nonlinear_arith)
        requires
            step * back == 1 + wraps * m,
    ;
    vstd::arithmetic::div_mod::lemma_mod_multiples_vanish(a * wraps, a as int, m);
    assert(m * (a * wraps) == (a * wraps) * m) by (nonlinear_arith);
    vstd::arithmetic::div_mod::lemma_small_mod(a as nat, m as nat);
}

/// Different trials have different seeds.
pub proof fn law_trials_differ(seed: u64, a: u64, b: u64)
    requires
        a != b,
    ensures
        seed_of(seed, a, RETENTION_STEP) != seed_of(seed, b, RETENTION_STEP),
        seed_of(seed, a, CAPACITY_STEP) != seed_of(seed, b, CAPACITY_STEP),
{
    lemma_wrap(a, RETENTION_STEP);
    lemma_wrap(b, RETENTION_STEP);
    lemma_wrap(a, CAPACITY_STEP);
    lemma_wrap(b, CAPACITY_STEP);
    lemma_step_undone(a, RETENTION_STEP as int, 0xe85ee980144cbc89, 0x8f9ceefe);
    lemma_step_undone(b, RETENTION_STEP as int, 0xe85ee980144cbc89, 0x8f9ceefe);
    lemma_step_undone(a, CAPACITY_STEP as int, 0xa7324a5cb9243, 0x57772);
    lemma_step_undone(b, CAPACITY_STEP as int, 0xa7324a5cb9243, 0x57772);
    let p = (a * RETENTION_STEP) as u64;
    let q = (b * RETENTION_STEP) as u64;
    let r = (a * CAPACITY_STEP) as u64;
    let t = (b * CAPACITY_STEP) as u64;
    assert(p != q && r != t);
    assert(p != q ==> (seed ^ p) != (seed ^ q)) by (bit_vector);
    assert(r != t ==> (seed ^ r) != (seed ^ t)) by (bit_vector);
}

/// The first age at which nothing can be told from noise, or the last age.
pub fn measurement_floor(ages: &[u64], dead: &[bool]) -> (age: u64)
    requires
        ages@.len() >= 1,
        dead@.len() == ages@.len(),
    ensures
        match dead@.contains(true) {
            true => exists|i: int|
                0 <= i < dead@.len() && #[trigger] dead@[i] && age == ages@[i] && forall|j: int|
                    0 <= j < i ==> !#[trigger] dead@[j],
            false => age == ages@.last(),
        },
{
    let mut i: usize = 0;
    while i < ages.len()
        invariant
            ages@.len() >= 1,
            dead@.len() == ages@.len(),
            i <= ages@.len(),
            forall|j: int| 0 <= j < i ==> !#[trigger] dead@[j],
        decreases ages@.len() - i,
    {
        if dead[i] {
            assert(dead@[i as int]);
            return ages[i];
        }
        i = i + 1;
    }
    ages[ages.len() - 1]
}

/// The first place at which a curve falls through a threshold, if there is one.
pub fn crossing(below: &[bool]) -> (r: Option<usize>)
    ensures
        match r {
            Some(i) => {
                &&& 1 <= i < below@.len()
                &&& below@[i as int]
                &&& !below@[i - 1]
                &&& forall|j: int| 1 <= j < i ==> !(#[trigger] below@[j] && !below@[j - 1])
            },
            None => forall|j: int|
                1 <= j < below@.len() ==> !(#[trigger] below@[j] && !below@[j - 1]),
        },
{
    let mut i: usize = 1;
    while i < below.len()
        invariant
            1 <= i,
            below@.len() >= 1 ==> i <= below@.len(),
            forall|j: int| 1 <= j < i && j < below@.len() ==> !(#[trigger] below@[j] && !below@[j - 1]),
        decreases below@.len() - i,
    {
        if below[i] && !below[i - 1] {
            return Some(i);
        }
        i = i + 1;
    }
    None
}

/// The highest rank whose bucket is still strong, or zero.
pub open spec fn usable_upto(buckets: Seq<(u64, u64)>, strong: Seq<bool>, n: int) -> u64
    decreases n,
{
    if n <= 0 {
        0
    } else {
        let rest = usable_upto(buckets, strong, n - 1);
        if strong[n - 1] && buckets[n - 1].1 > rest {
            buckets[n - 1].1
        } else {
            rest
        }
    }
}

/// The highest rank whose bucket is still strong, or zero.
pub fn usable(buckets: &[(u64, u64)], strong: &[bool]) -> (rank: u64)
    requires
        strong@.len() == buckets@.len(),
    ensures
        rank == usable_upto(buckets@, strong@, buckets@.len() as int),
{
    let mut rank: u64 = 0;
    let mut k: usize = 0;
    while k < buckets.len()
        invariant
            strong@.len() == buckets@.len(),
            k <= buckets@.len(),
            rank == usable_upto(buckets@, strong@, k as int),
        decreases buckets@.len() - k,
    {
        if strong[k] && buckets[k].1 > rank {
            rank = buckets[k].1;
        }
        k = k + 1;
    }
    rank
}

/// No strong bucket ends above the usable rank.
pub proof fn law_usable_is_the_highest(
    buckets: Seq<(u64, u64)>,
    strong: Seq<bool>,
    n: int,
    k: int,
)
    requires
        0 <= k < n,
        strong[k],
    ensures
        buckets[k].1 <= usable_upto(buckets, strong, n),
    decreases n,
{
    if k < n - 1 {
        law_usable_is_the_highest(buckets, strong, n - 1, k);
    }
}

/// The ages looked at are exactly the given ones, each held between one and the
/// horizon: no age is left out and none is made up.
pub proof fn law_no_age_is_left_out(raw: Seq<u64>, max: u64, x: u64)
    requires
        max >= 1,
    ensures
        deduped(all_held(raw, max)).contains(x) <==> exists|k: int|
            0 <= k < raw.len() && x == held(#[trigger] raw[k], max),
{
    let all = all_held(raw, max);
    lemma_dedup_holds(all, x);
    if exists|k: int| 0 <= k < raw.len() && x == held(#[trigger] raw[k], max) {
        let k = choose|k: int| 0 <= k < raw.len() && x == held(#[trigger] raw[k], max);
        assert(all[k] == x);
    }
    if all.contains(x) {
        let k = choose|k: int| 0 <= k < all.len() && all[k] == x;
        assert(x == held(raw[k], max));
    }
}

proof fn lemma_dedup_holds(v: Seq<u64>, x: u64)
    ensures
        deduped(v).contains(x) <==> v.contains(x),
    decreases v.len(),
{
    if v.len() > 0 {
        let short = v.drop_last();
        lemma_dedup_holds(short, x);
        let all = deduped(v);
        let rest = deduped(short);
        if v.contains(x) {
            let k = choose|k: int| 0 <= k < v.len() && v[k] == x;
            if k < short.len() {
                assert(short[k] == x);
                let j = choose|j: int| 0 <= j < rest.len() && rest[j] == x;
                assert(all[j] == x);
            } else if v.len() >= 2 && v[v.len() - 2] == v.last() {
                assert(short[v.len() - 2] == x);
                let j = choose|j: int| 0 <= j < rest.len() && rest[j] == x;
                assert(all[j] == x);
            } else {
                assert(all[all.len() - 1] == x);
            }
        }
        if all.contains(x) {
            let k = choose|k: int| 0 <= k < all.len() && all[k] == x;
            lemma_dedup_keeps(v, k);
        }
    }
}

/// A number held within limits is as close to what it was as they allow.
pub proof fn law_held_is_within(x: u64, max: u64)
    requires
        max >= 1,
    ensures
        1 <= held(x, max) <= max,
        1 <= x <= max ==> held(x, max) == x,
        x < 1 ==> held(x, max) == 1,
        x > max ==> held(x, max) == max,
{
}

/// Every given edge past the first is the end of a bucket: a bucket ends nowhere
/// else.
pub proof fn law_buckets_end_at_the_edges(raw: Seq<u64>, n: u64, x: u64)
    requires
        n >= 1,
        raw.len() >= 2,
        climbs(raw),
    ensures
        (exists|k: int|
            0 <= k < between_edges(edges_of(raw, n)).len() && (#[trigger] between_edges(
                edges_of(raw, n),
            )[k]).1 == x) <==> (exists|k: int|
            1 <= k < raw.len() && x == held(#[trigger] raw[k], n)),
{
    let all = all_held(raw, n).update(0, 0);
    assert(climbs(all));
    lemma_dedup_rises(all);
    lemma_dedup_last(all);
    lemma_dedup_holds(all, x);
    let edges = deduped(all);
    lemma_between_rising(edges);
    let b = between_edges(edges_of(raw, n));
    assert(edges == edges_of(raw, n));
    if exists|k: int| 1 <= k < raw.len() && x == held(#[trigger] raw[k], n) {
        let k = choose|k: int| 1 <= k < raw.len() && x == held(#[trigger] raw[k], n);
        assert(all[k] == x);
        let j = choose|j: int| 0 <= j < edges.len() && edges[j] == x;
        assert(j != 0);
        assert(b[j - 1] == (edges[j - 1], edges[j]));
        assert(0 <= j - 1 < b.len() && b[j - 1].1 == x);
    }
    if exists|k: int| 0 <= k < b.len() && (#[trigger] b[k]).1 == x {
        let k = choose|k: int| 0 <= k < b.len() && (#[trigger] b[k]).1 == x;
        assert(b[k] == (edges[k], edges[k + 1]));
        assert(edges.contains(x));
        let j = choose|j: int| 0 <= j < all.len() && all[j] == x;
        assert(edges[0] < edges[k + 1]);
        assert(j != 0);
        assert(1 <= j < raw.len() && x == held(raw[j], n));
    }
}

/// The seed of the first trial is the seed itself, what the trial adds does not
/// depend on the seed, and from one trial to the next it goes on by the step,
/// around the end of sixty-four bits.
pub proof fn law_seeds_go_on_by_the_step(a: u64, b: u64, trial: u64, step: u64)
    requires
        trial < u64::MAX,
    ensures
        seed_of(a, 0, step) == a,
        (a ^ seed_of(a, trial, step)) == (b ^ seed_of(b, trial, step)),
        seed_of(0, (trial + 1) as u64, step) as int == (seed_of(0, trial, step) + step)
            % 0x1_0000_0000_0000_0000,
{
    let p = (trial * step) as u64;
    assert((a ^ (a ^ p)) == (b ^ (b ^ p))) by (bit_vector);
    assert(0 * step == 0) by (nonlinear_arith);
    assert((a ^ 0u64) == a) by (bit_vector);
    lemma_wrap(trial, step);
    lemma_wrap((trial + 1) as u64, step);
    let q = ((trial + 1) * step) as u64;
    assert((0u64 ^ p) == p && (0u64 ^ q) == q) by (bit_vector);
    assert((trial + 1) * step == trial * step + step) by (nonlinear_arith);
    vstd::arithmetic::div_mod::lemma_add_mod_noop(
        trial * step,
        step as int,
        0x1_0000_0000_0000_0000,
    );
    vstd::arithmetic::div_mod::lemma_mod_twice(trial * step, 0x1_0000_0000_0000_0000);
    vstd::arithmetic::div_mod::lemma_add_mod_noop(
        (trial * step) % 0x1_0000_0000_0000_0000,
        step as int,
        0x1_0000_0000_0000_0000,
    );
}

/// The usable rank is where some strong bucket ends, or zero where none is
/// strong.
pub proof fn law_usable_ends_a_bucket(buckets: Seq<(u64, u64)>, strong: Seq<bool>, n: int)
    requires
        0 <= n,
    ensures
        usable_upto(buckets, strong, n) == 0 || exists|k: int|
            0 <= k < n && #[trigger] strong[k] && buckets[k].1 == usable_upto(buckets, strong, n),
    decreases n,
{
    if n > 0 {
        law_usable_ends_a_bucket(buckets, strong, n - 1);
        if usable_upto(buckets, strong, n) != usable_upto(buckets, strong, n - 1) {
            assert(strong[n - 1] && buckets[n - 1].1 == usable_upto(buckets, strong, n));
        } else if usable_upto(buckets, strong, n) != 0 {
            let k = choose|k: int|
                0 <= k < n - 1 && #[trigger] strong[k] && buckets[k].1 == usable_upto(
                    buckets,
                    strong,
                    n - 1,
                );
            assert(strong[k]);
        }
    }
}

} // verus!
