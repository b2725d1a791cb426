//! Domains that share their entities and relations, and mean other things by
//! them.

use vstd::prelude::*;

use crate::rank::law_ranking_exists;
use crate::rank::rank_ids;
use crate::rank::{as_ints, counted, ranking, ranks_before};
use crate::sdr::facts::allotted;
use crate::sdr::facts::shared_count;
use crate::sdr::facts::RelationalFact;
use crate::sdr::facts::RelationalFactStream;
use crate::sdr::facts::StreamMode;

verus! {

/// Which tokens are entities, relations and targets: the entities come first,
/// then four relations, then the targets that all domains share, then each
/// domain's own.
#[derive(Clone, Copy, Debug)]
pub struct Shared {
    /// How many domains there are.
    pub domains: usize,
    /// How many facts each domain has, one for each of the first entities.
    pub facts: usize,
    /// How many entities there are.
    pub count: usize,
    /// How many of the facts are about hubs.
    pub hubs: usize,
    /// How many come after those in the middle.
    pub mids: usize,
    /// How many facts in a thousand have the same target in every domain.
    pub overlap: usize,
}

impl Shared {
    /// Every token fits.
    pub open spec fn wf(&self) -> bool {
        &&& self.domains >= 1
        &&& self.count == shared_count(self.facts as int)
        &&& self.overlap <= 1000
        &&& 2 * self.count + 4 + self.domains * self.count <= usize::MAX
    }

    /// How the tokens are shared out.
    pub fn new(domains: usize, facts: usize, hubs: usize, mids: usize, overlap: usize) -> (s: Self)
        requires
            domains >= 1,
            overlap <= 1000,
            allotted(StreamMode::ModeB, domains as int, facts as int) <= usize::MAX,
        ensures
            s.wf(),
            s.domains == domains,
            s.facts == facts,
            s.hubs == hubs,
            s.mids == mids,
            s.overlap == overlap,
    {
        let count: usize = if facts < 32 {
            32
        } else {
            facts
        };
        Shared { domains, facts, count, hubs, mids, overlap }
    }

    /// The tier of an entity.
    pub open spec fn tier(&self, e: int) -> usize {
        if e < self.hubs {
            0
        } else if e < self.hubs + self.mids {
            1
        } else {
            2
        }
    }

    /// How early each fact gets a target in common: a mixed order, the same
    /// in every domain.
    pub open spec fn turns(&self) -> Seq<u64> {
        Seq::new(self.facts as nat, |e: int| (1000 - (e * 17 + 5) % 1000) as u64)
    }

    /// How many facts have the same target in every domain.
    pub open spec fn common_count(&self) -> int {
        self.overlap * self.facts / 1000
    }

    /// The facts that have the same target in every domain: those whose turn
    /// comes first.
    pub open spec fn common(&self) -> Seq<int> {
        ranking(self.turns(), 0).take(self.common_count())
    }

    /// Whether a fact has the same target in every domain.
    pub open spec fn is_common(&self, e: int) -> bool {
        self.common().contains(e)
    }

    /// Every fact has its turn once.
    proof fn lemma_turns(&self)
        requires
            self.wf(),
        ensures
            ranking(self.turns(), 0).len() == self.facts,
            ranking(self.turns(), 0).no_duplicates(),
            forall|k: int|
                0 <= k < self.facts ==> 0 <= #[trigger] ranking(self.turns(), 0)[k] < self.facts,
            forall|e: int| 0 <= e < self.facts ==> ranking(self.turns(), 0).contains(e),
            0 <= self.common_count() <= self.facts,
    {
        let t = self.turns();
        let r = ranking(t, 0);
        let n = self.facts as int;
        law_ranking_exists(t, 0);
        assert forall|i: int, j: int| 0 <= i < j < r.len() implies r[i] != r[j] by {
            assert(ranks_before(t, r[i], r[j]));
        }
        assert forall|k: int| 0 <= k < r.len() implies 0 <= #[trigger] r[k] < n by {
            assert(counted(t, 0, r[k]));
        }
        assert forall|e: int| 0 <= e < n implies r.contains(e) by {
            assert(counted(t, 0, e));
        }
        let all = vstd::set_lib::set_int_range(0, n);
        vstd::set_lib::lemma_int_range(0, n);
        r.unique_seq_to_set();
        assert(r.to_set() =~= all);
        let o = self.overlap as int;
        assert(0 <= o * n && o * n / 1000 <= n) by (nonlinear_arith)
            requires
                0 <= o <= 1000,
                0 <= n,
        ;
    }

    /// The target of an entity in a domain.
    pub open spec fn target(&self, d: int, e: int) -> int {
        if self.is_common(e) {
            self.count + 4 + (e * 7 + 13) % (self.count as int)
        } else {
            2 * self.count + 4 + d * self.count + (e * 7 + 13 + d * 31) % (self.count as int)
        }
    }

    /// What a domain says of an entity.
    pub open spec fn fact(&self, d: int, e: int) -> RelationalFact {
        RelationalFact {
            domain: d as usize,
            entity: e as usize,
            relation: (self.count + e % 4) as usize,
            target: self.target(d, e) as usize,
            rank_tier: self.tier(e),
        }
    }

    /// Where the targets of a domain lie.
    pub proof fn lemma_target_range(&self, d: int, e: int)
        requires
            self.wf(),
            0 <= d < self.domains,
            0 <= e < self.facts,
        ensures
            self.is_common(e) ==> self.count + 4 <= self.target(d, e) < 2 * self.count + 4,
            !self.is_common(e) ==> 2 * self.count + 4 + d * self.count <= self.target(d, e) < 2
                * self.count + 4 + (d + 1) * self.count,
            0 <= self.target(d, e) < 2 * self.count + 4 + self.domains * self.count,
    {
        let n = self.count as int;
        vstd::arithmetic::div_mod::lemma_mod_pos_bound(e * 7 + 13, n);
        vstd::arithmetic::div_mod::lemma_mod_pos_bound(e * 7 + 13 + d * 31, n);
        let m = self.domains as int;
        assert(d * n >= 0 && d * n + n == (d + 1) * n && (d + 1) * n <= m * n) by (nonlinear_arith)
            requires
                0 <= d < m,
                n >= 32,
        ;
    }

    /// What a domain says, entity by entity.
    pub open spec fn says(&self, d: int) -> Seq<RelationalFact> {
        Seq::new(self.facts as nat, |e: int| self.fact(d, e))
    }

    /// Which facts have the same target in every domain.
    fn flags(&self) -> (common: Vec<bool>)
        requires
            self.wf(),
        ensures
            common@ == Seq::new(self.facts as nat, |e: int| self.is_common(e)),
    {
        let mut turns: Vec<u64> = Vec::new();
        let mut e: usize = 0;
        while e < self.facts
            invariant
                e <= self.facts,
                turns@.len() == e,
                forall|j: int| 0 <= j < e ==> turns@[j] == self.turns()[j],
            decreases self.facts - e,
        {
            turns.push(1000 - ((e as u128 * 17 + 5) % 1000) as u64);
            e = e + 1;
        }
        assert(turns@ =~= self.turns());
        let order: Vec<usize> = rank_ids(turns.as_slice(), 0);
        proof {
            self.lemma_turns();
            let (o, n) = (self.overlap as int, self.facts as int);
            assert(0 <= o * n <= 1000 * n) by (nonlinear_arith)
                requires
                    0 <= o <= 1000,
                    0 <= n,
            ;
        }
        let n: usize = ((self.overlap as u128 * self.facts as u128) / 1000) as usize;
        let ghost all = as_ints(order@);
        assert(all.len() == order@.len());
        let mut common: Vec<bool> = Vec::new();
        common.resize(self.facts, false);
        let mut k: usize = 0;
        while k < n
            invariant
                self.wf(),
                k <= n,
                n == self.common_count(),
                n <= self.facts,
                all == as_ints(order@),
                all == ranking(self.turns(), 0),
                all.len() == self.facts,
                all.no_duplicates(),
                forall|k: int| 0 <= k < self.facts ==> 0 <= #[trigger] all[k] < self.facts,
                common@.len() == self.facts,
                forall|e: int|
                    0 <= e < self.facts ==> #[trigger] common@[e] == all.take(k as int).contains(e),
            decreases n - k,
        {
            assert(0 <= all[k as int] < self.facts);
            let ghost was = common@;
            let e: usize = order[k];
            common.set(e, true);
            proof {
                assert(all.take(k + 1) =~= all.take(k as int).push(all[k as int]));
                assert forall|f: int| 0 <= f < self.facts implies #[trigger] common@[f] == all.take(
                    k + 1,
                ).contains(f) by {
                    let before = all.take(k as int);
                    let after = all.take(k + 1);
                    assert(was[f] == before.contains(f));
                    if f == e {
                        assert(after[k as int] == f);
                    } else if before.contains(f) {
                        let i = choose|i: int| 0 <= i < before.len() && before[i] == f;
                        assert(after[i] == f);
                    } else if after.contains(f) {
                        let i = choose|i: int| 0 <= i < after.len() && after[i] == f;
                        assert(i < k);
                        assert(before[i] == f);
                    }
                }
            }
            k = k + 1;
        }
        proof {
            assert(common@ =~= Seq::new(self.facts as nat, |e: int| self.is_common(e)));
        }
        common
    }

    /// What a domain says, entity by entity.
    pub fn domain_facts(&self, d: usize) -> (facts: Vec<RelationalFact>)
        requires
            self.wf(),
            d < self.domains,
        ensures
            facts@ == self.says(d as int),
            facts@.len() == self.facts,
    {
        let common: Vec<bool> = self.flags();
        let mut facts: Vec<RelationalFact> = Vec::new();
        let mut e: usize = 0;
        while e < self.facts
            invariant
                self.wf(),
                d < self.domains,
                e <= self.facts,
                common@ == Seq::new(self.facts as nat, |e: int| self.is_common(e)),
                facts@.len() == e,
                forall|j: int| 0 <= j < e ==> facts@[j] == self.fact(d as int, j),
            decreases self.facts - e,
        {
            let tier: usize = if e < self.hubs {
                0
            } else if e as u128 - (self.hubs as u128) < self.mids as u128 {
                1
            } else {
                2
            };
            proof {
                self.lemma_target_range(d as int, e as int);
                assert(0 <= d * self.count < self.domains * self.count) by (nonlinear_arith)
                    requires
                        0 <= d < self.domains,
                        self.count >= 32,
                ;
            }
            let target: usize = if common[e] {
                self.count + 4 + ((e as u128 * 7 + 13) % (self.count as u128)) as usize
            } else {
                2 * self.count + 4 + d * self.count + ((e as u128 * 7 + 13 + d as u128 * 31) % (
                self.count as u128)) as usize
            };
            facts.push(
                RelationalFact {
                    domain: d,
                    entity: e,
                    relation: self.count + e % 4,
                    target,
                    rank_tier: tier,
                },
            );
            e = e + 1;
        }
        proof {
            assert(facts@ =~= self.says(d as int));
        }
        facts
    }
}

/// The facts at the picked places.
pub open spec fn picked(facts: Seq<RelationalFact>, picks: Seq<usize>) -> Seq<RelationalFact> {
    picks.map_values(|p: usize| facts[p as int])
}

/// The walk that shows the picked facts.
pub fn walk_of(facts: &[RelationalFact], picks: &[usize]) -> (walk: Vec<RelationalFact>)
    requires
        forall|k: int| 0 <= k < picks@.len() ==> (#[trigger] picks@[k]) < facts@.len(),
    ensures
        walk@ == picked(facts@, picks@),
{
    let mut walk: Vec<RelationalFact> = Vec::new();
    let mut k: usize = 0;
    while k < picks.len()
        invariant
            forall|k: int| 0 <= k < picks@.len() ==> (#[trigger] picks@[k]) < facts@.len(),
            k <= picks@.len(),
            walk@.len() == k,
            forall|j: int| 0 <= j < k ==> walk@[j] == facts@[picks@[j] as int],
        decreases picks@.len() - k,
    {
        assert(picks@[k as int] < facts@.len());
        walk.push(facts[picks[k]]);
        k = k + 1;
    }
    proof {
        assert(walk@ =~= picked(facts@, picks@));
    }
    walk
}

/// The tokens that facts are shown as: entity, relation, target.
pub open spec fn tokens_of(facts: Seq<RelationalFact>) -> Seq<usize> {
    Seq::new(
        3 * facts.len(),
        |i: int|
            if i % 3 == 0 {
                facts[i / 3].entity
            } else if i % 3 == 1 {
                facts[i / 3].relation
            } else {
                facts[i / 3].target
            },
    )
}

/// The tokens that a domain shows first: sixteen, or all where there are fewer.
pub open spec fn prefix_of(walk: Seq<RelationalFact>) -> Seq<usize> {
    tokens_of(walk).take(if 3 * walk.len() < 16 {
        3 * walk.len() as int
    } else {
        16
    })
}

/// The tokens that a domain shows first.
pub fn prefix(walk: &[RelationalFact]) -> (tokens: Vec<usize>)
    ensures
        tokens@ == prefix_of(walk@),
{
    let mut tokens: Vec<usize> = Vec::new();
    let mut k: usize = 0;
    while k < walk.len() && k < 6
        invariant
            k <= walk@.len(),
            k <= 6,
            tokens@.len() == 3 * k,
            forall|i: int| 0 <= i < 3 * k ==> tokens@[i] == tokens_of(walk@)[i],
        decreases 6 - k,
    {
        tokens.push(walk[k].entity);
        tokens.push(walk[k].relation);
        tokens.push(walk[k].target);
        k = k + 1;
    }
    if tokens.len() > 16 {
        tokens.truncate(16);
    }
    proof {
        assert(tokens@ =~= prefix_of(walk@));
    }
    tokens
}

impl RelationalFactStream {
    /// Lays out the next of the domains that share their entities, with a walk
    /// that shows the picked facts.
    pub fn add_shared(&mut self, s: &Shared, picks: &[usize])
        requires
            old(self).wf(),
            old(self).mode == StreamMode::ModeB,
            old(self).facts@.len() < old(self).domains,
            s.wf(),
            s.domains == old(self).domains,
            s.facts == old(self).facts_per_domain,
            picks@.len() == old(self).span_tokens as int / 3,
            forall|k: int| 0 <= k < picks@.len() ==> (#[trigger] picks@[k]) < s.facts,
        ensures
            final(self).wf(),
            final(self).same_terms(old(self)),
            final(self).backbone@ == old(self).backbone@,
            final(self).facts@.len() == old(self).facts@.len() + 1,
            final(self).facts@.drop_last() == old(self).facts@,
            final(self).walks@.drop_last() == old(self).walks@,
            final(self).prefixes@.drop_last() == old(self).prefixes@,
            ({
                let all = s.says(old(self).facts@.len() as int);
                &&& final(self).facts@.last()@ == all
                &&& final(self).walks@.last()@ == picked(all, picks@)
                &&& final(self).prefixes@.last()@ == prefix_of(picked(all, picks@))
            }),
    {
        let d: usize = self.facts.len();
        let facts: Vec<RelationalFact> = s.domain_facts(d);
        let walk: Vec<RelationalFact> = walk_of(facts.as_slice(), picks);
        let first: Vec<usize> = prefix(walk.as_slice());
        proof {
            let n = self.tokens();
            assert forall|e: int| 0 <= e < facts@.len() implies (#[trigger] facts@[e]).is_within(
                d as int,
                n,
            ) by {
                law_roles_are_disjoint(*s, d as int, e);
            }
            assert forall|k: int| 0 <= k < walk@.len() implies (#[trigger] walk@[k]).is_within(
                d as int,
                n,
            ) by {
                assert(picks@[k] < s.facts);
                assert(facts@[picks@[k] as int].is_within(d as int, n));
            }
        }
        self.add_domain(facts, walk, first);
    }
}

/// Where no target is shared, what one domain answers another never does, though
/// both are asked the same.
pub proof fn law_own_targets_are_disjoint(s: Shared, a: int, b: int, e: int, f: int)
    requires
        s.wf(),
        s.overlap == 0,
        0 <= a < b < s.domains,
        0 <= e < s.facts,
        0 <= f < s.facts,
    ensures
        s.target(a, e) != s.target(b, f),
        s.fact(a, e).entity == s.fact(b, e).entity,
        s.fact(a, e).relation == s.fact(b, e).relation,
{
    s.lemma_turns();
    s.lemma_target_range(a, e);
    s.lemma_target_range(b, f);
    let n = s.count as int;
    assert((a + 1) * n <= b * n) by (nonlinear_arith)
        requires
            a + 1 <= b,
            n >= 32,
    ;
    assert(0 * s.facts == 0) by (nonlinear_arith);
    assert(s.common().len() == 0);
}

/// Where every target is shared, all domains say the same.
pub proof fn law_full_overlap_is_one_meaning(s: Shared, a: int, b: int, e: int)
    requires
        s.wf(),
        s.overlap == 1000,
        0 <= a < s.domains,
        0 <= b < s.domains,
        0 <= e < s.facts,
    ensures
        s.target(a, e) == s.target(b, e),
{
    s.lemma_turns();
    assert(s.common_count() == s.facts);
    assert(s.common() =~= ranking(s.turns(), 0));
}

/// The overlap is the share of facts that mean the same in every domain: exactly
/// so many of them do, and of the others no two domains say the same.
pub proof fn law_overlap_is_a_share(s: Shared, a: int, b: int, e: int)
    requires
        s.wf(),
        0 <= a < b < s.domains,
        0 <= e < s.facts,
    ensures
        s.common().len() == s.overlap * s.facts / 1000,
        s.common().no_duplicates(),
        forall|k: int| 0 <= k < s.common().len() ==> 0 <= #[trigger] s.common()[k] < s.facts,
        s.common().contains(e) <==> s.target(a, e) == s.target(b, e),
{
    s.lemma_turns();
    s.lemma_target_range(a, e);
    s.lemma_target_range(b, e);
    let n = s.count as int;
    assert((a + 1) * n <= b * n) by (nonlinear_arith)
        requires
            a + 1 <= b,
            n >= 32,
    ;
}

/// Entities, relations and targets are different tokens, all among those set
/// aside for facts.
pub proof fn law_roles_are_disjoint(s: Shared, d: int, e: int)
    requires
        s.wf(),
        0 <= d < s.domains,
        0 <= e < s.facts,
    ensures
        s.fact(d, e).entity < s.count,
        s.count <= s.fact(d, e).relation < s.count + 4,
        s.count + 4 <= s.fact(d, e).target < allotted(
            StreamMode::ModeB,
            s.domains as int,
            s.facts as int,
        ),
        s.fact(d, e).domain == d,
{
    s.lemma_target_range(d, e);
    let n = s.count as int;
    assert(d * n >= 0) by (nonlinear_arith)
        requires
            d >= 0,
            n >= 32,
    ;
}

/// Two numbers that a step of seven takes to the same place differ by a multiple
/// of the length, times seven.
proof fn lemma_sevens(x: int, y: int, n: int)
    requires
        n >= 1,
    ensures
        (x * 7) % n == (y * 7) % n <==> (7 * (x - y)) % n == 0,
        n % 7 != 0 && 0 <= x < n && 0 <= y < n && (x * 7) % n == (y * 7) % n ==> x == y,
{
    vstd::arithmetic::div_mod::lemma_mod_equivalence(x * 7, y * 7, n);
    let d = x - y;
    assert(x * 7 - y * 7 == 7 * d);
    vstd::arithmetic::div_mod::lemma_small_mod(0, n as nat);
    if n % 7 != 0 && 0 <= x < n && 0 <= y < n && (7 * d) % n == 0 {
        vstd::arithmetic::div_mod::lemma_fundamental_div_mod(7 * d, n);
        let q = (7 * d) / n;
        assert(7 * d == n * q);
        lemma_seven_is_prime(n, q);
        let r = q / 7;
        assert(q == 7 * r) by {
            vstd::arithmetic::div_mod::lemma_fundamental_div_mod(q, 7);
        }
        assert(d == n * r) by (nonlinear_arith)
            requires
                7 * d == n * q,
                q == 7 * r,
        ;
        if r >= 1 {
            assert(n * r >= n) by (nonlinear_arith)
                requires
                    r >= 1,
                    n >= 1,
            ;
        } else if r <= -1 {
            assert(n * r <= -n) by (nonlinear_arith)
                requires
                    r <= -1,
                    n >= 1,
            ;
        }
    }
}

/// Seven divides a product only where it divides one of the two.
proof fn lemma_seven_is_prime(a: int, b: int)
    requires
        (a * b) % 7 == 0,
        a % 7 != 0,
    ensures
        b % 7 == 0,
{
    let (x, y) = (a % 7, b % 7);
    vstd::arithmetic::div_mod::lemma_mul_mod_noop(a, b, 7);
    assert((x * y) % 7 == 0);
    assert(1 <= x <= 6 && 0 <= y <= 6);
    assert(x == 1 ==> x * y == y) by (nonlinear_arith);
    assert(x == 2 ==> x * y == 2 * y) by (nonlinear_arith);
    assert(x == 3 ==> x * y == 3 * y) by (nonlinear_arith);
    assert(x == 4 ==> x * y == 4 * y) by (nonlinear_arith);
    assert(x == 5 ==> x * y == 5 * y) by (nonlinear_arith);
    assert(x == 6 ==> x * y == 6 * y) by (nonlinear_arith);
}

/// The remainders of two sums with a term in common agree where those of the rest
/// do.
proof fn lemma_shifted(x: int, y: int, c: int, n: int)
    requires
        n >= 1,
    ensures
        (x + c) % n == (y + c) % n <==> x % n == y % n,
{
    vstd::arithmetic::div_mod::lemma_mod_equivalence(x + c, y + c, n);
    vstd::arithmetic::div_mod::lemma_mod_equivalence(x, y, n);
    assert((x + c) - (y + c) == x - y);
}

/// Within a domain every entity has a target of its own, as long as the number of
/// entities is no multiple of seven: no answer serves for two facts. In any case
/// two facts of a kind share their target only where seven times their distance
/// is a multiple of the number of entities.
pub proof fn law_answers_differ_within_a_domain(s: Shared, d: int, e: int, f: int)
    requires
        s.wf(),
        0 <= d < s.domains,
        0 <= e < s.facts,
        0 <= f < s.facts,
        e != f,
    ensures
        s.count as int % 7 != 0 ==> s.fact(d, e).target != s.fact(d, f).target,
        s.is_common(e) != s.is_common(f) ==> s.fact(d, e).target != s.fact(d, f).target,
        s.is_common(e) == s.is_common(f) ==> (s.fact(d, e).target == s.fact(d, f).target <==> (7 * (
        e - f)) % (s.count as int) == 0),
{
    let n = s.count as int;
    s.lemma_target_range(d, e);
    s.lemma_target_range(d, f);
    assert(d * n >= 0) by (nonlinear_arith)
        requires
            d >= 0,
            n >= 32,
    ;
    lemma_sevens(e, f, n);
    lemma_shifted(e * 7, f * 7, 13, n);
    lemma_shifted(e * 7, f * 7, 13 + d * 31, n);
    assert(e * 7 + 13 + d * 31 == e * 7 + (13 + d * 31));
    assert(f * 7 + 13 + d * 31 == f * 7 + (13 + d * 31));
}

/// Where a target lies in its pool: the first entity's at the thirteenth place of
/// the common one, each next entity's seven places on, and each next domain's
/// thirty-one places on in its own, all around the end.
pub proof fn law_targets_step_around_their_pool(s: Shared, d: int, e: int)
    requires
        s.wf(),
        0 <= d < s.domains,
        0 <= e < s.facts,
    ensures
        ({
            let n = s.count as int;
            let own = |c: int, f: int| s.target(c, f) - (2 * n + 4 + c * n);
            &&& s.is_common(0) && e == 0 ==> s.target(d, 0) == n + 4 + 13
            &&& !s.is_common(0) && e == 0 && d == 0 ==> s.target(0, 0) == 2 * n + 4 + 13
            &&& e > 0 && s.is_common(e) && s.is_common(e - 1) ==> (s.target(d, e) - s.target(
                d,
                e - 1,
            ) - 7) % n == 0
            &&& e > 0 && !s.is_common(e) && !s.is_common(e - 1) ==> (s.target(d, e) - s.target(
                d,
                e - 1,
            ) - 7) % n == 0
            &&& d > 0 && !s.is_common(e) ==> (own(d, e) - own(d - 1, e) - 31) % n == 0
        }),
{
    let n = s.count as int;
    vstd::arithmetic::div_mod::lemma_small_mod(13, n as nat);
    assert(d == 0 ==> d * n == 0) by (nonlinear_arith);
    if e > 0 {
        lemma_step(e * 7 + 13, (e - 1) * 7 + 13, 7, n);
        lemma_step(e * 7 + 13 + d * 31, (e - 1) * 7 + 13 + d * 31, 7, n);
    }
    if d > 0 {
        lemma_step(e * 7 + 13 + d * 31, e * 7 + 13 + (d - 1) * 31, 31, n);
    }
}

proof fn lemma_step(x: int, y: int, c: int, n: int)
    requires
        n >= 1,
        x - y == c,
    ensures
        (x % n - y % n - c) % n == 0,
{
    vstd::arithmetic::div_mod::lemma_fundamental_div_mod(x, n);
    vstd::arithmetic::div_mod::lemma_fundamental_div_mod(y, n);
    let k = y / n - x / n;
    assert(x % n - y % n - c == k * n) by (nonlinear_arith)
        requires
            x == n * (x / n) + x % n,
            y == n * (y / n) + y % n,
            x - y == c,
            k == y / n - x / n,
    ;
    vstd::arithmetic::div_mod::lemma_mod_multiples_basic(k, n);
}

/// What a domain says is about the first entities, one fact each; the four
/// relations come in turn; the hubs come first, then the middle, then the tail,
/// each as many as there should be.
pub proof fn law_facts_come_in_order(s: Shared, d: int, e: int)
    requires
        s.wf(),
        0 <= d < s.domains,
        0 <= e < s.facts,
    ensures
        s.says(d).len() == s.facts,
        s.says(d)[e].entity == e,
        s.says(d)[0].relation == s.count,
        e > 0 ==> s.says(d)[e].relation == if s.says(d)[e - 1].relation == s.count + 3 {
            s.count as int
        } else {
            s.says(d)[e - 1].relation + 1
        },
        s.says(d)[e].rank_tier == 0 <==> e + 1 <= s.hubs,
        s.says(d)[e].rank_tier <= 1 <==> e + 1 <= s.hubs + s.mids,
        s.says(d)[e].rank_tier <= 2,
{
}

/// Facts get their target in common in a mixed order, the same in every domain:
/// a fact that has it comes no later in that order than one that has not, and
/// before it where they come at once and it is of the earlier entity.
pub proof fn law_common_facts_have_the_first_turns(s: Shared, e: int, f: int)
    requires
        s.wf(),
        0 <= e < s.facts,
        0 <= f < s.facts,
        s.is_common(e),
        !s.is_common(f),
    ensures
        (17 * e + 5) % 1000 <= (17 * f + 5) % 1000,
        (17 * e + 5) % 1000 == (17 * f + 5) % 1000 ==> e < f,
{
    s.lemma_turns();
    let t = s.turns();
    let r = ranking(t, 0);
    law_ranking_exists(t, 0);
    let c = s.common();
    let i = choose|i: int| 0 <= i < c.len() && c[i] == e;
    assert(r.contains(f));
    let j = choose|j: int| 0 <= j < r.len() && r[j] == f;
    if j < c.len() {
        assert(c[j] == f);
    }
    assert(ranks_before(t, r[i], r[j]));
    assert(17 * e + 5 == e * 17 + 5 && 17 * f + 5 == f * 17 + 5);
}

/// A walk shows the picked facts in the order they were picked in, and a domain
/// first shows their tokens, three for each fact, up to sixteen.
pub proof fn law_prefixes_spell_the_walk(facts: Seq<RelationalFact>, picks: Seq<usize>, k: int)
    requires
        0 <= k < picks.len(),
    ensures
        picked(facts, picks).len() == picks.len(),
        picked(facts, picks)[k] == facts[picks[k] as int],
        ({
            let walk = picked(facts, picks);
            let first = prefix_of(walk);
            &&& first.len() <= 16
            &&& first.len() == 16 || first.len() == 3 * walk.len()
            &&& 3 * k < first.len() ==> first[3 * k] == walk[k].entity
            &&& 3 * k + 1 < first.len() ==> first[3 * k + 1] == walk[k].relation
            &&& 3 * k + 2 < first.len() ==> first[3 * k + 2] == walk[k].target
        }),
{
    assert((3 * k) / 3 == k && (3 * k + 1) / 3 == k && (3 * k + 2) / 3 == k);
}

} // verus!
