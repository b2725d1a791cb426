//! What the stream and the sparse code are like before any memory learns from
//! them.

use std::collections::HashSet;

use vstd::prelude::*;

use crate::sdr::facts::RelationalFact;
use crate::window::latest;
use crate::window::Window;

verus! {

/// How many of a list are in another.
pub open spec fn kept(now: Seq<usize>, before: Seq<usize>) -> int
    decreases now.len(),
{
    if now.len() == 0 {
        0
    } else {
        kept(now.drop_last(), before) + if before.contains(now.last()) {
            1int
        } else {
            0
        }
    }
}

/// How many of a list are in another.
fn count_kept(now: &[usize], before: &[usize]) -> (n: usize)
    ensures
        n == kept(now@, before@),
        n <= now@.len(),
{
    let mut n: usize = 0;
    let mut k: usize = 0;
    while k < now.len()
        invariant
            k <= now@.len(),
            n == kept(now@.take(k as int), before@),
            n <= k,
        decreases now@.len() - k,
    {
        let mut found: bool = false;
        let mut j: usize = 0;
        while j < before.len() && !found
            invariant
                k < now@.len(),
                j <= before@.len(),
                found ==> before@.contains(now@[k as int]),
                !found ==> forall|i: int| 0 <= i < j ==> before@[i] != now@[k as int],
            decreases before@.len() - j + if found {
                0int
            } else {
                1
            },
        {
            if before[j] == now[k] {
                assert(before@[j as int] == now@[k as int]);
                found = true;
            }
            j = j + 1;
        }
        proof {
            assert(now@.take(k + 1).drop_last() =~= now@.take(k as int));
        }
        if found {
            n = n + 1;
        }
        k = k + 1;
    }
    proof {
        assert(now@.take(k as int) =~= now@);
    }
    n
}

/// How many steps back the code is looked for again.
pub const FAR: usize = 100;

/// How much of the active set was active before.
#[derive(Clone, Copy, Debug)]
pub struct Kept {
    /// How many are active.
    pub of: usize,
    /// How many of them were active one step ago, if there was a step.
    pub last: Option<usize>,
    /// How many of them were active a hundred steps ago, if there were as many.
    pub far: Option<usize>,
}

/// The active sets of the last steps.
pub struct Recall {
    window: Window<Vec<usize>>,
}

impl Recall {
    /// The active sets that are held, oldest first.
    pub closed spec fn sets(&self) -> Seq<Vec<usize>> {
        self.window@
    }

    /// A few more than a hundred are held at most.
    pub closed spec fn wf(&self) -> bool {
        self.window.wf() && self.window.limit() == FAR + 1
    }

    /// Nothing held.
    pub fn new() -> (r: Self)
        ensures
            r.wf(),
            r.sets() == Seq::<Vec<usize>>::empty(),
    {
        Recall { window: Window::new(FAR + 1) }
    }

    /// Forgets everything, as at the start of a visit.
    pub fn clear(&mut self)
        requires
            old(self).wf(),
        ensures
            final(self).wf(),
            final(self).sets() == Seq::<Vec<usize>>::empty(),
    {
        self.window.clear();
    }

    /// Compares an active set with the ones before it, and holds it.
    pub fn note(&mut self, now: Vec<usize>) -> (k: Kept)
        requires
            old(self).wf(),
        ensures
            final(self).wf(),
            final(self).sets() == latest(old(self).sets().push(now), FAR + 1),
            k.of == now@.len(),
            k.last is Some <==> old(self).sets().len() >= 1,
            k.last is Some ==> k.last->0 == kept(now@, old(self).sets().last()@),
            k.far is Some <==> old(self).sets().len() >= FAR,
            k.far is Some ==> k.far->0 == kept(
                now@,
                old(self).sets()[old(self).sets().len() - FAR]@,
            ),
    {
        let last: Option<usize> = match self.window.back(1) {
            Some(before) => Some(count_kept(now.as_slice(), before.as_slice())),
            None => None,
        };
        let far: Option<usize> = match self.window.back(FAR) {
            Some(before) => Some(count_kept(now.as_slice(), before.as_slice())),
            None => None,
        };
        let of: usize = now.len();
        self.window.push(now);
        Kept { of, last, far }
    }
}

/// A code that stands still keeps all of itself.
pub proof fn law_a_still_code_is_kept(now: Seq<usize>, before: Seq<usize>)
    requires
        forall|k: int| 0 <= k < now.len() ==> before.contains(#[trigger] now[k]),
    ensures
        kept(now, before) == now.len(),
    decreases now.len(),
{
    if now.len() > 0 {
        let short = now.drop_last();
        assert forall|k: int| 0 <= k < short.len() implies before.contains(
            #[trigger] short[k],
        ) by {
            assert(short[k] == now[k]);
        }
        law_a_still_code_is_kept(short, before);
        assert(before.contains(now[now.len() - 1]));
    }
}

/// How often a walk shows what a fact asks.
pub open spec fn shown(walk: Seq<RelationalFact>, f: RelationalFact) -> int
    decreases walk.len(),
{
    if walk.len() == 0 {
        0
    } else {
        shown(walk.drop_last(), f) + if walk.last().entity == f.entity && walk.last().relation
            == f.relation {
            1int
        } else {
            0
        }
    }
}

/// How often a walk shows what a fact asks.
fn count_shown(walk: &[RelationalFact], f: RelationalFact) -> (n: u64)
    requires
        walk@.len() <= u64::MAX,
    ensures
        n == shown(walk@, f),
{
    let mut n: u64 = 0;
    let mut k: usize = 0;
    while k < walk.len()
        invariant
            walk@.len() <= u64::MAX,
            k <= walk@.len(),
            n == shown(walk@.take(k as int), f),
            n <= k,
        decreases walk@.len() - k,
    {
        proof {
            assert(walk@.take(k + 1).drop_last() =~= walk@.take(k as int));
        }
        if walk[k].entity == f.entity && walk[k].relation == f.relation {
            n = n + 1;
        }
        k = k + 1;
    }
    proof {
        assert(walk@.take(k as int) =~= walk@);
    }
    n
}

/// How often the facts of a tier are shown in their domain's walk.
pub open spec fn exposed(facts: Seq<RelationalFact>, walk: Seq<RelationalFact>, tier: int) -> Seq<u64>
    decreases facts.len(),
{
    if facts.len() == 0 {
        Seq::empty()
    } else {
        let rest = exposed(facts.drop_last(), walk, tier);
        if crate::sdr::tally::tier_of(facts.last().rank_tier as int) == tier {
            rest.push(shown(walk, facts.last()) as u64)
        } else {
            rest
        }
    }
}

/// Adds how often the facts of a tier are shown in their domain's walk.
pub fn exposures(
    facts: &[RelationalFact],
    walk: &[RelationalFact],
    tier: usize,
    out: &mut Vec<u64>,
)
    requires
        walk@.len() <= u64::MAX,
    ensures
        final(out)@ == old(out)@ + exposed(facts@, walk@, tier as int),
{
    let mut k: usize = 0;
    proof {
        assert(out@ =~= out@ + exposed(facts@.take(0), walk@, tier as int));
    }
    while k < facts.len()
        invariant
            walk@.len() <= u64::MAX,
            k <= facts@.len(),
            out@ == old(out)@ + exposed(facts@.take(k as int), walk@, tier as int),
        decreases facts@.len() - k,
    {
        proof {
            assert(facts@.take(k + 1).drop_last() =~= facts@.take(k as int));
        }
        let f: RelationalFact = facts[k];
        let its: usize = if f.rank_tier < 2 {
            f.rank_tier
        } else {
            2
        };
        let ghost before = out@;
        if its == tier {
            out.push(count_shown(walk, f));
        }
        proof {
            assert(out@ =~= old(out)@ + exposed(facts@.take(k + 1), walk@, tier as int));
        }
        k = k + 1;
    }
    proof {
        assert(facts@.take(k as int) =~= facts@);
    }
}

/// The targets of facts.
pub open spec fn targets_of(facts: Seq<RelationalFact>) -> Set<usize>
    decreases facts.len(),
{
    if facts.len() == 0 {
        Set::empty()
    } else {
        targets_of(facts.drop_last()).insert(facts.last().target)
    }
}

/// The targets of the first domains.
pub open spec fn targets_upto(facts: Seq<Vec<RelationalFact>>, n: int) -> Set<usize>
    decreases n,
{
    if n <= 0 {
        Set::empty()
    } else {
        targets_upto(facts, n - 1) + targets_of(facts[n - 1]@)
    }
}

/// How many targets a domain has, and how many it and the ones before have
/// between them.
#[derive(Clone, Copy, Debug)]
pub struct Growth {
    /// The domain's own.
    pub own: usize,
    /// All so far.
    pub union: usize,
}

/// How the set of targets grows, domain by domain.
pub fn target_growth(facts: &Vec<Vec<RelationalFact>>) -> (g: Vec<Growth>)
    ensures
        g@.len() == facts@.len(),
        forall|k: int|
            0 <= k < facts@.len() ==> (#[trigger] g@[k]).own == targets_of(facts@[k]@).len()
                && g@[k].union == targets_upto(facts@, k + 1).len(),
{
    broadcast use vstd::std_specs::hash::group_hash_axioms;

    let mut union: HashSet<usize> = HashSet::new();
    let mut g: Vec<Growth> = Vec::new();
    let mut d: usize = 0;
    while d < facts.len()
        invariant
            d <= facts@.len(),
            g@.len() == d,
            union@ == targets_upto(facts@, d as int),
            forall|k: int|
                0 <= k < d ==> (#[trigger] g@[k]).own == targets_of(facts@[k]@).len() && g@[k].union
                    == targets_upto(facts@, k + 1).len(),
        decreases facts@.len() - d,
    {
        broadcast use vstd::std_specs::hash::group_hash_axioms;

        let mut own: HashSet<usize> = HashSet::new();
        let ghost before = union@;
        let ghost all = facts@[d as int]@;
        proof {
            assert(before =~= before + targets_of(all.take(0)));
        }
        let mut k: usize = 0;
        while k < facts[d].len()
            invariant
                d < facts@.len(),
                all == facts@[d as int]@,
                k <= all.len(),
                own@ == targets_of(all.take(k as int)),
                union@ == before + targets_of(all.take(k as int)),
            decreases all.len() - k,
        {
            broadcast use vstd::std_specs::hash::group_hash_axioms;

            let t: usize = facts[d][k].target;
            let _ = own.insert(t);
            let _ = union.insert(t);
            proof {
                assert(all.take(k + 1).drop_last() =~= all.take(k as int));
                assert(union@ =~= before + targets_of(all.take(k + 1)));
            }
            k = k + 1;
        }
        proof {
            assert(all.take(k as int) =~= all);
            assert(union@ == targets_upto(facts@, d + 1));
        }
        g.push(Growth { own: own.len(), union: union.len() });
        d = d + 1;
    }
    g
}

/// There are finitely many targets.
proof fn lemma_targets_finite(facts: Seq<RelationalFact>)
    ensures
        targets_of(facts).finite(),
    decreases facts.len(),
{
    if facts.len() > 0 {
        lemma_targets_finite(facts.drop_last());
    }
}

proof fn lemma_union_finite(facts: Seq<Vec<RelationalFact>>, n: int)
    ensures
        targets_upto(facts, n).finite(),
    decreases n,
{
    if n > 0 {
        lemma_union_finite(facts, n - 1);
        lemma_targets_finite(facts[n - 1]@);
    }
}

/// The set of targets never shrinks, and a domain adds at most its own; it adds
/// all of them exactly where none was there before.
pub proof fn law_targets_grow(facts: Seq<Vec<RelationalFact>>, n: int)
    requires
        1 <= n <= facts.len(),
    ensures
        targets_upto(facts, n - 1).len() <= targets_upto(facts, n).len(),
        targets_of(facts[n - 1]@).len() <= targets_upto(facts, n).len(),
        targets_upto(facts, n).len() <= targets_upto(facts, n - 1).len() + targets_of(
            facts[n - 1]@,
        ).len(),
        targets_upto(facts, n - 1).disjoint(targets_of(facts[n - 1]@)) <==> targets_upto(
            facts,
            n,
        ).len() == targets_upto(facts, n - 1).len() + targets_of(facts[n - 1]@).len(),
{
    let a = targets_upto(facts, n - 1);
    let b = targets_of(facts[n - 1]@);
    lemma_union_finite(facts, n - 1);
    lemma_targets_finite(facts[n - 1]@);
    vstd::set_lib::lemma_set_intersect_union_lens(a, b);
    vstd::set_lib::lemma_len_subset(a, a + b);
    vstd::set_lib::lemma_len_subset(b, a + b);
    if a.disjoint(b) {
        assert(a.intersect(b) =~= Set::<usize>::empty());
    } else {
        let x = choose|x: usize| a.contains(x) && b.contains(x);
        assert(a.intersect(b).contains(x));
        vstd::set_lib::lemma_len_subset(Set::empty().insert(x), a.intersect(b));
    }
}

/// How much of a code is kept is what the two codes have in common, as sets.
pub proof fn law_kept_is_what_is_common(now: Seq<usize>, before: Seq<usize>)
    requires
        now.no_duplicates(),
    ensures
        kept(now, before) == now.to_set().intersect(before.to_set()).len(),
        now.to_set().intersect(before.to_set()).finite(),
    decreases now.len(),
{
    if now.len() == 0 {
        assert(now.to_set().intersect(before.to_set()) =~= Set::empty());
    } else {
        let short = now.drop_last();
        let x = now.last();
        law_kept_is_what_is_common(short, before);
        let a = short.to_set().intersect(before.to_set());
        let b = now.to_set().intersect(before.to_set());
        assert forall|y: usize| now.contains(y) <==> short.contains(y) || y == x by {
            if short.contains(y) {
                let k = choose|k: int| 0 <= k < short.len() && short[k] == y;
                assert(now[k] == y);
            }
            if now.contains(y) && y != x {
                let k = choose|k: int| 0 <= k < now.len() && now[k] == y;
                assert(short[k] == y);
            }
            assert(now[now.len() - 1] == x);
        }
        if short.contains(x) {
            let k = choose|k: int| 0 <= k < short.len() && short[k] == x;
            assert(now[k] == now[now.len() - 1]);
        }
        if before.contains(x) {
            assert(b =~= a.insert(x));
        } else {
            assert(b =~= a);
        }
    }
}

/// A fact is exposed as often as the walk shows its entity under its relation,
/// whatever it leads to.
pub proof fn law_exposures_count_showings(walk: Seq<RelationalFact>, f: RelationalFact)
    ensures
        shown(walk, f) == walk.filter(
            |w: RelationalFact| w.entity == f.entity && w.relation == f.relation,
        ).len(),
    decreases walk.len(),
{
    reveal(Seq::filter);
    if walk.len() > 0 {
        law_exposures_count_showings(walk.drop_last(), f);
    }
}

/// The exposures of a tier are those of its facts, in their order.
pub proof fn law_exposures_are_by_tier(
    facts: Seq<RelationalFact>,
    walk: Seq<RelationalFact>,
    tier: int,
)
    requires
        0 <= tier < 3,
    ensures
        ({
            let mine = facts.filter(
                |f: RelationalFact| f.rank_tier == tier || (tier == 2 && f.rank_tier > 2),
            );
            &&& exposed(facts, walk, tier).len() == mine.len()
            &&& forall|k: int|
                0 <= k < mine.len() ==> #[trigger] exposed(facts, walk, tier)[k] == shown(
                    walk,
                    mine[k],
                ) as u64
        }),
    decreases facts.len(),
{
    reveal(Seq::filter);
    if facts.len() > 0 {
        law_exposures_are_by_tier(facts.drop_last(), walk, tier);
    }
}

/// The targets of a domain are those its facts lead to, and the targets so far
/// those that facts of the domains so far lead to.
pub proof fn law_targets_are_led_to(facts: Seq<Vec<RelationalFact>>, d: int, n: int, t: usize)
    requires
        0 <= d < facts.len(),
        0 <= n <= facts.len(),
    ensures
        targets_of(facts[d]@).contains(t) <==> exists|k: int|
            0 <= k < facts[d]@.len() && (#[trigger] facts[d]@[k]).target == t,
        targets_upto(facts, n).contains(t) <==> exists|e: int|
            0 <= e < n && #[trigger] targets_of(facts[e]@).contains(t),
    decreases n,
{
    lemma_targets(facts[d]@, t);
    if n > 0 {
        law_targets_are_led_to(facts, d, n - 1, t);
        if targets_upto(facts, n - 1).contains(t) {
            let e = choose|e: int| 0 <= e < n - 1 && #[trigger] targets_of(facts[e]@).contains(t);
            assert(targets_of(facts[e]@).contains(t));
        }
        if targets_of(facts[n - 1]@).contains(t) {
            assert(0 <= n - 1 < n && targets_of(facts[n - 1]@).contains(t));
        }
    }
}

proof fn lemma_targets(facts: Seq<RelationalFact>, t: usize)
    ensures
        targets_of(facts).contains(t) <==> exists|k: int|
            0 <= k < facts.len() && (#[trigger] facts[k]).target == t,
    decreases facts.len(),
{
    if facts.len() > 0 {
        let short = facts.drop_last();
        lemma_targets(short, t);
        if targets_of(short).contains(t) {
            let k = choose|k: int| 0 <= k < short.len() && (#[trigger] short[k]).target == t;
            assert(facts[k].target == t);
        }
        if facts.last().target == t {
            assert(facts[facts.len() - 1].target == t);
        }
        if exists|k: int| 0 <= k < facts.len() && (#[trigger] facts[k]).target == t {
            let k = choose|k: int| 0 <= k < facts.len() && (#[trigger] facts[k]).target == t;
            if k < short.len() {
                assert(short[k].target == t);
            }
        }
    }
}

} // verus!
