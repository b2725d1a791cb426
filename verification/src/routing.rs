//! Whether a fact that is looked up again comes back to where training left it.

use std::collections::HashMap;
use vstd::prelude::*;

verus! {

/// A fact's tokens as one number.
pub open spec fn fact_key(entity: usize, relation: usize) -> u128 {
    (entity as int * 0x1_0000_0000_0000_0000 + relation) as u128
}

proof fn lemma_fact_key(entity: usize, relation: usize)
    ensures
        fact_key(entity, relation) as int == entity as int * 0x1_0000_0000_0000_0000 + relation,
{
    assert(entity as int * 0x1_0000_0000_0000_0000 + relation <= u128::MAX) by (nonlinear_arith)
        requires
            0 <= entity <= 0xffff_ffff_ffff_ffff,
            0 <= relation <= 0xffff_ffff_ffff_ffff,
    ;
}

/// Different facts have different keys.
proof fn lemma_key_is_injective(a: usize, b: usize, c: usize, d: usize)
    requires
        fact_key(a, b) == fact_key(c, d),
    ensures
        a == c,
        b == d,
{
    lemma_fact_key(a, b);
    lemma_fact_key(c, d);
}

/// The home of a fact, given as entity and relation, once another is trained at
/// `at`.
pub open spec fn home_after(
    was: Option<usize>,
    trained: (usize, usize),
    at: usize,
    fact: (usize, usize),
) -> Option<usize> {
    if fact.0 == trained.0 && fact.1 == trained.1 {
        Some(at)
    } else {
        was
    }
}

/// How many probes the probe of a fact with this home counts as.
pub open spec fn probes_more(home: Option<usize>) -> int {
    if home is Some {
        1
    } else {
        0
    }
}

/// How many returns the probe of a fact with this home counts as.
pub open spec fn returns_more(home: Option<usize>, at: Option<usize>) -> int {
    if home is Some && home == at {
        1
    } else {
        0
    }
}

/// Where training left each fact, and how often a probe came back there.
#[derive(Clone, Debug)]
pub struct Routing {
    home: HashMap<u128, usize>,
    hits: u64,
    asked: u64,
}

impl Routing {
    /// Where training left a fact.
    pub closed spec fn home_of(&self, entity: usize, relation: usize) -> Option<usize> {
        if self.home@.contains_key(fact_key(entity, relation)) {
            Some(self.home@[fact_key(entity, relation)])
        } else {
            None
        }
    }

    /// Probes that came back to where training left the fact.
    pub closed spec fn returned(&self) -> int {
        self.hits as int
    }

    /// Probes of facts that were trained.
    pub closed spec fn probed(&self) -> int {
        self.asked as int
    }

    /// No more probes came back than were made.
    pub closed spec fn wf(&self) -> bool {
        self.hits <= self.asked
    }

    /// No fact trained or probed yet.
    pub fn new() -> (r: Self)
        ensures
            r.wf(),
            r.returned() == 0,
            r.probed() == 0,
            forall|e: usize, q: usize| (#[trigger] r.home_of(e, q)) is None,
    {
        Routing { home: HashMap::new(), hits: 0, asked: 0 }
    }

    /// Training left a fact at `at`.
    pub fn learn(&mut self, entity: usize, relation: usize, at: usize)
        requires
            old(self).wf(),
        ensures
            final(self).wf(),
            forall|e: usize, q: usize| #[trigger]
                final(self).home_of(e, q) == home_after(
                    old(self).home_of(e, q),
                    (entity, relation),
                    at,
                    (e, q),
                ),
            final(self).returned() == old(self).returned(),
            final(self).probed() == old(self).probed(),
    {
        broadcast use vstd::std_specs::hash::group_hash_axioms;

        proof {
            lemma_fact_key(entity, relation);
            assert forall|e: usize, q: usize| fact_key(e, q) == fact_key(entity, relation) implies e
                == entity && q == relation by {
                lemma_key_is_injective(e, q, entity, relation);
            }
        }
        let key: u128 = entity as u128 * 0x1_0000_0000_0000_0000 + relation as u128;
        self.home.insert(key, at);
    }

    /// A probe of a fact ended at `at`, or nowhere. Facts that were never
    /// trained do not count.
    pub fn note_consistency(&mut self, entity: usize, relation: usize, at: Option<usize>)
        requires
            old(self).wf(),
            old(self).probed() < u64::MAX,
        ensures
            final(self).wf(),
            forall|e: usize, q: usize| #[trigger]
                final(self).home_of(e, q) == old(self).home_of(e, q),
            final(self).probed() == old(self).probed() + probes_more(
                old(self).home_of(entity, relation),
            ),
            final(self).returned() == old(self).returned() + returns_more(
                old(self).home_of(entity, relation),
                at,
            ),
    {
        broadcast use vstd::std_specs::hash::group_hash_axioms;

        proof {
            lemma_fact_key(entity, relation);
        }
        let key: u128 = entity as u128 * 0x1_0000_0000_0000_0000 + relation as u128;
        let home: Option<usize> = match self.home.get(&key) {
            Some(h) => Some(*h),
            None => None,
        };
        match home {
            Some(h) => {
                self.asked = self.asked + 1;
                match at {
                    Some(a) => {
                        if a == h {
                            self.hits = self.hits + 1;
                        }
                    },
                    None => {},
                }
            },
            None => {},
        }
    }

    /// How many probes came back, out of how many.
    pub fn consistency(&self) -> (r: (u64, u64))
        requires
            self.wf(),
        ensures
            r.0 == self.returned(),
            r.1 == self.probed(),
            r.0 <= r.1,
    {
        (self.hits, self.asked)
    }
}

/// A probe counts where the fact was trained, and comes back where it ends at the
/// very place that training left the fact at: one that ends elsewhere, or nowhere,
/// does not, and one of a fact never trained changes nothing.
pub proof fn law_probes_come_back_home(home: usize, at: usize)
    ensures
        probes_more(Some(home)) == 1,
        probes_more(None) == 0,
        returns_more(Some(home), Some(home)) == 1,
        at != home ==> returns_more(Some(home), Some(at)) == 0,
        returns_more(Some(home), None) == 0,
        returns_more(None, Some(at)) == 0,
        returns_more(None, None) == 0,
{
}

/// Training moves the home of the fact that is trained and of no other: not of one
/// with the same entity, nor of one with the same relation.
pub proof fn law_training_moves_one_fact(
    was: Option<usize>,
    entity: usize,
    relation: usize,
    at: usize,
    other: usize,
)
    ensures
        home_after(was, (entity, relation), at, (entity, relation)) == Some(at),
        other != relation ==> home_after(was, (entity, relation), at, (entity, other)) == was,
        other != entity ==> home_after(was, (entity, relation), at, (other, relation)) == was,
{
}

/// Facts that differ in either token are kept under different keys.
pub proof fn law_facts_have_their_own_keys(a: usize, b: usize, c: usize, d: usize)
    ensures
        fact_key(a, b) == fact_key(c, d) <==> a == c && b == d,
{
    if fact_key(a, b) == fact_key(c, d) {
        lemma_key_is_injective(a, b, c, d);
    }
}

} // verus!
