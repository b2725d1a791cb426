//! What a probe of a domain's facts comes to, tier by tier.

use std::collections::HashSet;

use vstd::prelude::*;

use crate::sdr::facts::RelationalFact;

verus! {

/// One answer of a probe.
#[derive(Clone, Copy, Debug, PartialEq, Eq, Structural)]
pub struct Answer {
    /// The tier of the fact that was asked for.
    pub rank_tier: usize,
    /// What was predicted.
    pub predicted: usize,
    /// Whether that was right.
    pub correct: bool,
}

/// A count of hits among a count of trials.
#[derive(Clone, Copy, Debug, PartialEq, Eq, Structural)]
pub struct Share {
    /// How many hit.
    pub hits: usize,
    /// How many there were.
    pub of: usize,
}

/// The three tiers: whatever is neither a hub nor in the middle is in the tail.
pub open spec fn tier_of(rank_tier: int) -> int {
    if rank_tier == 0 {
        0
    } else if rank_tier == 1 {
        1
    } else {
        2
    }
}

/// How many answers there are in a tier.
pub open spec fn asked_in(answers: Seq<Answer>, tier: int) -> int
    decreases answers.len(),
{
    if answers.len() == 0 {
        0
    } else {
        asked_in(answers.drop_last(), tier) + if tier_of(answers.last().rank_tier as int) == tier {
            1int
        } else {
            0
        }
    }
}

/// How many answers in a tier are right.
pub open spec fn hits_in(answers: Seq<Answer>, tier: int) -> int
    decreases answers.len(),
{
    if answers.len() == 0 {
        0
    } else {
        hits_in(answers.drop_last(), tier) + if answers.last().correct && tier_of(
            answers.last().rank_tier as int,
        ) == tier {
            1int
        } else {
            0
        }
    }
}

/// How many answers are right.
pub open spec fn hits(answers: Seq<Answer>) -> int {
    hits_in(answers, 0) + hits_in(answers, 1) + hits_in(answers, 2)
}

/// What was predicted at all.
pub open spec fn predictions(answers: Seq<Answer>) -> Set<usize>
    decreases answers.len(),
{
    if answers.len() == 0 {
        Set::empty()
    } else {
        predictions(answers.drop_last()).insert(answers.last().predicted)
    }
}

/// The share of right answers among all; an empty probe counts as one trial.
pub open spec fn overall(answers: Seq<Answer>) -> Share {
    Share {
        hits: hits(answers) as usize,
        of: if answers.len() == 0 {
            1
        } else {
            answers.len() as usize
        },
    }
}

/// The share of right answers in a tier, or among all where the tier was not
/// asked for.
pub open spec fn tier_share(answers: Seq<Answer>, tier: int) -> Share {
    if asked_in(answers, tier) > 0 {
        Share { hits: hits_in(answers, tier) as usize, of: asked_in(answers, tier) as usize }
    } else {
        overall(answers)
    }
}

/// How many questions were about a domain's own facts, in the middle or the tail.
pub open spec fn specific_in(answers: Seq<Answer>) -> int {
    asked_in(answers, 1) + asked_in(answers, 2)
}

/// Every answer is in one of the three tiers, and no tier has more right answers
/// than answers.
pub proof fn law_tiers_add_up(answers: Seq<Answer>)
    ensures
        asked_in(answers, 0) + asked_in(answers, 1) + asked_in(answers, 2) == answers.len(),
        0 <= hits_in(answers, 0) <= asked_in(answers, 0),
        0 <= hits_in(answers, 1) <= asked_in(answers, 1),
        0 <= hits_in(answers, 2) <= asked_in(answers, 2),
    decreases answers.len(),
{
    if answers.len() > 0 {
        law_tiers_add_up(answers.drop_last());
    }
}

/// A probe that always predicts the same shows one prediction, however many facts
/// it was asked for.
pub proof fn law_collapse_shows(answers: Seq<Answer>, always: usize)
    requires
        answers.len() > 0,
        forall|k: int| 0 <= k < answers.len() ==> (#[trigger] answers[k]).predicted == always,
    ensures
        predictions(answers).len() == 1,
    decreases answers.len(),
{
    let short = answers.drop_last();
    assert(answers[answers.len() - 1].predicted == always);
    if short.len() > 0 {
        assert forall|k: int| 0 <= k < short.len() implies (#[trigger] short[k]).predicted
            == always by {
            assert(short[k] == answers[k]);
        }
        law_collapse_shows(short, always);
        lemma_predictions(short);
        assert(predictions(short).contains(always)) by {
            assert(short[0].predicted == always);
        }
        assert(predictions(answers) =~= predictions(short));
    } else {
        assert(predictions(short) =~= Set::<usize>::empty());
    }
}

/// The predictions are those of the answers, and finitely many.
proof fn lemma_predictions(answers: Seq<Answer>)
    ensures
        predictions(answers).finite(),
        predictions(answers).len() <= answers.len(),
        forall|k: int|
            0 <= k < answers.len() ==> predictions(answers).contains(
                (#[trigger] answers[k]).predicted,
            ),
    decreases answers.len(),
{
    if answers.len() > 0 {
        let short = answers.drop_last();
        lemma_predictions(short);
        assert forall|k: int| 0 <= k < answers.len() implies predictions(answers).contains(
            (#[trigger] answers[k]).predicted,
        ) by {
            if k < short.len() {
                assert(short[k] == answers[k]);
            }
        }
    }
}

/// The counts of a probe that is under way.
pub struct ProbeTally {
    hub: Share,
    mid: Share,
    tail: Share,
    predicted: HashSet<usize>,
    log: Ghost<Seq<Answer>>,
}

impl View for ProbeTally {
    type V = Seq<Answer>;

    /// The answers so far.
    closed spec fn view(&self) -> Seq<Answer> {
        self.log@
    }
}

impl ProbeTally {
    /// The counts are those of the answers.
    pub closed spec fn wf(&self) -> bool {
        &&& self.hub.of == asked_in(self@, 0)
        &&& self.mid.of == asked_in(self@, 1)
        &&& self.tail.of == asked_in(self@, 2)
        &&& self.hub.hits == hits_in(self@, 0)
        &&& self.mid.hits == hits_in(self@, 1)
        &&& self.tail.hits == hits_in(self@, 2)
        &&& self.predicted@ == predictions(self@)
        &&& self@.len() <= usize::MAX
    }

    /// No answer yet.
    pub fn new() -> (t: Self)
        ensures
            t.wf(),
            t@ == Seq::<Answer>::empty(),
    {
        ProbeTally {
            hub: Share { hits: 0, of: 0 },
            mid: Share { hits: 0, of: 0 },
            tail: Share { hits: 0, of: 0 },
            predicted: HashSet::new(),
            log: Ghost(Seq::empty()),
        }
    }

    /// Counts an answer.
    pub fn note(&mut self, a: Answer)
        requires
            old(self).wf(),
            old(self)@.len() < usize::MAX,
        ensures
            final(self).wf(),
            final(self)@ == old(self)@.push(a),
    {
        broadcast use vstd::std_specs::hash::group_hash_axioms;

        let ghost before = self.log@;
        proof {
            law_tiers_add_up(before);
            assert(before.push(a).drop_last() =~= before);
        }
        let hit: usize = if a.correct {
            1
        } else {
            0
        };
        if a.rank_tier == 0 {
            self.hub = Share { hits: self.hub.hits + hit, of: self.hub.of + 1 };
        } else if a.rank_tier == 1 {
            self.mid = Share { hits: self.mid.hits + hit, of: self.mid.of + 1 };
        } else {
            self.tail = Share { hits: self.tail.hits + hit, of: self.tail.of + 1 };
        }
        let _ = self.predicted.insert(a.predicted);
        self.log = Ghost(before.push(a));
    }

    /// The share of right answers among all.
    pub fn overall(&self) -> (s: Share)
        requires
            self.wf(),
        ensures
            s == overall(self@),
            s.hits <= s.of,
            s.of >= 1,
    {
        proof {
            law_tiers_add_up(self@);
        }
        let n: usize = self.hub.of + self.mid.of + self.tail.of;
        Share {
            hits: self.hub.hits + self.mid.hits + self.tail.hits,
            of: if n == 0 {
                1
            } else {
                n
            },
        }
    }

    /// The share of right answers in a tier.
    pub fn tier(&self, tier: usize) -> (s: Share)
        requires
            self.wf(),
            tier < 3,
        ensures
            s == tier_share(self@, tier as int),
            s.hits <= s.of,
            s.of >= 1,
    {
        proof {
            law_tiers_add_up(self@);
        }
        let s: Share = if tier == 0 {
            self.hub
        } else if tier == 1 {
            self.mid
        } else {
            self.tail
        };
        if s.of > 0 {
            s
        } else {
            self.overall()
        }
    }

    /// How many answers were about facts that only one domain has.
    pub fn specific(&self) -> (n: usize)
        requires
            self.wf(),
        ensures
            n == specific_in(self@),
    {
        proof {
            law_tiers_add_up(self@);
        }
        self.mid.of + self.tail.of
    }

    /// How many different predictions there were.
    pub fn distinct(&self) -> (n: usize)
        requires
            self.wf(),
        ensures
            n == predictions(self@).len(),
    {
        broadcast use vstd::std_specs::hash::group_hash_axioms;

        self.predicted.len()
    }
}

/// The domain that facts are of: that of the first, or the first domain where
/// there is none.
pub fn domain_of(facts: &[RelationalFact]) -> (d: usize)
    ensures
        d == if facts@.len() == 0 {
            0
        } else {
            facts@[0].domain
        },
{
    if facts.len() == 0 {
        0
    } else {
        facts[0].domain
    }
}

/// How many lessons are given before each probe of what they recover.
pub fn budgets() -> (v: Vec<usize>)
    ensures
        v@ == seq![5usize, 10, 20, 50, 200],
{
    vec![5, 10, 20, 50, 200]
}

/// What a probe shows before it asks: the cue, then fillers that are the same in
/// every domain.
pub open spec fn episode_of(cue: usize, gap: int) -> Seq<usize> {
    seq![cue] + Seq::new(gap as nat, |i: int| (i % 8) as usize)
}

/// What a probe shows before it asks.
pub fn episode(cue: usize, gap: usize) -> (tokens: Vec<usize>)
    requires
        gap < usize::MAX,
    ensures
        tokens@ == episode_of(cue, gap as int),
{
    let mut tokens: Vec<usize> = Vec::new();
    tokens.push(cue);
    let mut i: usize = 0;
    while i < gap
        invariant
            i <= gap,
            tokens@.len() == 1 + i,
            tokens@[0] == cue,
            forall|k: int| 1 <= k <= i ==> #[trigger] tokens@[k] == (k - 1) % 8,
        decreases gap - i,
    {
        tokens.push(i % 8);
        i = i + 1;
    }
    proof {
        assert(tokens@ =~= episode_of(cue, gap as int));
    }
    tokens
}

/// Counting an answer at the end of a list.
proof fn lemma_counts(answers: Seq<Answer>, tier: int)
    requires
        0 <= tier < 3,
    ensures
        asked_in(answers, tier) == answers.filter(
            |a: Answer| a.rank_tier == tier || (tier == 2 && a.rank_tier > 2),
        ).len(),
        hits_in(answers, tier) == answers.filter(
            |a: Answer| a.correct && (a.rank_tier == tier || (tier == 2 && a.rank_tier > 2)),
        ).len(),
    decreases answers.len(),
{
    reveal(Seq::filter);
    if answers.len() > 0 {
        lemma_counts(answers.drop_last(), tier);
    }
}

/// The answers of a tier are those about facts of it, the tail taking all beyond
/// the middle, and its hits are the right ones among them.
pub proof fn law_tiers_are_those_of_the_facts(answers: Seq<Answer>, tier: int)
    requires
        0 <= tier < 3,
    ensures
        asked_in(answers, tier) == answers.filter(
            |a: Answer| a.rank_tier == tier || (tier == 2 && a.rank_tier > 2),
        ).len(),
        hits_in(answers, tier) == answers.filter(
            |a: Answer| a.correct && (a.rank_tier == tier || (tier == 2 && a.rank_tier > 2)),
        ).len(),
{
    lemma_counts(answers, tier);
}

proof fn lemma_hits(answers: Seq<Answer>)
    ensures
        hits(answers) == answers.filter(|a: Answer| a.correct).len(),
    decreases answers.len(),
{
    reveal(Seq::filter);
    if answers.len() > 0 {
        lemma_hits(answers.drop_last());
    }
}

/// The share of right answers is right answers over answers, and a tier that was
/// not asked for is told as if it had been the whole.
pub proof fn law_shares_are_right_answers(answers: Seq<Answer>, tier: int)
    requires
        0 < answers.len() <= usize::MAX,
        0 <= tier < 3,
    ensures
        overall(answers).of == answers.len(),
        overall(answers).hits == answers.filter(|a: Answer| a.correct).len(),
        overall(answers).hits <= overall(answers).of,
        tier_share(answers, tier).hits <= tier_share(answers, tier).of,
        (forall|k: int| 0 <= k < answers.len() ==> (#[trigger] answers[k]).rank_tier == tier)
            ==> tier_share(answers, tier) == overall(answers),
        asked_in(answers, tier) == 0 ==> tier_share(answers, tier) == overall(answers),
        asked_in(answers, tier) > 0 ==> tier_share(answers, tier).of == asked_in(answers, tier)
            && tier_share(answers, tier).hits == hits_in(answers, tier),
{
    lemma_hits(answers);
    law_tiers_add_up(answers);
    if forall|k: int| 0 <= k < answers.len() ==> (#[trigger] answers[k]).rank_tier == tier {
        lemma_one_tier(answers, tier);
    }
}

proof fn lemma_one_tier(answers: Seq<Answer>, tier: int)
    requires
        0 <= tier < 3,
        forall|k: int| 0 <= k < answers.len() ==> (#[trigger] answers[k]).rank_tier == tier,
    ensures
        asked_in(answers, tier) == answers.len(),
        hits_in(answers, tier) == hits(answers),
    decreases answers.len(),
{
    if answers.len() > 0 {
        let short = answers.drop_last();
        assert forall|k: int| 0 <= k < short.len() implies (#[trigger] short[k]).rank_tier
            == tier by {
            assert(short[k] == answers[k]);
        }
        lemma_one_tier(short, tier);
        assert(answers[answers.len() - 1].rank_tier == tier);
    }
}

/// What was predicted is what some answer predicted, each counted once.
pub proof fn law_predictions_are_those_made(answers: Seq<Answer>, p: usize)
    ensures
        predictions(answers).contains(p) <==> exists|k: int|
            0 <= k < answers.len() && (#[trigger] answers[k]).predicted == p,
        predictions(answers).len() <= answers.len(),
    decreases answers.len(),
{
    lemma_predictions(answers);
    if answers.len() > 0 {
        let short = answers.drop_last();
        law_predictions_are_those_made(short, p);
        if predictions(short).contains(p) {
            let k = choose|k: int| 0 <= k < short.len() && (#[trigger] short[k]).predicted == p;
            assert(answers[k].predicted == p);
        }
        if answers.last().predicted == p {
            assert(answers[answers.len() - 1].predicted == p);
        }
        if exists|k: int| 0 <= k < answers.len() && (#[trigger] answers[k]).predicted == p {
            let k = choose|k: int|
                0 <= k < answers.len() && (#[trigger] answers[k]).predicted == p;
            if k < short.len() {
                assert(short[k].predicted == p);
            }
        }
    }
}

/// An episode shows the cue once and then so many fillers, the eight smallest
/// tokens over and over.
pub proof fn law_episodes_show_cue_and_fillers(cue: usize, gap: int, i: int)
    requires
        0 <= i < gap,
    ensures
        episode_of(cue, gap).len() == gap + 1,
        episode_of(cue, gap)[0] == cue,
        i < 8 ==> episode_of(cue, gap)[i + 1] == i,
        i >= 8 ==> episode_of(cue, gap)[i + 1] == episode_of(cue, gap)[i + 1 - 8],
{
}

/// The questions about a domain's own facts are those that are not about its hubs.
pub proof fn law_specific_questions_are_off_the_hubs(answers: Seq<Answer>)
    ensures
        specific_in(answers) == answers.filter(|a: Answer| a.rank_tier != 0).len(),
        specific_in(answers) + answers.filter(|a: Answer| a.rank_tier == 0).len() == answers.len(),
    decreases answers.len(),
{
    reveal(Seq::filter);
    if answers.len() > 0 {
        law_specific_questions_are_off_the_hubs(answers.drop_last());
    }
}

} // verus!
