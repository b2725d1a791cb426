//! Which domains are probed and taught when.

use vstd::prelude::*;

use crate::sdr::tally::episode_of;

verus! {

/// The horizons that a mixed probe goes through.
pub open spec fn horizon(k: int) -> int {
    if k % 4 == 0 {
        1
    } else if k % 4 == 1 {
        16
    } else if k % 4 == 2 {
        64
    } else {
        256
    }
}

/// When domains come and go, and how far apart the cue and the question are.
#[derive(Clone, Copy, Debug)]
pub struct Schedule {
    /// How often the domains are gone through.
    pub rounds: usize,
    /// How many domains there are.
    pub domains: usize,
    /// Rounds between one domain's coming and the next one's; all are there from
    /// the start if zero.
    pub arrival: usize,
    /// The round after which the second half of the domains takes over from the
    /// first; never if zero.
    pub retire_after: usize,
    /// Tokens between the cue and the question; no cue if zero.
    pub gap: usize,
    /// Whether the probe goes through several horizons.
    pub mix: bool,
}

/// How a domain is probed before it is taught.
#[derive(Clone, Copy, Debug, PartialEq, Eq, Structural)]
pub enum Probe {
    /// Its facts as they are, and again after a few lessons.
    FewShot {
        /// What is added to the seed of the lessons.
        salt: usize,
    },
    /// Its facts after the cue and some fillers.
    Episode {
        /// How many fillers.
        gap: usize,
    },
    /// Its facts as they are.
    Frozen,
}

/// What happens to a domain in a round.
#[derive(Clone, Copy, Debug, PartialEq, Eq, Structural)]
pub struct Visit {
    /// The round, from one.
    pub round: usize,
    /// The domain.
    pub domain: usize,
    /// Whether the domain was left in a context that can be put back.
    pub restore: bool,
    /// How it is probed first.
    pub probe: Probe,
    /// Whether the probe leaves the context that the stream is in, which is then
    /// owed back before anything else happens.
    pub displaces: bool,
    /// Whether its cue opens the visit.
    pub cue: bool,
    /// Whether it is taught.
    pub train: bool,
}

impl Schedule {
    /// Whether a domain is taught in a round.
    pub open spec fn teaches(&self, r: int, d: int) -> bool {
        &&& self.arrival == 0 || r >= 1 + d * self.arrival
        &&& self.retire_after == 0 || (r <= self.retire_after <==> d < self.domains as int / 2)
    }

    /// Whether a domain was taught before a round.
    pub open spec fn taught_before(&self, r: int, d: int) -> bool {
        exists|q: int| 1 <= q < r && #[trigger] self.teaches(q, d)
    }

    /// How a domain is probed in a round.
    pub open spec fn probe_at(&self, r: int, d: int) -> Probe {
        let gap = if self.mix {
            horizon(r + d)
        } else {
            self.gap as int
        };
        if r == self.rounds {
            Probe::FewShot { salt: (r * 100 + d) as usize }
        } else if gap > 0 {
            Probe::Episode { gap: gap as usize }
        } else {
            Probe::Frozen
        }
    }

    /// What happens to a domain in a round.
    pub open spec fn visit_at(&self, r: int, d: int) -> Visit {
        Visit {
            round: r as usize,
            domain: d as usize,
            restore: self.taught_before(r, d),
            probe: self.probe_at(r, d),
            displaces: self.taught_before(r, d) || self.probe_at(r, d) is Episode,
            cue: self.gap > 0 && self.teaches(r, d),
            train: self.teaches(r, d),
        }
    }

    /// The visits one after another: every round goes through all domains.
    pub open spec fn nth_visit(&self, k: int) -> Visit {
        self.visit_at(k / (self.domains as int) + 1, k % (self.domains as int))
    }

    /// There is something to do, and it can be counted.
    pub open spec fn wf(&self) -> bool {
        &&& self.rounds >= 1
        &&& self.domains >= 1
        &&& self.rounds * 100 + self.domains <= usize::MAX
        &&& self.rounds * self.domains <= usize::MAX
    }

    /// Whether a domain is taught in a round.
    pub fn trains(&self, r: usize, d: usize) -> (b: bool)
        ensures
            b == self.teaches(r as int, d as int),
    {
        proof {
            let m = 0xffff_ffff_ffff_ffffint;
            assert(0 <= d * self.arrival <= m * m) by (nonlinear_arith)
                requires
                    0 <= d <= m,
                    0 <= self.arrival <= m,
            ;
        }
        if self.arrival > 0 && (r as u128) < 1 + d as u128 * self.arrival as u128 {
            return false;
        }
        if self.retire_after == 0 {
            return true;
        }
        let half: usize = self.domains / 2;
        if r <= self.retire_after {
            d < half
        } else {
            d >= half
        }
    }

    /// How a domain is probed in a round.
    fn probe(&self, r: usize, d: usize) -> (p: Probe)
        requires
            self.wf(),
            1 <= r <= self.rounds,
            d < self.domains,
        ensures
            p == self.probe_at(r as int, d as int),
    {
        if r == self.rounds {
            return Probe::FewShot { salt: r * 100 + d };
        }
        let gap: usize = if self.mix {
            let k: usize = (r + d) % 4;
            if k == 0 {
                1
            } else if k == 1 {
                16
            } else if k == 2 {
                64
            } else {
                256
            }
        } else {
            self.gap
        };
        if gap > 0 {
            Probe::Episode { gap }
        } else {
            Probe::Frozen
        }
    }
}

/// The visits of a trial, one after another.
#[derive(Debug)]
pub struct Trial {
    schedule: Schedule,
    round: usize,
    domain: usize,
    taught: Vec<bool>,
}

impl Trial {
    /// When domains come and go.
    pub closed spec fn plan(&self) -> Schedule {
        self.schedule
    }

    /// How many visits have been made.
    pub closed spec fn made(&self) -> int {
        (self.round - 1) * self.schedule.domains + self.domain
    }

    /// It is known which domains were taught.
    pub closed spec fn wf(&self) -> bool {
        &&& self.schedule.wf()
        &&& 1 <= self.round <= self.schedule.rounds + 1
        &&& self.domain < self.schedule.domains
        &&& self.round == self.schedule.rounds + 1 ==> self.domain == 0
        &&& self.round <= usize::MAX
        &&& self.taught@.len() == self.schedule.domains
        &&& forall|d: int|
            0 <= d < self.schedule.domains ==> #[trigger] self.taught@[d]
                == self.schedule.taught_before(
                self.round + if d < self.domain {
                    1int
                } else {
                    0
                },
                d,
            )
    }

    /// No visit made yet.
    pub fn new(schedule: Schedule) -> (t: Self)
        requires
            schedule.wf(),
        ensures
            t.wf(),
            t.plan() == schedule,
            t.made() == 0,
    {
        let taught: Vec<bool> = vec![false; schedule.domains];
        assert(0 * schedule.domains == 0);
        Trial { schedule, round: 1, domain: 0, taught }
    }

    /// The next visit: every round goes through all domains in order.
    pub fn next(&mut self) -> (v: Option<Visit>)
        requires
            old(self).wf(),
        ensures
            final(self).wf(),
            final(self).plan() == old(self).plan(),
            v is Some <==> old(self).made() < old(self).plan().rounds * old(self).plan().domains,
            v is Some ==> {
                &&& final(self).made() == old(self).made() + 1
                &&& v->0 == old(self).plan().nth_visit(old(self).made())
            },
            v is None ==> final(self).made() == old(self).made(),
    {
        let ghost n = self.schedule.domains as int;
        let r: usize = self.round;
        let d: usize = self.domain;
        let ghost was = self.taught@;
        proof {
            assert(r - 1 < self.schedule.rounds ==> (r - 1) * n + n <= self.schedule.rounds * n)
                by (nonlinear_arith)
                requires
                    n >= 1,
            ;
            vstd::arithmetic::div_mod::lemma_fundamental_div_mod_converse(
                (r - 1) * n + d,
                n,
                r - 1,
                d as int,
            );
        }
        if r > self.schedule.rounds {
            proof {
                assert(self.schedule.rounds + 1 == r);
            }
            return None;
        }
        let train: bool = self.schedule.trains(r, d);
        let probe: Probe = self.schedule.probe(r, d);
        let episode: bool = match probe {
            Probe::Episode { .. } => true,
            _ => false,
        };
        let visit: Visit = Visit {
            round: r,
            domain: d,
            restore: self.taught[d],
            probe,
            displaces: self.taught[d] || episode,
            cue: self.schedule.gap > 0 && train,
            train,
        };
        if train {
            self.taught.set(d, true);
        }
        proof {
            lemma_taught_next(self.schedule, r as int, d as int);
            assert(r * n == (r - 1) * n + n) by (nonlinear_arith);
        }
        if d + 1 == self.schedule.domains {
            self.round = r + 1;
            self.domain = 0;
        } else {
            self.domain = d + 1;
        }
        proof {
            assert forall|e: int| 0 <= e < self.schedule.domains implies #[trigger] self.taught@[e]
                == self.schedule.taught_before(
                self.round + if e < self.domain {
                    1int
                } else {
                    0
                },
                e,
            ) by {
                assert(was[e] == self.schedule.taught_before(
                    r + if e < d {
                        1int
                    } else {
                        0
                    },
                    e,
                ));
            }
        }
        Some(visit)
    }
}

impl Visit {
    /// The context that the probe asks in: what the cue and the fillers lead to
    /// from nothing, the one the domain was left in, or, where there is neither,
    /// the one that the stream is in.
    pub open spec fn asks_in<S>(&self, natural: S, own: S, episode: S) -> S {
        if self.probe is Episode {
            episode
        } else if self.restore {
            own
        } else {
            natural
        }
    }

    /// The context after the probe, where what it displaced was put back.
    pub open spec fn goes_on_in<S>(&self, natural: S, own: S, episode: S) -> S {
        if self.displaces {
            natural
        } else {
            self.asks_in(natural, own, episode)
        }
    }
}

/// A probe observes a run and does not steer it: with what it displaced put back,
/// and nothing else, every visit goes on from where the stream had come to. A
/// visit that displaces nothing asks in that very context.
pub proof fn law_probes_do_not_steer<S>(
    s: Schedule,
    r: int,
    d: int,
    natural: S,
    own: S,
    episode: S,
)
    ensures
        s.visit_at(r, d).goes_on_in(natural, own, episode) == natural,
        !s.visit_at(r, d).displaces ==> s.visit_at(r, d).asks_in(natural, own, episode) == natural,
        s.visit_at(r, d).displaces <==> s.visit_at(r, d).restore || s.visit_at(
            r,
            d,
        ).probe is Episode,
{
}

/// The context that tokens lead to from nothing.
pub open spec fn rebuilt<S>(blank: S, step: spec_fn(S, usize) -> S, tokens: Seq<usize>) -> S {
    tokens.fold_left(blank, step)
}

/// An episode lets nothing leak into the score: what is asked after it, and so
/// whatever is computed of the answers, is the same whatever context the stream
/// was in and whatever context the domain was left in. Of the domain it shows the
/// cue alone; the fillers are the same for all.
pub proof fn law_episodes_forget_the_context<S, R>(
    v: Visit,
    gap: usize,
    cue: usize,
    other_cue: usize,
    blank: S,
    step: spec_fn(S, usize) -> S,
    score: spec_fn(S) -> R,
    natural_a: S,
    own_a: S,
    natural_b: S,
    own_b: S,
)
    requires
        v.probe == (Probe::Episode { gap }),
    ensures
        ({
            let shown = rebuilt(blank, step, episode_of(cue, gap as int));
            &&& v.asks_in(natural_a, own_a, shown) == shown
            &&& score(v.asks_in(natural_a, own_a, shown)) == score(
                v.asks_in(natural_b, own_b, shown),
            )
        }),
        episode_of(cue, gap as int)[0] == cue,
        episode_of(cue, gap as int).drop_first() == episode_of(other_cue, gap as int).drop_first(),
{
    assert(episode_of(cue, gap as int).drop_first() =~= episode_of(
        other_cue,
        gap as int,
    ).drop_first());
}

/// A domain was taught before the next round if it was before this one or is in
/// it.
proof fn lemma_taught_next(s: Schedule, r: int, d: int)
    requires
        1 <= r,
    ensures
        s.taught_before(r + 1, d) == (s.taught_before(r, d) || s.teaches(r, d)),
{
    if s.taught_before(r, d) {
        let q = choose|q: int| 1 <= q < r && #[trigger] s.teaches(q, d);
        assert(1 <= q < r + 1 && s.teaches(q, d));
    }
    if s.taught_before(r + 1, d) {
        let q = choose|q: int| 1 <= q < r + 1 && #[trigger] s.teaches(q, d);
        if q < r {
            assert(s.taught_before(r, d));
        }
    }
}

/// Without arrivals and retirement every domain is taught in every round.
pub proof fn law_all_are_taught(s: Schedule, r: int, d: int)
    requires
        s.arrival == 0,
        s.retire_after == 0,
    ensures
        s.teaches(r, d),
{
}

/// With retirement the two halves of the domains are never taught in the same
/// round.
pub proof fn law_halves_take_turns(s: Schedule, r: int, a: int, b: int)
    requires
        s.retire_after > 0,
        0 <= a < s.domains as int / 2 <= b < s.domains,
    ensures
        !(s.teaches(r, a) && s.teaches(r, b)),
{
}

/// With arrivals a domain that has come stays, and the ones before it have come
/// too.
pub proof fn law_domains_arrive_in_order(s: Schedule, r: int, d: int, q: int, e: int)
    requires
        s.arrival > 0,
        s.retire_after == 0,
        0 <= e <= d,
        r <= q,
        s.teaches(r, d),
    ensures
        s.teaches(q, d),
        s.teaches(r, e),
{
    assert(e * s.arrival <= d * s.arrival) by (nonlinear_arith)
        requires
            0 <= e <= d,
            s.arrival > 0,
    ;
}

/// With arrivals the first domain is there from the first round on, and each next
/// one comes exactly so many rounds after the one before: not in any round
/// earlier, and in every one from then on.
pub proof fn law_domains_arrive_at_intervals(s: Schedule, r: int, d: int)
    requires
        s.arrival > 0,
        s.retire_after == 0,
        0 <= d,
    ensures
        s.teaches(r, 0) <==> r >= 1,
        s.teaches(r + s.arrival, d + 1) <==> s.teaches(r, d),
        r < 1 + d * s.arrival ==> !s.teaches(r, d),
        s.teaches(1 + d * s.arrival, d),
        r >= 1 + d * s.arrival ==> s.teaches(r, d),
{
    assert((d + 1) * s.arrival == d * s.arrival + s.arrival && 0 * s.arrival == 0)
        by (nonlinear_arith);
}

/// With retirement the domains are taught half and half: the first half up to the
/// round in which it retires, the other half from the next round on. A domain is
/// in the first half where it and those before it are no more than half of all.
pub proof fn law_the_first_half_retires(s: Schedule, r: int, d: int)
    requires
        s.arrival == 0,
        s.retire_after > 0,
        0 <= d < s.domains,
    ensures
        r <= s.retire_after ==> (s.teaches(r, d) <==> 2 * (d + 1) <= s.domains),
        r > s.retire_after ==> (s.teaches(r, d) <==> 2 * (d + 1) > s.domains),
{
}

/// Both at once: a domain is taught where it has arrived and its half has its
/// turn.
pub proof fn law_arrivals_and_retirement_agree(s: Schedule, r: int, d: int)
    ensures
        s.teaches(r, d) <==> (Schedule { retire_after: 0, ..s }).teaches(r, d) && (Schedule {
            arrival: 0,
            ..s
        }).teaches(r, d),
{
}

/// How a domain is probed: with a few lessons in the last round and nowhere else,
/// every domain by lessons of its own; in the other rounds after the cue and as
/// many fillers as the schedule asks for, or as it is where it asks for none. The
/// cue opens the visits in which a domain is taught, where there is a cue at all.
pub proof fn law_visits_follow_the_schedule(s: Schedule, r: int, d: int, e: int)
    requires
        s.wf(),
        1 <= r <= s.rounds,
        0 <= d < s.domains,
        0 <= e < s.domains,
        d != e,
    ensures
        s.visit_at(r, d).round == r,
        s.visit_at(r, d).domain == d,
        s.visit_at(r, d).probe is FewShot <==> r == s.rounds,
        r == s.rounds ==> s.visit_at(r, d).probe != s.visit_at(r, e).probe,
        r == s.rounds ==> s.visit_at(r, d).probe == (Probe::FewShot {
            salt: (100 * s.rounds + d) as usize,
        }),
        r < s.rounds && !s.mix && s.gap > 0 ==> s.visit_at(r, d).probe == (Probe::Episode {
            gap: s.gap,
        }),
        r < s.rounds && !s.mix && s.gap == 0 ==> s.visit_at(r, d).probe == Probe::Frozen,
        r < s.rounds && s.mix ==> s.visit_at(r, d).probe is Episode,
        s.visit_at(r, d).train == s.teaches(r, d),
        s.visit_at(r, d).cue <==> s.visit_at(r, d).train && s.gap > 0,
        s.visit_at(1, d).restore == false,
        s.visit_at(r, d).restore || s.visit_at(r, d).train <==> s.visit_at(r + 1, d).restore,
{
    lemma_taught_next(s, r, d);
}

/// Mixed horizons: in any four rounds before the last a domain is probed at all
/// four.
pub proof fn law_horizons_are_mixed(s: Schedule, r: int, d: int, h: int)
    requires
        s.mix,
        1 <= r,
        r + 3 < s.rounds,
        0 <= d,
        h == 1 || h == 16 || h == 64 || h == 256,
    ensures
        exists|k: int|
            0 <= k < 4 && #[trigger] s.probe_at(r + k, d) == (Probe::Episode { gap: h as usize }),
{
    assert(s.probe_at(r + 0, d) == (Probe::Episode { gap: horizon(r + d) as usize }));
    assert(s.probe_at(r + 1, d) == (Probe::Episode { gap: horizon(r + 1 + d) as usize }));
    assert(s.probe_at(r + 2, d) == (Probe::Episode { gap: horizon(r + 2 + d) as usize }));
    assert(s.probe_at(r + 3, d) == (Probe::Episode { gap: horizon(r + 3 + d) as usize }));
}

/// A point in a domain's walk where the first domain is probed.
#[derive(Clone, Copy, Debug, PartialEq, Eq, Structural)]
pub struct Reading {
    /// How many facts of the walk have been shown.
    pub after: usize,
    /// How many tokens went by since the first domain was last taught.
    pub delay: usize,
}

/// The facts of the domains after the first, up to but not including one.
pub open spec fn between(lens: Seq<usize>, d: int) -> int
    decreases d,
{
    if d <= 1 {
        0
    } else {
        between(lens, d - 1) + lens[d - 1]
    }
}

/// How much of a walk `k` quarters of it are.
#[verifier::opaque]
pub open spec fn quarter(len: int, k: int) -> int {
    len * k / 4
}

/// The quarters of a walk, without those that are before its first fact or fall
/// together.
pub open spec fn quarters(len: int, k: int) -> Seq<int>
    decreases k,
{
    if k <= 0 {
        Seq::empty()
    } else {
        let rest = quarters(len, k - 1);
        let point = quarter(len, k);
        if point > 0 && point != quarter(len, k - 1) {
            rest.push(point)
        } else {
            rest
        }
    }
}

/// Where in a domain's walk the first domain is probed: at the end of its own
/// walk, and at the quarters of every other.
pub open spec fn readings_of(lens: Seq<usize>, d: int) -> Seq<Reading> {
    if d == 0 {
        if lens[0] > 0 {
            seq![Reading { after: lens[0], delay: 0 }]
        } else {
            Seq::empty()
        }
    } else {
        quarters(lens[d] as int, 4).map_values(
            |p: int|
                Reading { after: p as usize, delay: (3 * (between(lens, d) + p)) as usize },
        )
    }
}

/// Where in a domain's walk the first domain is probed. A fact is three tokens;
/// the delay is counted from the end of the first domain's walk.
pub fn readings(lens: &[usize], d: usize) -> (out: Vec<Reading>)
    requires
        d < lens@.len(),
        3 * (between(lens@, d as int) + lens@[d as int]) <= usize::MAX,
    ensures
        out@ == readings_of(lens@, d as int),
{
    let len: usize = lens[d];
    let mut out: Vec<Reading> = Vec::new();
    if d == 0 {
        if len > 0 {
            out.push(Reading { after: len, delay: 0 });
        }
        proof {
            assert(out@ =~= readings_of(lens@, 0));
        }
        return out;
    }
    let mut sum: usize = 0;
    let mut e: usize = 1;
    while e < d
        invariant
            1 <= e <= d,
            d < lens@.len(),
            3 * (between(lens@, d as int) + lens@[d as int]) <= usize::MAX,
            sum == between(lens@, e as int),
        decreases d - e,
    {
        proof {
            lemma_between_grows(lens@, e + 1, d as int);
        }
        sum = sum + lens[e];
        e = e + 1;
    }
    let ghost f = |p: int|
        Reading { after: p as usize, delay: (3 * (between(lens@, d as int) + p)) as usize };
    let mut k: usize = 0;
    let mut last: usize = 0;
    proof {
        lemma_quarter(len as int, 0);
        assert(out@ =~= quarters(len as int, 0).map_values(f));
    }
    while k < 4
        invariant
            k <= 4,
            len == lens@[d as int],
            sum == between(lens@, d as int),
            3 * (sum + len) <= usize::MAX,
            last == quarter(len as int, k as int),
            f == (|p: int|
                Reading { after: p as usize, delay: (3 * (between(lens@, d as int) + p)) as usize }),
            out@ == quarters(len as int, k as int).map_values(f),
        decreases 4 - k,
    {
        k = k + 1;
        proof {
            lemma_quarter(len as int, k as int);
        }
        let point: usize = (len as u128 * k as u128 / 4) as usize;
        if point > 0 && point != last {
            out.push(Reading { after: point, delay: 3 * (sum + point) });
        }
        proof {
            assert(out@ =~= quarters(len as int, k as int).map_values(f));
        }
        last = point;
    }
    out
}

proof fn lemma_between_grows(lens: Seq<usize>, a: int, b: int)
    requires
        1 <= a <= b <= lens.len(),
    ensures
        0 <= between(lens, a) <= between(lens, b),
    decreases b,
{
    if b > a {
        lemma_between_grows(lens, a, b - 1);
    } else if a > 1 {
        lemma_between_grows(lens, a - 1, a - 1);
    }
}

/// What a quarter comes to: no quarters are nothing, four are everything, and one
/// more is no less.
#[verifier::spinoff_prover]
proof fn lemma_quarter(len: int, k: int)
    requires
        0 <= len,
        0 <= k <= 4,
    ensures
        quarter(len, k) == len * k / 4,
        0 <= len * k <= len * 4,
        0 <= quarter(len, k) <= len,
        k > 0 ==> quarter(len, k - 1) <= quarter(len, k),
        quarter(len, 0) == 0,
        quarter(len, 4) == len,
{
    reveal(quarter);
    assert(0 <= len * k <= len * 4 && len * (k - 1) <= len * k) by (nonlinear_arith)
        requires
            0 <= len,
            0 <= k <= 4,
    ;
    assert(len * 0 == 0) by (nonlinear_arith);
}

/// The points are in order, and the last is the end of the walk.
#[verifier::spinoff_prover]
proof fn lemma_quarters(len: int, k: int)
    requires
        0 <= len,
        0 <= k <= 4,
    ensures
        forall|i: int|
            0 <= i < quarters(len, k).len() ==> 0 < #[trigger] quarters(len, k)[i] <= quarter(
                len,
                k,
            ),
        forall|i: int, j: int|
            0 <= i < j < quarters(len, k).len() ==> quarters(len, k)[i] < quarters(len, k)[j],
        quarter(len, k) > 0 ==> quarters(len, k).len() > 0 && quarters(len, k).last() == quarter(
            len,
            k,
        ),
    decreases k,
{
    lemma_quarter(len, k);
    if k > 0 {
        lemma_quarters(len, k - 1);
        let rest = quarters(len, k - 1);
        let all = quarters(len, k);
        let point = quarter(len, k);
        if point > 0 && point != quarter(len, k - 1) {
            assert(all == rest.push(point));
            assert forall|i: int, j: int| 0 <= i < j < all.len() implies all[i] < all[j] by {
                assert(all[i] == rest[i]);
                assert(0 < rest[i] <= quarter(len, k - 1));
                if j < rest.len() {
                    assert(all[j] == rest[j]);
                }
            }
            assert forall|i: int| 0 <= i < all.len() implies 0 < #[trigger] all[i] <= point by {
                if i < rest.len() {
                    assert(all[i] == rest[i]);
                }
            }
        } else {
            assert(all == rest);
        }
    }
}

/// Every walk that shows anything is followed by a probe.
pub proof fn law_walks_end_in_a_probe(lens: Seq<usize>, d: int)
    requires
        0 <= d < lens.len(),
        lens[d] > 0,
        3 * (between(lens, d) + lens[d]) <= usize::MAX,
    ensures
        readings_of(lens, d).len() > 0,
        readings_of(lens, d).last().after == lens[d],
        readings_of(lens, d).last().delay == if d == 0 {
            0
        } else {
            3 * (between(lens, d) + lens[d])
        },
{
    if d > 0 {
        lemma_quarter(lens[d] as int, 4);
        lemma_quarters(lens[d] as int, 4);
        lemma_between_grows(lens, 1, d);
    }
}

/// Within a round the delay only grows.
pub proof fn law_delays_grow(lens: Seq<usize>, d: int, i: int, j: int)
    requires
        1 <= d < lens.len(),
        lens[d] > 0,
        3 * (between(lens, d) + lens[d]) <= usize::MAX,
        0 <= i < j < readings_of(lens, d).len(),
    ensures
        readings_of(lens, d)[i].after < readings_of(lens, d)[j].after,
        readings_of(lens, d)[i].delay < readings_of(lens, d)[j].delay,
        readings_of(lens, d)[i].delay > 3 * between(lens, d),
{
    lemma_quarter(lens[d] as int, 4);
    lemma_quarters(lens[d] as int, 4);
    lemma_between_grows(lens, 1, d);
    let q = quarters(lens[d] as int, 4);
    assert(q[i] < q[j]);
    assert(q[j] <= lens[d]);
    assert(readings_of(lens, d)[i].after == q[i]);
    assert(readings_of(lens, d)[j].after == q[j]);
}

/// Whether a reading is the first of a round.
pub open spec fn is_first(rounds: Seq<usize>, r: usize, i: int) -> bool {
    &&& 0 <= i < rounds.len()
    &&& rounds[i] == r
    &&& forall|j: int| 0 <= j < i ==> rounds[j] != r
}

/// Whether a reading is the last of those with the longest delay in a round.
pub open spec fn is_longest(rounds: Seq<usize>, delays: Seq<usize>, r: usize, i: int) -> bool {
    &&& 0 <= i < rounds.len()
    &&& rounds[i] == r
    &&& forall|j: int| 0 <= j < i && rounds[j] == r ==> delays[j] <= delays[i]
    &&& forall|j: int| i < j < rounds.len() && rounds[j] == r ==> delays[j] < delays[i]
}

/// The two readings that a round's forgetting is told from: its first, and the
/// one after the longest delay. None where the round has no reading.
pub fn round_ends(rounds: &[usize], delays: &[usize], r: usize) -> (ends: Option<(usize, usize)>)
    requires
        delays@.len() == rounds@.len(),
    ensures
        match ends {
            Some(e) => is_first(rounds@, r, e.0 as int) && is_longest(
                rounds@,
                delays@,
                r,
                e.1 as int,
            ),
            None => !rounds@.contains(r),
        },
{
    let mut ends: Option<(usize, usize)> = None;
    let mut i: usize = 0;
    while i < rounds.len()
        invariant
            delays@.len() == rounds@.len(),
            i <= rounds@.len(),
            match ends {
                Some(e) => is_first(rounds@, r, e.0 as int) && is_longest(
                    rounds@.take(i as int),
                    delays@,
                    r,
                    e.1 as int,
                ),
                None => forall|j: int| 0 <= j < i ==> rounds@[j] != r,
            },
        decreases rounds@.len() - i,
    {
        if rounds[i] == r {
            ends =
            match ends {
                None => Some((i, i)),
                Some(e) => if delays[i] >= delays[e.1] {
                    Some((e.0, i))
                } else {
                    Some(e)
                },
            };
        }
        i = i + 1;
    }
    proof {
        assert(rounds@.take(i as int) =~= rounds@);
    }
    ends
}

/// What a summary says of an arm.
pub fn status(at_edge: bool, zero_won: bool, penalty: bool, locked: bool) -> (s: &'static str)
    ensures
        s@ == if at_edge {
            "WARN: eta boundary"@
        } else if zero_won && penalty {
            "WARN: lambda=0 won"@
        } else if locked {
            "ALERT: Intransigence"@
        } else {
            "OK"@
        },
{
    if at_edge {
        "WARN: eta boundary"
    } else if zero_won && penalty {
        "WARN: lambda=0 won"
    } else if locked {
        "ALERT: Intransigence"
    } else {
        "OK"
    }
}

/// The first visit is to the first domain in the first round; after each comes the
/// next domain, and after the last domain the next round.
pub proof fn law_rounds_go_through_all_domains(s: Schedule, k: int)
    requires
        s.wf(),
        0 <= k,
        k + 1 < s.rounds * s.domains,
    ensures
        s.nth_visit(0).round == 1,
        s.nth_visit(0).domain == 0,
        s.nth_visit(k).domain + 1 < s.domains ==> s.nth_visit(k + 1).round == s.nth_visit(k).round
            && s.nth_visit(k + 1).domain == s.nth_visit(k).domain + 1,
        s.nth_visit(k).domain + 1 == s.domains ==> s.nth_visit(k + 1).round == s.nth_visit(k).round
            + 1 && s.nth_visit(k + 1).domain == 0,
        s.nth_visit(k).domain < s.domains,
        s.nth_visit(k) == s.visit_at(
            s.nth_visit(k).round as int,
            s.nth_visit(k).domain as int,
        ),
{
    let n = s.domains as int;
    let (q, d) = (k / n, k % n);
    vstd::arithmetic::div_mod::lemma_fundamental_div_mod(k, n);
    vstd::arithmetic::div_mod::lemma_mod_pos_bound(k, n);
    vstd::arithmetic::div_mod::lemma_div_pos_is_pos(k, n);
    vstd::arithmetic::div_mod::lemma_div_basics(n);
    vstd::arithmetic::div_mod::lemma_small_mod(0, n as nat);
    assert(n * q == q * n && (q + 1) * n == q * n + n) by (nonlinear_arith);
    assert(q < s.rounds) by (nonlinear_arith)
        requires
            q * n <= k,
            k < s.rounds * n,
            n >= 1,
    ;
    if d + 1 < n {
        vstd::arithmetic::div_mod::lemma_fundamental_div_mod_converse(k + 1, n, q, d + 1);
    } else {
        vstd::arithmetic::div_mod::lemma_fundamental_div_mod_converse(k + 1, n, q + 1, 0);
    }
}

/// A walk of four facts or more is read four times, at its quarters: where so many
/// quarters of it, rounded down, have been shown.
pub proof fn law_walks_are_read_at_their_quarters(lens: Seq<usize>, d: int, k: int)
    requires
        1 <= d < lens.len(),
        4 <= lens[d],
        3 * (between(lens, d) + lens[d]) <= usize::MAX,
        0 <= k < 4,
    ensures
        readings_of(lens, d).len() == 4,
        4 * readings_of(lens, d)[k].after <= (k + 1) * lens[d],
        (k + 1) * lens[d] < 4 * readings_of(lens, d)[k].after + 4,
{
    let len = lens[d] as int;
    lemma_between_grows(lens, 1, d);
    lemma_quarter(len, 0);
    lemma_quarter(len, 1);
    lemma_quarter(len, 2);
    lemma_quarter(len, 3);
    lemma_quarter(len, 4);
    assert(len * 1 == len && len * 2 == 2 * len && len * 3 == 3 * len && len * 4 == 4 * len)
        by (nonlinear_arith);
    reveal_with_fuel(quarters, 5);
    let q = quarters(len, 4);
    assert(q =~= seq![quarter(len, 1), quarter(len, 2), quarter(len, 3), quarter(len, 4)]);
    assert(readings_of(lens, d)[k].after == q[k]);
    assert((k + 1) * len == len * (k + 1)) by (nonlinear_arith);
}

/// The delay of a reading is counted in tokens, three for each fact, from the end
/// of the first domain's walk: it grows by the facts between two readings of a
/// walk, and goes on from the end of one walk into the next.
pub proof fn law_delays_count_tokens(lens: Seq<usize>, d: int, i: int, j: int)
    requires
        1 <= d < lens.len(),
        3 * (between(lens, d) + lens[d]) <= usize::MAX,
        0 <= i <= j < readings_of(lens, d).len(),
    ensures
        readings_of(lens, d)[j].delay - readings_of(lens, d)[i].delay == 3 * (readings_of(
            lens,
            d,
        )[j].after - readings_of(lens, d)[i].after),
        d == 1 ==> readings_of(lens, d)[i].delay == 3 * readings_of(lens, d)[i].after,
        d > 1 && lens[d - 1] > 0 ==> readings_of(lens, d)[i].delay == readings_of(
            lens,
            d - 1,
        ).last().delay + 3 * readings_of(lens, d)[i].after,
{
    let len = lens[d] as int;
    lemma_between_grows(lens, 1, d);
    lemma_quarter(len, 4);
    lemma_quarters(len, 4);
    let q = quarters(len, 4);
    assert(0 < q[i] <= len && 0 < q[j] <= len);
    if d > 1 && lens[d - 1] > 0 {
        lemma_between_grows(lens, d - 1, d);
        law_walks_end_in_a_probe(lens, d - 1);
    }
}

/// Mixed horizons rise from one round to the next, and from one domain to the
/// next, until the longest is followed by the shortest.
pub proof fn law_horizons_rise(s: Schedule, r: int, d: int)
    requires
        s.mix,
        1 <= r,
        r + 1 < s.rounds,
        0 <= d,
    ensures
        s.probe_at(r, d) is Episode,
        s.probe_at(r + 1, d) == s.probe_at(r, d + 1),
        s.probe_at(r, d + 4) == s.probe_at(r, d),
        (r + d) % 4 == 0 ==> s.probe_at(r, d) == (Probe::Episode { gap: 1 }),
        s.probe_at(r, d)->gap == 256 <==> s.probe_at(r, d + 1)->gap == 1,
        s.probe_at(r, d)->gap != 256 ==> s.probe_at(r, d + 1)->gap >= 4 * s.probe_at(r, d)->gap,
        s.probe_at(r, d)->gap == 1 ==> s.probe_at(r, d + 1)->gap == 16,
{
}

/// The first domain is read once, when it has been shown, and then there is no
/// delay.
pub proof fn law_the_first_domain_is_read_once(lens: Seq<usize>)
    requires
        lens.len() > 0,
    ensures
        lens[0] > 0 ==> readings_of(lens, 0).len() == 1 && readings_of(lens, 0)[0].after == lens[0]
            && readings_of(lens, 0)[0].delay == 0,
        lens[0] == 0 ==> readings_of(lens, 0).len() == 0,
{
}

/// The ends of a round are its first reading and the one with the longest delay,
/// the later of two that are equally long.
pub proof fn law_rounds_end_at_the_longest_delay(
    rounds: Seq<usize>,
    delays: Seq<usize>,
    r: usize,
    a: int,
    b: int,
    k: int,
)
    requires
        is_first(rounds, r, a),
        is_longest(rounds, delays, r, b),
        0 <= k < rounds.len(),
        rounds[k] == r,
    ensures
        a <= k,
        rounds[a] == r,
        rounds[b] == r,
        delays[k] <= delays[b],
        delays[k] == delays[b] ==> k <= b,
{
}

} // verus!
