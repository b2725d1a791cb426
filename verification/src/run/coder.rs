//! Counting coders: the yardsticks that the bench is read against.

use crate::run::markov::{power, shifted};
use vstd::arithmetic::power::pow;
use vstd::prelude::*;

verus! {

/// A probability as a ratio of whole numbers.
#[derive(Clone, Copy, Debug, PartialEq, Eq, Structural)]
pub struct Odds {
    pub num: u64,
    pub den: u64,
}

/// The sum of the `n` counts from `from` on.
pub open spec fn run_sum(counts: Seq<u64>, from: int, n: int) -> int
    decreases n,
{
    if n <= 0 {
        0
    } else {
        run_sum(counts, from, n - 1) + counts[from + n - 1]
    }
}

/// Half a count on top of each, doubled: the share of one of `vocab` tokens
/// that was counted `c` times among `t`.
pub open spec fn smoothed(c: int, t: int, vocab: int) -> (int, int) {
    (2 * c + 1, 2 * t + vocab)
}

/// Counts of what followed each context.
pub struct CountTable {
    vocab: usize,
    counts: Vec<u64>,
    totals: Vec<u64>,
}

impl CountTable {
    /// How many tokens there are.
    pub closed spec fn alphabet(&self) -> int {
        self.vocab as int
    }

    /// How many contexts there are.
    pub closed spec fn contexts(&self) -> int {
        self.totals@.len() as int
    }

    /// How often a token followed a context.
    pub closed spec fn followed(&self, c: int, n: int) -> int {
        self.counts@[c * self.vocab + n] as int
    }

    /// How often a context was followed by anything.
    pub closed spec fn total(&self, c: int) -> int {
        self.totals@[c] as int
    }

    /// The totals are the sums of the counts.
    pub closed spec fn wf(&self) -> bool {
        &&& self.vocab > 0
        &&& self.counts@.len() == self.totals@.len() * self.vocab
        &&& forall|c: int|
            0 <= c < self.totals@.len() ==> #[trigger] self.totals@[c] == run_sum(
                self.counts@,
                c * self.vocab,
                self.vocab as int,
            )
    }

    /// An empty table.
    pub fn new(vocab: usize, contexts: usize) -> (t: Self)
        requires
            vocab > 0,
            contexts * vocab <= usize::MAX,
        ensures
            t.wf(),
            t.alphabet() == vocab,
            t.contexts() == contexts,
            forall|c: int, n: int|
                0 <= c < contexts && 0 <= n < vocab ==> #[trigger] t.followed(c, n) == 0,
            forall|c: int| 0 <= c < contexts ==> #[trigger] t.total(c) == 0,
    {
        let mut counts: Vec<u64> = Vec::new();
        counts.resize(contexts * vocab, 0);
        let mut totals: Vec<u64> = Vec::new();
        totals.resize(contexts, 0);
        let t = CountTable { vocab, counts, totals };
        proof {
            assert forall|c: int| 0 <= c < t.totals@.len() implies #[trigger] t.totals@[c]
                == run_sum(t.counts@, c * t.vocab, t.vocab as int) by {
                lemma_place(c, vocab as int - 1, vocab as int, contexts as int);
                lemma_zero_sum(t.counts@, c * t.vocab, t.vocab as int);
            }
            assert forall|c: int, n: int|
                0 <= c < contexts && 0 <= n < vocab implies #[trigger] t.followed(c, n) == 0 by {
                lemma_place(c, n, vocab as int, contexts as int);
            }
        }
        t
    }

    /// The odds of `next` after a context, from the counts so far; then `next`
    /// is counted.
    pub fn observe(&mut self, c: usize, next: u32) -> (p: Odds)
        requires
            old(self).wf(),
            c < old(self).contexts(),
            next < old(self).alphabet(),
            2 * old(self).total(c as int) + old(self).alphabet() < u64::MAX,
        ensures
            final(self).wf(),
            final(self).alphabet() == old(self).alphabet(),
            final(self).contexts() == old(self).contexts(),
            (p.num as int, p.den as int) == smoothed(
                old(self).followed(c as int, next as int),
                old(self).total(c as int),
                old(self).alphabet(),
            ),
            0 < p.num <= p.den,
            forall|d: int, n: int|
                0 <= d < old(self).contexts() && 0 <= n < old(self).alphabet()
                    ==> #[trigger] final(self).followed(d, n) == old(self).followed(d, n) + if d
                    == c && n == next {
                    1int
                } else {
                    0
                },
            forall|d: int|
                0 <= d < old(self).contexts() ==> #[trigger] final(self).total(d) == old(
                    self,
                ).total(d) + if d == c {
                    1int
                } else {
                    0
                },
    {
        let ghost was = self.counts@;
        let ghost v = self.vocab as int;
        proof {
            lemma_place(c as int, next as int, v, self.totals@.len() as int);
            assert(self.counts@.len() == self.counts.len());
            assert(0 <= c * v) by (nonlinear_arith)
                requires
                    0 <= c,
                    0 <= v,
            ;
            lemma_place(c as int, v - 1, v, self.totals@.len() as int);
            lemma_part_of_sum(was, c * v, v, next as int);
            assert(self.totals@[c as int] == run_sum(was, c * v, v));
        }
        let i: usize = c * self.vocab + next as usize;
        let seen: u64 = self.counts[i];
        let all: u64 = self.totals[c];
        let p = Odds { num: 2 * seen + 1, den: 2 * all + self.vocab as u64 };
        self.counts.set(i, seen + 1);
        self.totals.set(c, all + 1);
        proof {
            assert forall|d: int| 0 <= d < self.totals@.len() implies #[trigger] self.totals@[d]
                == run_sum(self.counts@, d * v, v) by {
                lemma_place(d, v - 1, v, self.totals@.len() as int);
                lemma_bumped_sum(was, i as int, (seen + 1) as u64, d * v, v);
                assert(old(self).totals@[d] == run_sum(was, d * v, v));
                if d == c {
                    assert(d * v <= i < d * v + v);
                } else {
                    assert(!(d * v <= i < d * v + v)) by {
                        if d * v <= i && i < d * v + v {
                            crate::edge::store::law_runs_are_disjoint(v, d, c as int, i - d * v, next as int);
                        }
                    }
                }
            }
            assert forall|d: int, n: int|
                0 <= d < old(self).contexts() && 0 <= n < v implies #[trigger] self.followed(d, n)
                == old(self).followed(d, n) + if d == c && n == next {
                1int
            } else {
                0
            } by {
                lemma_place(d, n, v, self.totals@.len() as int);
                if d * v + n == i {
                    crate::edge::store::law_runs_are_disjoint(v, d, c as int, n, next as int);
                }
            }
        }
        p
    }
}

proof fn lemma_place(c: int, n: int, vocab: int, contexts: int)
    requires
        0 <= c < contexts,
        0 <= n < vocab,
    ensures
        0 <= c * vocab + n < contexts * vocab,
        0 <= c * vocab,
{
    assert(c * vocab + vocab <= contexts * vocab) by (nonlinear_arith)
        requires
            c + 1 <= contexts,
            0 <= vocab,
    ;
    assert(0 <= c * vocab) by (nonlinear_arith)
        requires
            0 <= c,
            0 <= vocab,
    ;
}

proof fn lemma_zero_sum(counts: Seq<u64>, from: int, n: int)
    requires
        0 <= from,
        from + n <= counts.len(),
        forall|k: int| 0 <= k < counts.len() ==> counts[k] == 0,
    ensures
        run_sum(counts, from, n) == 0,
    decreases n,
{
    if n > 0 {
        lemma_zero_sum(counts, from, n - 1);
    }
}

proof fn lemma_part_of_sum(counts: Seq<u64>, from: int, n: int, k: int)
    requires
        0 <= from,
        from + n <= counts.len(),
        0 <= k < n,
    ensures
        0 <= counts[from + k] <= run_sum(counts, from, n),
    decreases n,
{
    lemma_sum_positive(counts, from, n - 1);
    if k < n - 1 {
        lemma_part_of_sum(counts, from, n - 1, k);
    }
}

proof fn lemma_sum_positive(counts: Seq<u64>, from: int, n: int)
    ensures
        run_sum(counts, from, n) >= 0,
    decreases n,
{
    if n > 0 {
        lemma_sum_positive(counts, from, n - 1);
    }
}

proof fn lemma_bumped_sum(counts: Seq<u64>, i: int, v: u64, from: int, n: int)
    requires
        0 <= i < counts.len(),
        v == counts[i] + 1,
        0 <= from,
        from + n <= counts.len(),
    ensures
        run_sum(counts.update(i, v), from, n) == run_sum(counts, from, n) + if from <= i < from + n {
            1int
        } else {
            0
        },
    decreases n,
{
    if n > 0 {
        lemma_bumped_sum(counts, i, v, from, n - 1);
    }
}

/// The doubled, smoothed counts of the first `n` tokens after a context.
pub open spec fn odds_sum(t: CountTable, c: int, n: int) -> int
    decreases n,
{
    if n <= 0 {
        0
    } else {
        odds_sum(t, c, n - 1) + smoothed(t.followed(c, n - 1), t.total(c), t.alphabet()).0
    }
}

proof fn lemma_odds_sum(t: CountTable, c: int, n: int)
    requires
        t.wf(),
        0 <= c < t.contexts(),
        0 <= n <= t.alphabet(),
    ensures
        odds_sum(t, c, n) == 2 * run_sum(t.counts@, c * t.vocab, n) + n,
    decreases n,
{
    if n > 0 {
        lemma_odds_sum(t, c, n - 1);
    }
}

/// The odds of all tokens after a context add up to one, so every coder here is
/// a valid code; and no token is impossible.
pub proof fn law_odds_are_a_distribution(t: CountTable, c: int)
    requires
        t.wf(),
        0 <= c < t.contexts(),
    ensures
        odds_sum(t, c, t.alphabet()) == smoothed(0, t.total(c), t.alphabet()).1,
        forall|n: int|
            0 <= n < t.alphabet() ==> smoothed(
                #[trigger] t.followed(c, n),
                t.total(c),
                t.alphabet(),
            ).0 >= 1,
{
    lemma_odds_sum(t, c, t.alphabet());
    assert(t.totals@[c] == run_sum(t.counts@, c * t.vocab, t.vocab as int));
}

/// A counting coder of a given order: it predicts the next token from counts of
/// what has followed its context so far, then counts it.
pub struct CountingCoder {
    table: CountTable,
    context: usize,
}

impl CountingCoder {
    /// The counts so far.
    pub closed spec fn counts(&self) -> CountTable {
        self.table
    }

    /// The context of the next token.
    pub closed spec fn at(&self) -> int {
        self.context as int
    }

    /// The coder is in one of its contexts.
    pub closed spec fn wf(&self) -> bool {
        self.table.wf() && self.context < self.table.contexts()
    }

    /// A coder of an order over `vocab` tokens, where its table can be held.
    pub fn new(vocab: usize, order: usize) -> (r: Option<Self>)
        requires
            vocab > 0,
        ensures
            r is Some <==> pow(vocab as int, order as nat) * vocab <= usize::MAX,
            r is Some ==> {
                let t = r->0.counts();
                &&& r->0.wf()
                &&& t.alphabet() == vocab
                &&& t.contexts() == pow(vocab as int, order as nat)
                &&& r->0.at() == 0
                &&& forall|c: int, n: int|
                    0 <= c < t.contexts() && 0 <= n < vocab ==> #[trigger] t.followed(c, n) == 0
                &&& forall|c: int| 0 <= c < t.contexts() ==> #[trigger] t.total(c) == 0
            },
    {
        proof {
            vstd::arithmetic::power::lemma_pow_positive(vocab as int, order as nat);
        }
        match power(vocab, order) {
            Some(contexts) => {
                if contexts > usize::MAX / vocab {
                    proof {
                        assert(contexts * vocab > usize::MAX) by (nonlinear_arith)
                            requires
                                contexts > usize::MAX as int / vocab as int,
                                vocab > 0,
                        ;
                    }
                    return None;
                }
                proof {
                    assert(contexts * vocab <= usize::MAX) by (nonlinear_arith)
                        requires
                            contexts <= usize::MAX as int / vocab as int,
                            vocab > 0,
                    ;
                }
                Some(CountingCoder { table: CountTable::new(vocab, contexts), context: 0 })
            },
            None => {
                proof {
                    let m = pow(vocab as int, order as nat);
                    assert(m * vocab > usize::MAX) by (nonlinear_arith)
                        requires
                            m > usize::MAX,
                            vocab >= 1,
                    ;
                }
                None
            },
        }
    }

    /// The odds of `next` from the context seen so far; then the counts and the
    /// context advance.
    pub fn observe(&mut self, next: u32) -> (p: Odds)
        requires
            old(self).wf(),
            next < old(self).counts().alphabet(),
            2 * old(self).counts().total(old(self).at()) + old(self).counts().alphabet()
                < u64::MAX,
        ensures
            final(self).wf(),
            final(self).counts().alphabet() == old(self).counts().alphabet(),
            final(self).counts().contexts() == old(self).counts().contexts(),
            (p.num as int, p.den as int) == smoothed(
                old(self).counts().followed(old(self).at(), next as int),
                old(self).counts().total(old(self).at()),
                old(self).counts().alphabet(),
            ),
            forall|d: int, n: int|
                0 <= d < old(self).counts().contexts() && 0 <= n < old(self).counts().alphabet()
                    ==> #[trigger] final(self).counts().followed(d, n) == old(
                    self,
                ).counts().followed(d, n) + if d == old(self).at() && n == next {
                    1int
                } else {
                    0
                },
            forall|d: int|
                0 <= d < old(self).counts().contexts() ==> #[trigger] final(self).counts().total(d) == old(self).counts().total(d) + if d == old(self).at() {
                    1int
                } else {
                    0
                },
            final(self).at() == shifted(
                old(self).at(),
                old(self).counts().alphabet(),
                old(self).counts().contexts(),
                next as int,
            ),
    {
        let c: usize = self.context;
        proof {
            lemma_place(
                c as int,
                next as int,
                self.table.vocab as int,
                self.table.totals@.len() as int,
            );
            assert(self.table.counts@.len() == self.table.counts.len());
            vstd::arithmetic::div_mod::lemma_mod_pos_bound(
                c * self.table.vocab + next,
                self.table.totals@.len() as int,
            );
        }
        let p = self.table.observe(c, next);
        self.context = (c * self.table.vocab + next as usize) % self.table.totals.len();
        p
    }
}

/// Whether `now` is `was` with one more `next` counted after context `c`.
pub open spec fn counted(was: CountTable, now: CountTable, c: int, next: int) -> bool {
    &&& now.wf()
    &&& now.alphabet() == was.alphabet()
    &&& now.contexts() == was.contexts()
    &&& forall|d: int, n: int|
        0 <= d < was.contexts() && 0 <= n < was.alphabet() ==> #[trigger] now.followed(d, n)
            == was.followed(d, n) + if d == c && n == next {
            1int
        } else {
            0
        }
    &&& forall|d: int|
        0 <= d < was.contexts() ==> #[trigger] now.total(d) == was.total(d) + if d == c {
            1int
        } else {
            0
        }
}

/// A coder over the current token and a previous one that was read back out of
/// a representation, once for each of several readers.
///
/// This has nothing to train: it takes the pair and looks the answer up.
pub struct OracleCoder {
    vocab: usize,
    tables: Vec<CountTable>,
    hits: Vec<u64>,
    seen: u64,
}

impl OracleCoder {
    /// How many tokens there are.
    pub closed spec fn alphabet(&self) -> int {
        self.vocab as int
    }

    /// The counts of each reader.
    pub closed spec fn readers(&self) -> Seq<CountTable> {
        self.tables@
    }

    /// How often each reader read the previous token right.
    pub closed spec fn right(&self) -> Seq<u64> {
        self.hits@
    }

    /// How many tokens were coded.
    pub closed spec fn coded(&self) -> int {
        self.seen as int
    }

    /// Each reader has a table over pairs, and none was right more often than
    /// asked.
    pub closed spec fn wf(&self) -> bool {
        &&& self.vocab > 0
        &&& self.vocab * self.vocab <= usize::MAX
        &&& self.hits@.len() == self.tables@.len()
        &&& forall|r: int|
            0 <= r < self.tables@.len() ==> {
                &&& (#[trigger] self.tables@[r]).wf()
                &&& self.tables@[r].alphabet() == self.vocab
                &&& self.tables@[r].contexts() == self.vocab * self.vocab
            }
        &&& forall|r: int| 0 <= r < self.hits@.len() ==> #[trigger] self.hits@[r] <= self.seen
    }

    /// A coder with `rates` readers and nothing counted.
    pub fn new(vocab: usize, rates: usize) -> (o: Self)
        requires
            vocab > 0,
            vocab * vocab <= usize::MAX,
            vocab * vocab * vocab <= usize::MAX,
        ensures
            o.wf(),
            o.alphabet() == vocab,
            o.readers().len() == rates,
            o.right() == Seq::new(rates as nat, |r: int| 0u64),
            o.coded() == 0,
            forall|r: int, c: int, n: int|
                0 <= r < rates && 0 <= c < vocab * vocab && 0 <= n < vocab
                    ==> #[trigger] o.readers()[r].followed(c, n) == 0,
            forall|r: int, c: int|
                0 <= r < rates && 0 <= c < vocab * vocab ==> #[trigger] o.readers()[r].total(c)
                    == 0,
    {
        let pairs: usize = vocab * vocab;
        let mut tables: Vec<CountTable> = Vec::new();
        let mut hits: Vec<u64> = Vec::new();
        let mut r: usize = 0;
        while r < rates
            invariant
                r <= rates,
                vocab > 0,
                pairs == vocab * vocab,
                pairs * vocab <= usize::MAX,
                tables@.len() == r,
                hits@.len() == r,
                forall|k: int| 0 <= k < r ==> hits@[k] == 0,
                forall|k: int|
                    0 <= k < r ==> {
                        &&& (#[trigger] tables@[k]).wf()
                        &&& tables@[k].alphabet() == vocab
                        &&& tables@[k].contexts() == pairs
                    },
                forall|k: int, c: int, n: int|
                    0 <= k < r && 0 <= c < pairs && 0 <= n < vocab
                        ==> #[trigger] tables@[k].followed(c, n) == 0,
                forall|k: int, c: int|
                    0 <= k < r && 0 <= c < pairs ==> #[trigger] tables@[k].total(c) == 0,
            decreases rates - r,
        {
            tables.push(CountTable::new(vocab, pairs));
            hits.push(0);
            r = r + 1;
        }
        let o = OracleCoder { vocab, tables, hits, seen: 0 };
        assert(o.right() =~= Seq::new(rates as nat, |r: int| 0u64));
        o
    }

    /// Codes `next` after `current` and what each reader took the previous token
    /// for, and notes which readers were right.
    pub fn observe(&mut self, current: u32, decoded: &[u32], truth: u32, next: u32) -> (p: Vec<
        Odds,
    >)
        requires
            old(self).wf(),
            current < old(self).alphabet(),
            next < old(self).alphabet(),
            decoded@.len() == old(self).readers().len(),
            forall|r: int| 0 <= r < decoded@.len() ==> decoded@[r] < old(self).alphabet(),
            old(self).coded() < u64::MAX,
            forall|r: int, c: int|
                0 <= r < old(self).readers().len() && 0 <= c < old(self).readers()[r].contexts()
                    ==> 2 * (#[trigger] old(self).readers()[r].total(c)) + old(self).alphabet()
                    < u64::MAX,
        ensures
            final(self).wf(),
            final(self).alphabet() == old(self).alphabet(),
            final(self).coded() == old(self).coded() + 1,
            final(self).readers().len() == old(self).readers().len(),
            final(self).right().len() == old(self).right().len(),
            p@.len() == decoded@.len(),
            forall|r: int|
                0 <= r < decoded@.len() ==> {
                    let t = old(self).readers()[r];
                    let c = pair_context(
                        current as int,
                        decoded@[r] as int,
                        old(self).alphabet(),
                    );
                    let odds = #[trigger] p@[r];
                    &&& (odds.num as int, odds.den as int) == smoothed(
                        t.followed(c, next as int),
                        t.total(c),
                        old(self).alphabet(),
                    )
                    &&& counted(t, final(self).readers()[r], c, next as int)
                    &&& final(self).right()[r] == old(self).right()[r] + if decoded@[r] == truth {
                        1int
                    } else {
                        0
                    }
                },
    {
        let n: usize = decoded.len();
        let ghost v = self.vocab as int;
        let ghost was = self.tables@;
        let ghost had = self.hits@;
        let mut p: Vec<Odds> = Vec::new();
        let mut r: usize = 0;
        while r < n
            invariant
                r <= n,
                n == decoded@.len(),
                n == was.len(),
                was == old(self).tables@,
                had == old(self).hits@,
                had.len() == n,
                v == self.vocab,
                v == old(self).vocab,
                self.seen == old(self).seen,
                v > 0,
                v * v <= usize::MAX,
                self.seen < u64::MAX,
                current < v,
                next < v,
                forall|k: int| 0 <= k < n ==> decoded@[k] < v,
                self.tables@.len() == n,
                self.hits@.len() == n,
                forall|k: int| r <= k < n ==> #[trigger] self.tables@[k] == was[k],
                forall|k: int| r <= k < n ==> #[trigger] self.hits@[k] == had[k],
                forall|k: int| 0 <= k < n ==> #[trigger] had[k] <= self.seen,
                forall|k: int|
                    0 <= k < n ==> {
                        &&& (#[trigger] was[k]).wf()
                        &&& was[k].alphabet() == v
                        &&& was[k].contexts() == v * v
                    },
                forall|k: int, c: int|
                    0 <= k < n && 0 <= c < was[k].contexts() ==> 2 * (#[trigger] was[k].total(c))
                        + v < u64::MAX,
                p@.len() == r,
                forall|k: int|
                    #![trigger p@[k]]
                    #![trigger self.tables@[k]]
                    #![trigger self.hits@[k]]
                    0 <= k < r ==> {
                        let c = current * v + decoded@[k];
                        let odds = p@[k];
                        &&& (odds.num as int, odds.den as int) == smoothed(
                            was[k].followed(c, next as int),
                            was[k].total(c),
                            v,
                        )
                        &&& counted(was[k], self.tables@[k], c, next as int)
                        &&& self.hits@[k] == had[k] + if decoded@[k] == truth {
                            1int
                        } else {
                            0
                        }
                    },
            decreases n - r,
        {
            let prev: u32 = decoded[r];
            if prev == truth {
                let h: u64 = self.hits[r];
                self.hits.set(r, h + 1);
            }
            proof {
                lemma_place(current as int, prev as int, v, v);
                assert(self.tables@[r as int] == was[r as int]);
            }
            let ctx: usize = current as usize * self.vocab + prev as usize;
            let odds = self.tables[r].observe(ctx, next);
            p.push(odds);
            r = r + 1;
        }
        self.seen = self.seen + 1;
        proof {
            assert forall|k: int| 0 <= k < self.tables@.len() implies {
                &&& (#[trigger] self.tables@[k]).wf()
                &&& self.tables@[k].alphabet() == self.vocab
                &&& self.tables@[k].contexts() == self.vocab * self.vocab
            } by {
                assert(counted(was[k], self.tables@[k], current * v + decoded@[k], next as int));
            }
            assert forall|k: int| 0 <= k < self.hits@.len() implies #[trigger] self.hits@[k]
                <= self.seen by {
                assert(had[k] <= old(self).seen);
            }
        }
        p
    }

    /// How often a reader was right, out of how many tokens.
    pub fn accuracy(&self, r: usize) -> (a: (u64, u64))
        requires
            self.wf(),
            r < self.right().len(),
        ensures
            a.0 == self.right()[r as int],
            a.1 == self.coded(),
            a.0 <= a.1,
    {
        (self.hits[r], self.seen)
    }
}

/// What is known before anything was seen, and what a count is worth: without
/// counts all tokens are equally likely; with them the odds of two tokens are as
/// the counts and a half each, so the first count makes a token three times as
/// likely as one that was not seen.
pub proof fn law_a_count_weighs_twice_the_prior(a: int, b: int, t: int, vocab: int)
    requires
        0 <= a,
        0 <= b,
        0 <= t,
        0 < vocab,
    ensures
        vocab * smoothed(0, 0, vocab).0 == smoothed(0, 0, vocab).1,
        smoothed(a, t, vocab).0 * (2 * b + 1) == smoothed(b, t, vocab).0 * (2 * a + 1),
        smoothed(1, t, vocab).0 == 3 * smoothed(0, t, vocab).0,
        smoothed(a, t, vocab).1 == smoothed(b, t, vocab).1,
        smoothed(a + 1, t + 1, vocab).1 - smoothed(a, t, vocab).1 == smoothed(a + 1, t, vocab).0
            - smoothed(a, t, vocab).0,
        0 < smoothed(a, t, vocab).0,
        a <= t ==> smoothed(a, t, vocab).0 <= smoothed(a, t, vocab).1,
        vocab >= 2 && a < b ==> smoothed(a, t, vocab).0 < smoothed(b, t, vocab).0,
{
    assert((2 * a + 1) * (2 * b + 1) == (2 * b + 1) * (2 * a + 1)) by (nonlinear_arith);
    assert(vocab * 1 == vocab) by (nonlinear_arith);
}

/// The context of a reader: the current token and what it took the previous one
/// for.
pub open spec fn pair_context(current: int, previous: int, vocab: int) -> int {
    current * vocab + previous
}

/// Different pairs of tokens are different contexts, and every pair has one.
pub proof fn law_pairs_are_contexts(a: int, b: int, c: int, d: int, vocab: int)
    requires
        0 <= a < vocab,
        0 <= b < vocab,
        0 <= c < vocab,
        0 <= d < vocab,
    ensures
        0 <= pair_context(a, b, vocab) < vocab * vocab,
        pair_context(a, b, vocab) == pair_context(c, d, vocab) <==> a == c && b == d,
{
    lemma_place(a, b, vocab, vocab);
    if pair_context(a, b, vocab) == pair_context(c, d, vocab) {
        crate::edge::store::law_runs_are_disjoint(vocab, a, c, b, d);
    }
}

} // verus!
