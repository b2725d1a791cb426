//! A source with a heavy tail, and what is counted of it.

use vstd::prelude::*;

use crate::cycle::placed;
use crate::load::law_ranking_lists_everything;
use crate::rank::as_ints;
use crate::rank::rank_ids;
use crate::rank::ranking;

verus! {

/// A chain of states in a window of the vocabulary. Where its next state lies
/// among the cumulated odds of its state is drawn outside.
#[derive(Clone, Copy, Debug)]
pub struct ZipfChain {
    width: usize,
    offset: usize,
    vocab: usize,
    state: usize,
}

impl ZipfChain {
    /// How many states there are.
    pub closed spec fn states(&self) -> int {
        self.width as int
    }

    /// Where the window begins.
    pub closed spec fn start(&self) -> int {
        self.offset as int
    }

    /// How many tokens there are.
    pub closed spec fn tokens(&self) -> int {
        self.vocab as int
    }

    /// The state.
    pub closed spec fn at(&self) -> int {
        self.state as int
    }

    /// The state is one of the states.
    pub closed spec fn wf(&self) -> bool {
        &&& self.width >= 2
        &&& 1 <= self.vocab <= u32::MAX
        &&& self.offset + self.width <= usize::MAX
        &&& self.state < self.width
    }

    /// A chain in its first state.
    pub fn new(width: usize, offset: usize, vocab: usize) -> (c: Self)
        requires
            width >= 2,
            1 <= vocab <= u32::MAX,
            offset + width <= usize::MAX,
        ensures
            c.wf(),
            c.states() == width,
            c.start() == offset,
            c.tokens() == vocab,
            c.at() == 0,
    {
        ZipfChain { width, offset, vocab, state: 0 }
    }

    /// The state.
    pub fn state(&self) -> (s: usize)
        requires
            self.wf(),
        ensures
            s == self.at(),
            s < self.states(),
    {
        self.state
    }

    /// Moves to the drawn state, or the last one where the draw is past it, and
    /// gives its token.
    pub fn next(&mut self, drawn: usize) -> (t: u32)
        requires
            old(self).wf(),
        ensures
            final(self).wf(),
            final(self).states() == old(self).states(),
            final(self).start() == old(self).start(),
            final(self).tokens() == old(self).tokens(),
            final(self).at() == state_for(drawn as int, old(self).states()),
            t == placed(final(self).at(), final(self).start(), final(self).tokens()),
            t < final(self).tokens(),
    {
        self.state = if drawn < self.width {
            drawn
        } else {
            self.width - 1
        };
        ((self.state + self.offset) % self.vocab) as u32
    }
}

/// The state that a draw leads to.
pub open spec fn state_for(drawn: int, states: int) -> int {
    if drawn < states {
        drawn
    } else {
        states - 1
    }
}

/// How often a token occurs.
pub open spec fn occurs(stream: Seq<u32>, t: int) -> int
    decreases stream.len(),
{
    if stream.len() == 0 {
        0
    } else {
        occurs(stream.drop_last(), t) + if stream.last() == t {
            1int
        } else {
            0
        }
    }
}

/// How often one token follows another.
pub open spec fn follows(stream: Seq<u32>, a: int, b: int) -> int
    decreases stream.len(),
{
    if stream.len() < 2 {
        0
    } else {
        follows(stream.drop_last(), a, b) + if stream[stream.len() - 2] == a && stream.last()
            == b {
            1int
        } else {
            0
        }
    }
}

proof fn lemma_occurs_bound(stream: Seq<u32>, t: int)
    ensures
        0 <= occurs(stream, t) <= stream.len(),
    decreases stream.len(),
{
    if stream.len() > 0 {
        lemma_occurs_bound(stream.drop_last(), t);
    }
}

proof fn lemma_follows_bound(stream: Seq<u32>, a: int, b: int)
    ensures
        0 <= follows(stream, a, b) <= stream.len(),
    decreases stream.len(),
{
    if stream.len() >= 2 {
        lemma_follows_bound(stream.drop_last(), a, b);
    }
}

/// How often each token occurs.
pub fn token_counts(stream: &[u32], vocab: usize) -> (counts: Vec<u64>)
    requires
        stream@.len() <= u64::MAX,
        forall|k: int| 0 <= k < stream@.len() ==> (#[trigger] stream@[k]) < vocab,
    ensures
        counts@.len() == vocab,
        forall|t: int| 0 <= t < vocab ==> #[trigger] counts@[t] == occurs(stream@, t),
{
    let mut counts: Vec<u64> = vec![0u64; vocab];
    let mut k: usize = 0;
    while k < stream.len()
        invariant
            stream@.len() <= u64::MAX,
            forall|k: int| 0 <= k < stream@.len() ==> (#[trigger] stream@[k]) < vocab,
            k <= stream@.len(),
            counts@.len() == vocab,
            forall|t: int|
                0 <= t < vocab ==> #[trigger] counts@[t] == occurs(stream@.take(k as int), t),
        decreases stream@.len() - k,
    {
        assert(stream@[k as int] < vocab);
        let t: usize = stream[k] as usize;
        proof {
            assert(stream@.take(k + 1).drop_last() =~= stream@.take(k as int));
            lemma_occurs_bound(stream@.take(k as int), t as int);
        }
        let was: u64 = counts[t];
        counts.set(t, was + 1);
        k = k + 1;
    }
    proof {
        assert(stream@.take(k as int) =~= stream@);
    }
    counts
}

/// How often each token comes first in a pair, each pair occurs, and each token
/// comes second.
#[derive(Debug)]
pub struct Bigrams {
    /// By the first token.
    pub first: Vec<u64>,
    /// By the pair: the second tokens of one first token stand together.
    pub joint: Vec<u64>,
    /// By the second token.
    pub second: Vec<u64>,
}

/// Where a pair is counted.
pub open spec fn pair_cell(a: int, b: int, vocab: int) -> int {
    a * vocab + b
}

/// Different pairs are counted in different places.
proof fn lemma_pair_cell(a: int, b: int, vocab: int)
    requires
        0 <= a < vocab,
        0 <= b < vocab,
    ensures
        0 <= pair_cell(a, b, vocab) < vocab * vocab,
        pair_cell(a, b, vocab) / vocab == a,
        pair_cell(a, b, vocab) % vocab == b,
{
    assert(a * vocab >= 0 && a * vocab + vocab <= vocab * vocab) by (nonlinear_arith)
        requires
            0 <= a < vocab,
    ;
    vstd::arithmetic::div_mod::lemma_fundamental_div_mod_converse(
        pair_cell(a, b, vocab),
        vocab,
        a,
        b,
    );
}

impl Bigrams {
    /// The counts are those of a stream.
    pub open spec fn are_of(&self, stream: Seq<u32>, vocab: int) -> bool {
        &&& self.first@.len() == vocab
        &&& self.second@.len() == vocab
        &&& self.joint@.len() == vocab * vocab
        &&& forall|t: int|
            0 <= t < vocab ==> #[trigger] self.first@[t] == occurs(stream.drop_last(), t)
        &&& forall|t: int|
            0 <= t < vocab ==> #[trigger] self.second@[t] == occurs(stream.drop_first(), t)
        &&& forall|c: int|
            0 <= c < vocab * vocab ==> #[trigger] self.joint@[c] == follows(
                stream,
                c / vocab,
                c % vocab,
            )
    }

    /// Counts the pairs of a stream.
    pub fn count(stream: &[u32], vocab: usize) -> (b: Self)
        requires
            1 <= stream@.len() <= u64::MAX,
            vocab * vocab <= usize::MAX,
            forall|k: int| 0 <= k < stream@.len() ==> (#[trigger] stream@[k]) < vocab,
        ensures
            b.are_of(stream@, vocab as int),
    {
        let n: usize = stream.len();
        let mut first: Vec<u64> = vec![0u64; vocab];
        let mut second: Vec<u64> = vec![0u64; vocab];
        let mut joint: Vec<u64> = vec![0u64; vocab * vocab];
        let mut k: usize = 1;
        proof {
            assert(stream@.take(1).drop_last() =~= Seq::<u32>::empty());
            assert(stream@.take(1).drop_first() =~= Seq::<u32>::empty());
        }
        while k < n
            invariant
                n == stream@.len(),
                1 <= k <= n <= u64::MAX,
                vocab * vocab <= usize::MAX,
                forall|k: int| 0 <= k < stream@.len() ==> (#[trigger] stream@[k]) < vocab,
                first@.len() == vocab,
                second@.len() == vocab,
                joint@.len() == vocab * vocab,
                forall|t: int|
                    0 <= t < vocab ==> #[trigger] first@[t] == occurs(
                        stream@.take(k as int).drop_last(),
                        t,
                    ),
                forall|t: int|
                    0 <= t < vocab ==> #[trigger] second@[t] == occurs(
                        stream@.take(k as int).drop_first(),
                        t,
                    ),
                forall|c: int|
                    0 <= c < vocab * vocab ==> #[trigger] joint@[c] == follows(
                        stream@.take(k as int),
                        c / vocab as int,
                        c % vocab as int,
                    ),
            decreases n - k,
        {
            let ghost head = stream@.take(k as int);
            let ghost more = stream@.take(k + 1);
            assert(stream@[k - 1] < vocab);
            assert(stream@[k as int] < vocab);
            let a: usize = stream[k - 1] as usize;
            let b: usize = stream[k] as usize;
            proof {
                assert(more.drop_last() =~= head);
                assert(more.drop_first().drop_last() =~= head.drop_first());
                assert(more.drop_first().last() == b);
                assert(head.last() == a);
                assert(more[more.len() - 2] == a);
                lemma_pair_cell(a as int, b as int, vocab as int);
                lemma_occurs_bound(head.drop_last(), a as int);
                lemma_occurs_bound(head.drop_first(), b as int);
                lemma_follows_bound(head, a as int, b as int);
                assert(0 <= a * vocab) by (nonlinear_arith);
            }
            let cell: usize = a * vocab + b;
            let x: u64 = first[a];
            first.set(a, x + 1);
            let y: u64 = second[b];
            second.set(b, y + 1);
            let ghost was = joint@;
            let z: u64 = joint[cell];
            joint.set(cell, z + 1);
            proof {
                assert forall|c: int| 0 <= c < vocab * vocab implies #[trigger] joint@[c]
                    == follows(more, c / vocab as int, c % vocab as int) by {
                    assert(was[c] == follows(head, c / vocab as int, c % vocab as int));
                    if c / vocab as int == a && c % vocab as int == b {
                        vstd::arithmetic::div_mod::lemma_fundamental_div_mod(c, vocab as int);
                        assert(vocab * (c / vocab as int) == a * vocab) by (nonlinear_arith)
                            requires
                                c / vocab as int == a,
                        ;
                        assert(c == cell);
                    }
                }
            }
            k = k + 1;
        }
        proof {
            assert(stream@.take(n as int) =~= stream@);
        }
        Bigrams { first, joint, second }
    }
}

/// What a first token is followed by, up to one second token.
pub open spec fn row_upto(stream: Seq<u32>, a: int, n: int) -> int
    decreases n,
{
    if n <= 0 {
        0
    } else {
        row_upto(stream, a, n - 1) + follows(stream, a, n - 1)
    }
}

proof fn lemma_row_grows(stream: Seq<u32>, a: int, n: int)
    requires
        stream.len() >= 2,
    ensures
        row_upto(stream, a, n) == row_upto(stream.drop_last(), a, n) + if stream[stream.len() - 2]
            == a && 0 <= stream.last() < n {
            1int
        } else {
            0
        },
    decreases n,
{
    if n > 0 {
        lemma_row_grows(stream, a, n - 1);
    }
}

proof fn lemma_row_empty(stream: Seq<u32>, a: int, n: int)
    requires
        stream.len() < 2,
    ensures
        row_upto(stream, a, n) == 0,
    decreases n,
{
    if n > 0 {
        lemma_row_empty(stream, a, n - 1);
    }
}

/// What follows a token adds up to how often the token comes first.
pub proof fn law_rows_add_up(stream: Seq<u32>, vocab: int, a: int)
    requires
        stream.len() >= 1,
        forall|k: int| 0 <= k < stream.len() ==> (#[trigger] stream[k]) < vocab,
    ensures
        row_upto(stream, a, vocab) == occurs(stream.drop_last(), a),
    decreases stream.len(),
{
    if stream.len() < 2 {
        lemma_row_empty(stream, a, vocab);
        assert(stream.drop_last() =~= Seq::<u32>::empty());
    } else {
        let short = stream.drop_last();
        assert forall|k: int| 0 <= k < short.len() implies (#[trigger] short[k]) < vocab by {
            assert(short[k] == stream[k]);
        }
        law_rows_add_up(short, vocab, a);
        lemma_row_grows(stream, a, vocab);
        assert(short.last() == stream[stream.len() - 2]);
        assert(stream[stream.len() - 1] < vocab);
    }
}

/// The rank of every token, from one for the most frequent.
pub fn ranks(counts: &[u64]) -> (ranks: Vec<usize>)
    ensures
        ranks@.len() == counts@.len(),
        forall|k: int|
            0 <= k < counts@.len() ==> ranks@[#[trigger] ranking(counts@, 0)[k]] == k + 1,
{
    let n: usize = counts.len();
    let ids: Vec<usize> = rank_ids(counts, 0);
    let ghost r = ranking(counts@, 0);
    proof {
        law_ranking_lists_everything(counts@);
    }
    let mut ranks: Vec<usize> = vec![0usize; n];
    let mut k: usize = 0;
    while k < n
        invariant
            n == counts@.len(),
            k <= n,
            r == ranking(counts@, 0),
            r == as_ints(ids@),
            r.len() == n,
            r.no_duplicates(),
            forall|j: int| 0 <= j < n ==> 0 <= #[trigger] r[j] < n,
            ranks@.len() == n,
            forall|j: int| 0 <= j < k ==> ranks@[#[trigger] r[j]] == j + 1,
        decreases n - k,
    {
        assert(ids@[k as int] == r[k as int]);
        ranks.set(ids[k], k + 1);
        k = k + 1;
    }
    ranks
}

/// The band of a rank: bands are spaced like the distribution.
pub open spec fn band_at(rank: int) -> int {
    if rank <= 4 {
        0
    } else if rank <= 16 {
        1
    } else if rank <= 64 {
        2
    } else {
        3
    }
}

/// The band of a rank.
pub fn band_of(rank: usize) -> (b: usize)
    ensures
        b == band_at(rank as int),
        b < 4,
{
    if rank <= 4 {
        0
    } else if rank <= 16 {
        1
    } else if rank <= 64 {
        2
    } else {
        3
    }
}

/// What a band is called.
pub fn band_name(band: usize) -> (s: &'static str)
    requires
        band < 4,
    ensures
        s@ == if band == 0 {
            "rank 1-4"@
        } else if band == 1 {
            "rank 5-16"@
        } else if band == 2 {
            "rank 17-64"@
        } else {
            "rank 65+"@
        },
{
    if band == 0 {
        "rank 1-4"
    } else if band == 1 {
        "rank 5-16"
    } else if band == 2 {
        "rank 17-64"
    } else {
        "rank 65+"
    }
}

/// The size of a linear layer with an elastic penalty, swept over some strengths.
#[derive(Clone, Copy, Debug)]
pub struct OnlineEwc {
    /// How many tokens there are.
    pub vocab: usize,
    /// Width of the key.
    pub d: usize,
    /// How many strengths are tried.
    pub lambdas: usize,
}

impl OnlineEwc {
    /// Everything can be counted.
    pub open spec fn wf(&self) -> bool {
        &&& 4 * (self.vocab * self.d) <= usize::MAX
        &&& self.lambdas * (4 * (self.vocab * self.d)) <= usize::MAX
    }

    /// The weights.
    pub fn parameters(&self) -> (n: usize)
        requires
            self.wf(),
        ensures
            n == weights_of(self.vocab as int, self.d as int),
    {
        proof {
            assert(self.vocab * self.d >= 0) by (nonlinear_arith);
        }
        self.vocab * self.d
    }

    /// The weights, what they are pulled to, and how strongly.
    pub fn state_held(&self) -> (n: usize)
        requires
            self.wf(),
        ensures
            n == state_of(self.vocab as int, self.d as int),
    {
        3 * self.parameters()
    }

    /// Multiplications for a token.
    pub fn cost(&self) -> (n: usize)
        requires
            self.wf(),
        ensures
            n == cost_of(self.lambdas as int, self.vocab as int, self.d as int),
    {
        self.lambdas * (4 * self.parameters())
    }
}

/// Tokens occur as often as they stand in the stream, and a pair of them as often
/// as the two stand side by side.
pub proof fn law_occurrences_are_counted(stream: Seq<u32>, a: u32, b: u32)
    ensures
        occurs(stream, a as int) == stream.filter(|t: u32| t == a).len(),
        follows(stream, a as int, b as int) == Seq::new(
            if stream.len() == 0 {
                0
            } else {
                (stream.len() - 1) as nat
            },
            |k: int| (stream[k], stream[k + 1]),
        ).filter(|p: (u32, u32)| p.0 == a && p.1 == b).len(),
    decreases stream.len(),
{
    reveal(Seq::filter);
    if stream.len() > 0 {
        let short = stream.drop_last();
        law_occurrences_are_counted(short, a, b);
        if stream.len() >= 2 {
            let pairs = Seq::new((stream.len() - 1) as nat, |k: int| (stream[k], stream[k + 1]));
            let fewer = Seq::new((short.len() - 1) as nat, |k: int| (short[k], short[k + 1]));
            assert(pairs.drop_last() =~= fewer);
            assert(pairs.last() == (stream[stream.len() - 2], stream.last()));
        }
    }
}

/// Different pairs of tokens are counted in different places, those with the same
/// first token side by side.
pub proof fn law_pairs_have_their_places(a: int, b: int, c: int, d: int, vocab: int)
    requires
        0 <= a < vocab,
        0 <= b < vocab,
        0 <= c < vocab,
        0 <= d < vocab,
    ensures
        0 <= pair_cell(a, b, vocab) < vocab * vocab,
        pair_cell(a, b, vocab) == pair_cell(c, d, vocab) <==> a == c && b == d,
        b + 1 < vocab ==> pair_cell(a, b + 1, vocab) == pair_cell(a, b, vocab) + 1,
        pair_cell(0, 0, vocab) == 0,
{
    lemma_pair_cell(a, b, vocab);
    lemma_pair_cell(c, d, vocab);
    assert(0 * vocab == 0) by (nonlinear_arith);
}

/// The bands widen like the distribution: each reaches four times as far as the
/// one before, the first to the fourth rank, and the last takes all the rest.
pub proof fn law_bands_widen(rank: int)
    requires
        1 <= rank,
    ensures
        band_at(4) == 0,
        band_at(5) == 1,
        2 <= rank <= 64 ==> band_at(4 * rank) == band_at(rank) + 1,
        band_at(rank) <= 3,
        band_at(rank) <= band_at(rank + 1) <= band_at(rank) + 1,
        band_at(rank) != band_at(rank + 1) ==> rank == 4 || rank == 16 || rank == 64,
        band_at(rank) == 3 <==> rank > 64,
{
}

/// A more frequent token has the smaller rank, the earlier one among equals; the
/// first rank is one and the last as many as there are tokens.
pub proof fn law_ranks_follow_frequency(counts: Seq<u64>, ranks: Seq<usize>, a: int, b: int)
    requires
        ranks.len() == counts.len(),
        forall|k: int|
            0 <= k < counts.len() ==> ranks[#[trigger] ranking(counts, 0)[k]] == k + 1,
        0 <= a < counts.len(),
        0 <= b < counts.len(),
    ensures
        1 <= ranks[a] <= counts.len(),
        counts[a] > counts[b] ==> ranks[a] < ranks[b],
        counts[a] == counts[b] && a < b ==> ranks[a] < ranks[b],
{
    let r = ranking(counts, 0);
    law_ranking_lists_everything(counts);
    crate::rank::law_ranking_exists(counts, 0);
    assert(crate::rank::counted(counts, 0, a));
    assert(crate::rank::counted(counts, 0, b));
    assert(r.contains(a) && r.contains(b));
    let i = choose|i: int| 0 <= i < r.len() && r[i] == a;
    let j = choose|j: int| 0 <= j < r.len() && r[j] == b;
    assert(ranks[r[i]] == i + 1 && ranks[r[j]] == j + 1);
    if j < i {
        assert(crate::rank::ranks_before(counts, r[j], r[i]));
    }
}

/// The weights of a linear layer.
pub open spec fn weights_of(vocab: int, d: int) -> int {
    vocab * d
}

/// What a penalised layer holds: the weights, what they are pulled to, and how
/// strongly.
pub open spec fn state_of(vocab: int, d: int) -> int {
    3 * (vocab * d)
}

/// Multiplications for a token, over all strengths.
pub open spec fn cost_of(lambdas: int, vocab: int, d: int) -> int {
    lambdas * (4 * (vocab * d))
}

/// One more token takes a weight for each part of the key. The penalty holds two
/// more numbers for each weight, and every strength costs four multiplications
/// for each.
pub proof fn law_penalties_are_paid_by_the_weight(lambdas: int, vocab: int, d: int)
    ensures
        weights_of(0, d) == 0,
        weights_of(vocab + 1, d) == weights_of(vocab, d) + d,
        state_of(vocab, d) - weights_of(vocab, d) == 2 * weights_of(vocab, d),
        cost_of(0, vocab, d) == 0,
        cost_of(lambdas + 1, vocab, d) == cost_of(lambdas, vocab, d) + 4 * weights_of(vocab, d),
{
    let w = vocab * d;
    assert(0 * d == 0 && (vocab + 1) * d == vocab * d + d && 0 * (4 * w) == 0 && (lambdas + 1) * (4
        * w) == lambdas * (4 * w) + 4 * w) by (nonlinear_arith);
}

/// A draw within the states is the state, and every other draw is the last one.
pub proof fn law_draws_are_states(drawn: int, states: int)
    requires
        0 <= drawn,
        1 <= states,
    ensures
        0 <= state_for(drawn, states) < states,
        drawn < states ==> state_for(drawn, states) == drawn,
        drawn >= states ==> state_for(drawn, states) + 1 == states,
{
}

} // verus!
