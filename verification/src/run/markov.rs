//! A fixed random Markov chain of any order.

use vstd::arithmetic::power::{lemma_pow_increases, lemma_pow_positive, pow};
use vstd::prelude::*;

verus! {

/// `base` to the power `k`, where that can be counted.
pub fn power(base: usize, k: usize) -> (r: Option<usize>)
    ensures
        r is Some <==> pow(base as int, k as nat) <= usize::MAX,
        r is Some ==> r->0 == pow(base as int, k as nat),
{
    reveal(pow);
    if base == 0 && k > 0 {
        return Some(0);
    }
    let mut r: usize = 1;
    let mut i: usize = 0;
    while i < k
        invariant
            i <= k,
            base >= 1 || k == 0,
            r == pow(base as int, i as nat),
            r >= 1,
        decreases k - i,
    {
        proof {
            reveal(pow);
            assert(pow(base as int, (i + 1) as nat) == base * r);
            lemma_pow_increases(base as nat, (i + 1) as nat, k as nat);
            assert(base * r >= 0) by (nonlinear_arith);
        }
        if r > usize::MAX / base {
            proof {
                assert(base * r > usize::MAX) by (nonlinear_arith)
                    requires
                        r > usize::MAX as int / base as int,
                        base >= 1,
                ;
            }
            return None;
        }
        proof {
            assert(base * r <= usize::MAX) by (nonlinear_arith)
                requires
                    r <= usize::MAX as int / base as int,
                    base >= 1,
            ;
            assert(base * r >= 1) by (nonlinear_arith)
                requires
                    r >= 1,
                    base >= 1,
            ;
        }
        r = base * r;
        i = i + 1;
    }
    Some(r)
}

/// The context reached by appending a token and dropping the oldest.
pub open spec fn shifted(context: int, vocab: int, contexts: int, next: int) -> int {
    (context * vocab + next) % contexts
}

/// A shift needs no more room than a context.
proof fn lemma_shift(context: int, vocab: int, shorter: int, next: int)
    requires
        vocab > 0,
        shorter > 0,
        0 <= context < vocab * shorter,
        0 <= next < vocab,
    ensures
        shifted(context, vocab, vocab * shorter, next) == (context % shorter) * vocab + next,
        0 <= (context % shorter) * vocab + next < vocab * shorter,
{
    let q = context / shorter;
    let r = context % shorter;
    vstd::arithmetic::div_mod::lemma_fundamental_div_mod(context, shorter);
    vstd::arithmetic::div_mod::lemma_mod_pos_bound(context, shorter);
    let x = r * vocab + next;
    assert(0 <= x < vocab * shorter) by (nonlinear_arith)
        requires
            0 <= r < shorter,
            0 <= next < vocab,
            x == r * vocab + next,
    ;
    assert(context * vocab + next == (vocab * shorter) * q + x) by (nonlinear_arith)
        requires
            context == shorter * q + r,
            x == r * vocab + next,
    ;
    vstd::arithmetic::div_mod::lemma_mod_multiples_vanish(q, x, vocab * shorter);
    vstd::arithmetic::div_mod::lemma_small_mod(x as nat, (vocab * shorter) as nat);
}

/// The tokens that may follow a context, drawn without repeats.
pub struct Fanout {
    to: Vec<u32>,
}

impl View for Fanout {
    type V = Seq<u32>;

    closed spec fn view(&self) -> Seq<u32> {
        self.to@
    }
}

impl Fanout {
    /// Nothing drawn yet.
    pub fn new() -> (f: Self)
        ensures
            f@ == Seq::<u32>::empty(),
    {
        Fanout { to: Vec::new() }
    }

    /// How many tokens are drawn.
    pub fn len(&self) -> (n: usize)
        ensures
            n == self@.len(),
    {
        self.to.len()
    }

    /// Takes a drawn token, unless it is there already.
    pub fn offer(&mut self, candidate: u32)
        requires
            old(self)@.no_duplicates(),
        ensures
            final(self)@ == if old(self)@.contains(candidate) {
                old(self)@
            } else {
                old(self)@.push(candidate)
            },
            final(self)@.no_duplicates(),
    {
        let mut k: usize = 0;
        while k < self.to.len()
            invariant
                k <= self.to@.len(),
                self.to@ == old(self).to@,
                self.to@.no_duplicates(),
                forall|j: int| 0 <= j < k ==> self.to@[j] != candidate,
            decreases self.to@.len() - k,
        {
            if self.to[k] == candidate {
                assert(old(self)@.contains(candidate));
                return ;
            }
            k = k + 1;
        }
        self.to.push(candidate);
    }

    /// The tokens drawn.
    pub fn into_vec(self) -> (v: Vec<u32>)
        ensures
            v@ == self@,
    {
        self.to
    }
}

/// Whether `rows` lists, for each context, `fanout` different tokens that may
/// follow it.
pub open spec fn rows_ok(rows: Seq<Vec<u32>>, vocab: int, fanout: int) -> bool {
    forall|c: int|
        0 <= c < rows.len() ==> {
            let row = (#[trigger] rows[c])@;
            &&& row.len() == fanout
            &&& row.no_duplicates()
            &&& forall|k: int| 0 <= k < row.len() ==> row[k] < vocab
        }
}

/// A fixed Markov chain, sparse enough to have a low entropy rate.
pub struct MarkovSource {
    vocab: usize,
    fanout: usize,
    /// Contexts of all but the oldest token.
    shorter: usize,
    successors: Vec<Vec<u32>>,
    context: usize,
}

impl MarkovSource {
    /// How many tokens there are.
    pub closed spec fn alphabet(&self) -> int {
        self.vocab as int
    }

    /// How many tokens may follow a context.
    pub closed spec fn spread(&self) -> int {
        self.fanout as int
    }

    /// The tokens that may follow each context.
    pub closed spec fn rows(&self) -> Seq<Vec<u32>> {
        self.successors@
    }

    /// The context the chain is in: the last tokens, most recent in the lowest
    /// digit.
    pub closed spec fn at(&self) -> int {
        self.context as int
    }

    /// The chain is in one of its contexts, and each has its successors.
    pub closed spec fn wf(&self) -> bool {
        &&& 1 <= self.fanout < self.vocab
        &&& self.shorter > 0
        &&& self.successors@.len() == self.vocab * self.shorter
        &&& self.context < self.successors@.len()
        &&& rows_ok(self.successors@, self.vocab as int, self.fanout as int)
    }

    /// A chain of an order over `vocab` tokens that starts in context zero. For
    /// each of the `vocab^order` contexts `rows` holds `fanout` different
    /// tokens, a proper subset of the vocabulary.
    pub fn new(vocab: usize, order: usize, fanout: usize, rows: Vec<Vec<u32>>) -> (s: Self)
        requires
            order >= 1,
            1 <= fanout < vocab,
            rows@.len() == pow(vocab as int, order as nat),
            rows_ok(rows@, vocab as int, fanout as int),
        ensures
            s.wf(),
            s.alphabet() == vocab,
            s.spread() == fanout,
            s.rows() == rows@,
            s.at() == 0,
    {
        let n: usize = rows.len();
        proof {
            reveal(pow);
            assert(pow(vocab as int, order as nat) == vocab * pow(
                vocab as int,
                (order - 1) as nat,
            ));
            lemma_pow_positive(vocab as int, (order - 1) as nat);
            let m = pow(vocab as int, (order - 1) as nat);
            assert(n as int / vocab as int == m) by (nonlinear_arith)
                requires
                    n == vocab * m,
                    vocab > 0,
            ;
            assert(vocab * m >= 1) by (nonlinear_arith)
                requires
                    vocab >= 1,
                    m >= 1,
            ;
        }
        MarkovSource { vocab, fanout, shorter: n / vocab, successors: rows, context: 0 }
    }

    /// The context the chain is in.
    pub fn context(&self) -> (c: usize)
        requires
            self.wf(),
        ensures
            c == self.at(),
            c < self.rows().len(),
    {
        self.context
    }

    /// How many contexts there are.
    pub fn contexts(&self) -> (n: usize)
        ensures
            n == self.rows().len(),
    {
        self.successors.len()
    }

    /// The tokens that may follow a context.
    pub fn successors(&self, context: usize) -> (to: &[u32])
        requires
            self.wf(),
            context < self.rows().len(),
        ensures
            to@ == self.rows()[context as int]@,
            to@.len() == self.spread(),
    {
        self.successors[context].as_slice()
    }

    /// The context reached by appending `next` and dropping the oldest token.
    pub fn shift(&self, context: usize, next: u32) -> (c: usize)
        requires
            self.wf(),
            context < self.rows().len(),
            next < self.alphabet(),
        ensures
            c == shifted(
                context as int,
                self.alphabet(),
                self.rows().len() as int,
                next as int,
            ),
            c < self.rows().len(),
    {
        proof {
            assert(self.successors@.len() == self.successors.len());
            lemma_shift(context as int, self.vocab as int, self.shorter as int, next as int);
            let r = context as int % self.shorter as int;
            assert(0 <= r * self.vocab) by (nonlinear_arith)
                requires
                    0 <= r,
            ;
        }
        (context % self.shorter) * self.vocab + next as usize
    }

    /// Emits the successor drawn, and moves on.
    pub fn next(&mut self, pick: usize) -> (token: u32)
        requires
            old(self).wf(),
            pick < old(self).spread(),
        ensures
            final(self).wf(),
            final(self).alphabet() == old(self).alphabet(),
            final(self).spread() == old(self).spread(),
            final(self).rows() == old(self).rows(),
            token == old(self).rows()[old(self).at()]@[pick as int],
            token < old(self).alphabet(),
            final(self).at() == shifted(
                old(self).at(),
                old(self).alphabet(),
                old(self).rows().len() as int,
                token as int,
            ),
    {
        let token: u32 = self.successors[self.context][pick];
        self.context = self.shift(self.context, token);
        token
    }
}

/// The context after some tokens, from context zero.
pub open spec fn context_after(vocab: int, contexts: int, tokens: Seq<u32>) -> int
    decreases tokens.len(),
{
    if tokens.len() == 0 {
        0
    } else {
        shifted(
            context_after(vocab, contexts, tokens.drop_last()),
            vocab,
            contexts,
            tokens.last() as int,
        )
    }
}

/// Tokens read as the digits of a number, the last one lowest.
pub open spec fn number(vocab: int, tokens: Seq<u32>) -> int
    decreases tokens.len(),
{
    if tokens.len() == 0 {
        0
    } else {
        number(vocab, tokens.drop_last()) * vocab + tokens.last()
    }
}

proof fn lemma_context_is_remainder(vocab: int, contexts: int, tokens: Seq<u32>)
    requires
        contexts > 0,
    ensures
        context_after(vocab, contexts, tokens) == number(vocab, tokens) % contexts,
    decreases tokens.len(),
{
    if tokens.len() == 0 {
        vstd::arithmetic::div_mod::lemma_small_mod(0, contexts as nat);
    } else {
        let head = tokens.drop_last();
        lemma_context_is_remainder(vocab, contexts, head);
        let x = number(vocab, head);
        let t = tokens.last() as int;
        vstd::arithmetic::div_mod::lemma_mul_mod_noop_left(x, vocab, contexts);
        vstd::arithmetic::div_mod::lemma_add_mod_noop(x * vocab, t, contexts);
        vstd::arithmetic::div_mod::lemma_add_mod_noop((x % contexts) * vocab, t, contexts);
    }
}

proof fn lemma_number_bound(vocab: int, tokens: Seq<u32>)
    requires
        vocab > 0,
        forall|k: int| 0 <= k < tokens.len() ==> tokens[k] < vocab,
    ensures
        0 <= number(vocab, tokens) < pow(vocab, tokens.len()),
    decreases tokens.len(),
{
    reveal(pow);
    if tokens.len() > 0 {
        let head = tokens.drop_last();
        lemma_number_bound(vocab, head);
        let x = number(vocab, head);
        let p = pow(vocab, head.len());
        assert(0 <= x * vocab + tokens.last() < vocab * p) by (nonlinear_arith)
            requires
                0 <= x < p,
                0 <= tokens.last() < vocab,
        ;
    }
}

proof fn lemma_number_split(vocab: int, a: Seq<u32>, b: Seq<u32>)
    ensures
        number(vocab, a + b) == number(vocab, a) * pow(vocab, b.len()) + number(vocab, b),
    decreases b.len(),
{
    reveal(pow);
    if b.len() == 0 {
        assert(a + b =~= a);
        assert(number(vocab, a) * 1 == number(vocab, a)) by (nonlinear_arith);
    } else {
        let head = b.drop_last();
        lemma_number_split(vocab, a, head);
        assert((a + b).drop_last() =~= a + head);
        assert((a + b).last() == b.last());
        let (x, y, p) = (number(vocab, a), number(vocab, head), pow(vocab, head.len()));
        assert((x * p + y) * vocab == x * (vocab * p) + y * vocab) by (nonlinear_arith);
    }
}

/// Once the chain has emitted `order` tokens, its context is those tokens and
/// nothing before them matters.
pub proof fn law_context_is_the_last_tokens(vocab: int, order: nat, earlier: Seq<u32>, last: Seq<u32>)
    requires
        vocab > 0,
        last.len() == order,
        forall|k: int| 0 <= k < last.len() ==> last[k] < vocab,
    ensures
        context_after(vocab, pow(vocab, order), earlier + last) == number(vocab, last),
{
    let m = pow(vocab, order);
    lemma_pow_positive(vocab, order);
    lemma_context_is_remainder(vocab, m, earlier + last);
    lemma_number_split(vocab, earlier, last);
    lemma_number_bound(vocab, last);
    let (x, y) = (number(vocab, earlier), number(vocab, last));
    assert(x * m + y == m * x + y) by (nonlinear_arith);
    vstd::arithmetic::div_mod::lemma_mod_multiples_vanish(x, y, m);
    vstd::arithmetic::div_mod::lemma_small_mod(y as nat, m as nat);
}

} // verus!
