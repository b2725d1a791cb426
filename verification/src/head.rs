//! The shape of a readout head: its sizes, its groups of hidden units, and who
//! uses them.

use vstd::prelude::*;

use crate::rank::as_ints;
use crate::rank::rank_ids;
use crate::rank::ranking;

verus! {

/// A head of one hidden layer whose units are shared out to experts.
#[derive(Clone, Copy, Debug)]
pub struct HeadShape {
    in_dim: usize,
    hidden: usize,
    vocab: usize,
    experts: usize,
    gate: usize,
}

impl HeadShape {
    /// Width of the input.
    pub closed spec fn inputs(&self) -> int {
        self.in_dim as int
    }

    /// Hidden units.
    pub closed spec fn units(&self) -> int {
        self.hidden as int
    }

    /// Tokens.
    pub closed spec fn tokens(&self) -> int {
        self.vocab as int
    }

    /// Experts.
    pub closed spec fn groups(&self) -> int {
        self.experts as int
    }

    /// How many inputs the router reads.
    pub closed spec fn reads(&self) -> int {
        self.gate as int
    }

    /// There is something of everything, and the units can be shared out evenly.
    pub open spec fn can_be(in_dim: int, hidden: int, vocab: int, experts: int) -> bool {
        &&& in_dim >= 1
        &&& hidden >= 1
        &&& vocab >= 1
        &&& experts >= 1
        &&& hidden % experts == 0
    }

    /// The sizes are possible, and the router reads some of the input.
    pub open spec fn wf(&self) -> bool {
        &&& HeadShape::can_be(self.inputs(), self.units(), self.tokens(), self.groups())
        &&& 1 <= self.reads() <= self.inputs()
    }

    /// A head whose router reads everything, if there can be one.
    pub fn routed(in_dim: usize, hidden: usize, vocab: usize, experts: usize) -> (h: Option<Self>)
        ensures
            h is Some <==> HeadShape::can_be(
                in_dim as int,
                hidden as int,
                vocab as int,
                experts as int,
            ),
            h is Some ==> {
                &&& h->0.wf()
                &&& h->0.inputs() == in_dim
                &&& h->0.units() == hidden
                &&& h->0.tokens() == vocab
                &&& h->0.groups() == experts
                &&& h->0.reads() == in_dim
            },
    {
        if in_dim >= 1 && hidden >= 1 && vocab >= 1 && experts >= 1 && hidden % experts == 0 {
            Some(HeadShape { in_dim, hidden, vocab, experts, gate: in_dim })
        } else {
            None
        }
    }

    /// Restricts the router to the first inputs.
    pub fn set_gate_width(&mut self, w: usize)
        requires
            old(self).wf(),
            1 <= w <= old(self).inputs(),
        ensures
            final(self).wf(),
            final(self).reads() == w,
            final(self).inputs() == old(self).inputs(),
            final(self).units() == old(self).units(),
            final(self).tokens() == old(self).tokens(),
            final(self).groups() == old(self).groups(),
    {
        self.gate = w;
    }

    /// How many inputs the router reads.
    pub fn gate_width(&self) -> (w: usize)
        ensures
            w == self.reads(),
    {
        self.gate
    }

    /// Width of the input.
    pub fn in_dim(&self) -> (n: usize)
        ensures
            n == self.inputs(),
    {
        self.in_dim
    }

    /// Hidden units.
    pub fn hidden(&self) -> (n: usize)
        ensures
            n == self.units(),
    {
        self.hidden
    }

    /// Tokens.
    pub fn vocab(&self) -> (n: usize)
        ensures
            n == self.tokens(),
    {
        self.vocab
    }

    /// Experts.
    pub fn experts(&self) -> (n: usize)
        ensures
            n == self.groups(),
    {
        self.experts
    }

    /// All weights and biases.
    pub open spec fn size(&self) -> int {
        head_size(self.inputs(), self.units(), self.tokens())
    }

    /// All weights and biases.
    pub fn parameters(&self) -> (n: usize)
        requires
            self.wf(),
            self.size() <= usize::MAX,
        ensures
            n == self.size(),
    {
        proof {
            assert(self.hidden * self.in_dim >= 0 && self.vocab * self.hidden >= 0)
                by (nonlinear_arith);
        }
        self.hidden * self.in_dim + self.hidden + self.vocab * self.hidden + self.vocab
    }

    /// The first unit of an expert.
    pub open spec fn group_start(&self, expert: int) -> int {
        expert * (self.units() / self.groups())
    }

    /// The units of an expert, from the first to the one after the last.
    pub fn group(&self, expert: usize) -> (g: (usize, usize))
        requires
            self.wf(),
            expert < self.groups(),
        ensures
            g.0 == self.group_start(expert as int),
            g.1 == self.group_start(expert + 1),
            g.0 < g.1 <= self.units(),
    {
        proof {
            law_experts_share_out_the_units(*self, expert as int);
        }
        let size: usize = self.hidden / self.experts;
        let lo: usize = expert * size;
        proof {
            assert(expert * size + size == (expert + 1) * size) by (nonlinear_arith);
        }
        (lo, lo + size)
    }
}

/// Every unit belongs to one expert: the first expert's begin with the first,
/// each expert's begin where the one before ends, none has none, and the last
/// one's end with the last.
pub proof fn law_experts_share_out_the_units(h: HeadShape, expert: int)
    requires
        h.wf(),
        0 <= expert < h.groups(),
    ensures
        h.group_start(0) == 0,
        h.group_start(h.groups()) == h.units(),
        0 <= h.group_start(expert) < h.group_start(expert + 1) <= h.units(),
{
    let u = h.units();
    let n = h.groups();
    let size = u / n;
    vstd::arithmetic::div_mod::lemma_fundamental_div_mod(u, n);
    assert(n * size == u);
    assert(size >= 1) by (nonlinear_arith)
        requires
            n * size == u,
            u >= 1,
            n >= 1,
    ;
    assert(0 <= expert * size && expert * size + size == (expert + 1) * size && (expert + 1) * size
        <= n * size) by (nonlinear_arith)
        requires
            0 <= expert < n,
            size >= 1,
    ;
}

/// How often each expert was used.
#[derive(Debug)]
pub struct Usage {
    /// By expert.
    pub counts: Vec<u64>,
}

impl Usage {
    /// No expert used yet.
    pub fn new(experts: usize) -> (u: Self)
        ensures
            u.counts@ == Seq::new(experts as nat, |e: int| 0u64),
    {
        let counts: Vec<u64> = vec![0u64; experts];
        proof {
            assert(counts@ =~= Seq::new(experts as nat, |e: int| 0u64));
        }
        Usage { counts }
    }

    /// Counts a use.
    pub fn note(&mut self, expert: usize)
        requires
            expert < old(self).counts@.len(),
            old(self).counts@[expert as int] < u64::MAX,
        ensures
            final(self).counts@ == old(self).counts@.update(
                expert as int,
                (old(self).counts@[expert as int] + 1) as u64,
            ),
    {
        let was: u64 = self.counts[expert];
        self.counts.set(expert, was + 1);
    }

    /// The experts, most used first.
    pub fn most_used(&self) -> (order: Vec<usize>)
        ensures
            as_ints(order@) == ranking(self.counts@, 0),
    {
        rank_ids(self.counts.as_slice(), 0)
    }
}

/// Which tenth of a stream is charged: what is past the last counts for it.
pub fn charged_decile(decile: usize) -> (d: usize)
    ensures
        d == charged(decile as int),
        d < 10,
{
    if decile < 9 {
        decile
    } else {
        9
    }
}

/// The weights and biases of a head of one hidden layer.
pub open spec fn head_size(inputs: int, units: int, tokens: int) -> int {
    units * inputs + units + tokens * units + tokens
}

/// What a head takes: one more unit takes a weight from every input, one to every
/// token and a bias; one more token takes a weight from every unit and a bias;
/// one more input takes a weight to every unit; and of nothing there is nothing.
pub proof fn law_heads_grow_by_their_weights(inputs: int, units: int, tokens: int)
    ensures
        head_size(inputs, 0, 0) == 0,
        head_size(inputs, units + 1, tokens) == head_size(inputs, units, tokens) + inputs + 1
            + tokens,
        head_size(inputs, units, tokens + 1) == head_size(inputs, units, tokens) + units + 1,
        head_size(inputs + 1, units, tokens) == head_size(inputs, units, tokens) + units,
{
    assert((units + 1) * inputs == units * inputs + inputs && tokens * (units + 1) == tokens * units
        + tokens && (tokens + 1) * units == tokens * units + units && units * (inputs + 1) == units
        * inputs + units && 0 * inputs == 0 && 0 * 0 == 0) by (nonlinear_arith);
}

/// All experts have equally many units, one expert after the other.
pub proof fn law_experts_are_even(h: HeadShape, expert: int)
    requires
        h.wf(),
        0 <= expert < h.groups(),
    ensures
        h.groups() * (h.group_start(expert + 1) - h.group_start(expert)) == h.units(),
        h.groups() * h.group_start(expert) == expert * h.units(),
{
    let (u, n) = (h.units(), h.groups());
    let size = u / n;
    vstd::arithmetic::div_mod::lemma_fundamental_div_mod(u, n);
    assert((expert + 1) * size == expert * size + size) by (nonlinear_arith);
    assert(n * (expert * size) == expert * (n * size)) by (nonlinear_arith);
}

/// Which tenth of a stream is charged.
pub open spec fn charged(decile: int) -> int {
    if decile < 9 {
        decile
    } else {
        9
    }
}

/// Every tenth is charged to itself, and what is past the last of ten to that.
pub proof fn law_the_last_tenth_takes_the_rest(decile: int)
    requires
        0 <= decile,
    ensures
        decile < 10 ==> charged(decile) == decile,
        decile >= 10 ==> charged(decile) == charged(decile - 1),
{
}

} // verus!
