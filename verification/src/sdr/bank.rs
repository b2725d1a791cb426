//! How a bank of memories is cut to size for an arm.

use vstd::prelude::*;

use crate::sdr::facts::same;

verus! {

/// The arms that are held against each other.
#[derive(Debug, PartialEq)]
pub enum ArmKind<L> {
    /// A ladder of eight rungs behind each weight.
    Ladder8,
    /// A ladder of four rungs behind each weight.
    Ladder4,
    /// A ladder of two rungs behind each weight.
    Ladder2,
    /// The weights alone.
    Plain,
    /// A linear model on the whole input trace: no projection, no sparse code.
    Linear,
    /// A linear model on the fastest rung of the input trace.
    LinearFast,
    /// An elastic penalty on the weights.
    ProximalEwc {
        /// Its strength.
        lambda: L,
    },
}

impl<L: Copy> Copy for ArmKind<L> {

}

impl<L: Copy> Clone for ArmKind<L> {
    fn clone(&self) -> (r: Self)
        ensures
            r == *self,
    {
        *self
    }
}

impl<L> ArmKind<L> {
    /// What the arm is called in a table, unless its strength belongs to the name.
    pub open spec fn label(&self) -> Option<Seq<char>> {
        match *self {
            ArmKind::Ladder8 => Some("Ladder-8 (m=8)"@),
            ArmKind::Ladder4 => Some("Ladder-4 (m=4)"@),
            ArmKind::Ladder2 => Some("Ladder-2 (m=2)"@),
            ArmKind::Plain => Some("Plain (m=1)"@),
            ArmKind::Linear => Some("Linear (no SDR)"@),
            ArmKind::LinearFast => Some("Linear-fast (rung 0)"@),
            ArmKind::ProximalEwc { lambda } => None,
        }
    }

    /// What the arm is called in a table, unless its strength belongs to the name.
    pub fn name(&self) -> (s: Option<&'static str>)
        ensures
            s is Some <==> self.label() is Some,
            s is Some ==> s->0@ == self.label()->0,
    {
        match self {
            ArmKind::Ladder8 => Some("Ladder-8 (m=8)"),
            ArmKind::Ladder4 => Some("Ladder-4 (m=4)"),
            ArmKind::Ladder2 => Some("Ladder-2 (m=2)"),
            ArmKind::Plain => Some("Plain (m=1)"),
            ArmKind::Linear => Some("Linear (no SDR)"),
            ArmKind::LinearFast => Some("Linear-fast (rung 0)"),
            ArmKind::ProximalEwc { .. } => None,
        }
    }

    /// What the arm is called in a file.
    pub fn short_name(&self) -> (s: &'static str)
        ensures
            s@ == match *self {
                ArmKind::Ladder8 => "ladder_8"@,
                ArmKind::Ladder4 => "ladder_4"@,
                ArmKind::Ladder2 => "ladder_2"@,
                ArmKind::Plain => "plain_m1"@,
                ArmKind::Linear => "linear"@,
                ArmKind::LinearFast => "linear_fast"@,
                ArmKind::ProximalEwc { lambda } => "proximal_ewc"@,
            },
    {
        match self {
            ArmKind::Ladder8 => "ladder_8",
            ArmKind::Ladder4 => "ladder_4",
            ArmKind::Ladder2 => "ladder_2",
            ArmKind::Plain => "plain_m1",
            ArmKind::Linear => "linear",
            ArmKind::LinearFast => "linear_fast",
            ArmKind::ProximalEwc { .. } => "proximal_ewc",
        }
    }

    /// Whether the arm is one of the linear models.
    pub open spec fn is_linear(&self) -> bool {
        *self is Linear || *self is LinearFast
    }

    /// Whether the arm is the elastic penalty.
    pub fn is_penalty(&self) -> (b: bool)
        ensures
            b == (*self is ProximalEwc),
    {
        match self {
            ArmKind::ProximalEwc { .. } => true,
            _ => false,
        }
    }

    /// How many rungs stand behind each weight, where it is a ladder.
    pub fn rungs(&self) -> (m: Option<usize>)
        ensures
            m == match *self {
                ArmKind::Ladder8 => Some(8usize),
                ArmKind::Ladder4 => Some(4usize),
                ArmKind::Ladder2 => Some(2usize),
                _ => None::<usize>,
            },
    {
        match self {
            ArmKind::Ladder8 => Some(8),
            ArmKind::Ladder4 => Some(4),
            ArmKind::Ladder2 => Some(2),
            _ => None,
        }
    }
}

/// The arms without a penalty, in the order they are reported.
pub fn base_arms<L>() -> (arms: Vec<ArmKind<L>>)
    ensures
        arms@ == seq![
            ArmKind::<L>::Ladder8,
            ArmKind::Ladder4,
            ArmKind::Ladder2,
            ArmKind::Plain,
            ArmKind::Linear,
            ArmKind::LinearFast,
        ],
{
    let mut arms: Vec<ArmKind<L>> = Vec::new();
    arms.push(ArmKind::Ladder8);
    arms.push(ArmKind::Ladder4);
    arms.push(ArmKind::Ladder2);
    arms.push(ArmKind::Plain);
    arms.push(ArmKind::Linear);
    arms.push(ArmKind::LinearFast);
    arms
}

/// The arm that a name means, where one arm is probed alone.
pub fn arm_named<L>(name: &str) -> (arm: ArmKind<L>)
    ensures
        arm == if name@ == "plain"@ {
            ArmKind::<L>::Plain
        } else if name@ == "ladder2"@ {
            ArmKind::Ladder2
        } else if name@ == "ladder8"@ {
            ArmKind::Ladder8
        } else {
            ArmKind::Ladder4
        },
{
    if same(name, "plain") {
        ArmKind::Plain
    } else if same(name, "ladder2") {
        ArmKind::Ladder2
    } else if same(name, "ladder8") {
        ArmKind::Ladder8
    } else {
        ArmKind::Ladder4
    }
}

/// The sizes that a bank is cut to.
#[derive(Clone, Copy, Debug)]
pub struct Sizes {
    /// Rungs of the input trace.
    pub m_in: usize,
    /// Width of a rung.
    pub d_input: usize,
    /// Columns of the sparse code.
    pub d_sdr: usize,
    /// How many of them are active.
    pub k_active: usize,
    /// Groups that the rungs are shared out to.
    pub experts: usize,
    /// Nodes of the memory on the edges; none if zero.
    pub edge_nodes: usize,
    /// Nodes of the memory in the nodes; none if zero.
    pub topo_nodes: usize,
    /// Whether the context turns the content.
    pub rotate: bool,
    /// Columns of the context axis; no such axis if zero.
    pub tensor_d2: usize,
    /// How many columns of the context axis are active.
    pub tensor_k2: usize,
    /// The rung where the context begins; the middle if zero.
    pub tensor_split: usize,
}

/// A number held between two others.
pub open spec fn clamped(x: int, lo: int, hi: int) -> int {
    if x < lo {
        lo
    } else if x > hi {
        hi
    } else {
        x
    }
}

/// A share of a number, at least one.
pub open spec fn share(x: int, n: int) -> int {
    if x / n < 1 {
        1
    } else {
        x / n
    }
}

/// A number held between two others.
fn clamp(x: usize, lo: usize, hi: usize) -> (r: usize)
    requires
        lo <= hi,
    ensures
        r == clamped(x as int, lo as int, hi as int),
{
    if x < lo {
        lo
    } else if x > hi {
        hi
    } else {
        x
    }
}

/// A share of a number, at least one.
fn share_of(x: usize, n: usize) -> (r: usize)
    requires
        n >= 1,
    ensures
        r == share(x as int, n as int),
        r >= 1,
{
    let q: usize = x / n;
    if q < 1 {
        1
    } else {
        q
    }
}

/// Where the `b`th of `n` groups of `m` rungs begins.
pub open spec fn group_start(b: int, m: int, n: int) -> int {
    b * m / n
}

/// The `n` groups of `m` rungs, each from its first rung to the one after its
/// last.
pub open spec fn groups_of(m: int, n: int) -> Seq<(usize, usize)> {
    Seq::new(
        n as nat,
        |b: int| (group_start(b, m, n) as usize, group_start(b + 1, m, n) as usize),
    )
}

/// The shape of a bank.
#[derive(Debug)]
pub enum BankShape {
    /// A memory on the edges of a graph.
    Edge,
    /// A memory in the nodes of a graph.
    Topo,
    /// A linear model on the first rungs.
    Linear {
        /// How many rungs it reads.
        rungs: usize,
        /// How wide its input is.
        dim: usize,
    },
    /// One sparse code of the content, turned by the context.
    Rotate {
        /// The rung where the context begins.
        split: usize,
        /// Width of the content.
        content: usize,
        /// Width of the context.
        context: usize,
    },
    /// A cell for every pair of a content column and a context column.
    Tensor {
        /// The rung where the context begins.
        split: usize,
        /// Width of the content.
        content: usize,
        /// Width of the context.
        context: usize,
        /// Columns of the content axis.
        d1: usize,
        /// Columns of the context axis.
        d2: usize,
        /// How many columns of the content axis are active.
        k1: usize,
        /// How many columns of the context axis are active.
        k2: usize,
        /// All cells.
        cells: usize,
    },
    /// A sparse code for each group of rungs.
    Experts {
        /// The groups.
        groups: Vec<(usize, usize)>,
        /// Columns of each code.
        width: usize,
        /// How many of them are active.
        active: usize,
    },
}

impl Sizes {
    /// There is a rung, and the whole trace can be counted.
    pub open spec fn wf(&self) -> bool {
        &&& self.m_in >= 1
        &&& self.m_in * self.d_input <= usize::MAX
    }

    /// How many groups the rungs are shared out to.
    pub open spec fn group_count(&self) -> int {
        clamped(self.experts as int, 1, self.m_in as int)
    }

    /// The rung where the context begins.
    pub open spec fn split(&self) -> int {
        clamped(
            if self.tensor_split == 0 {
                self.m_in as int / 2
            } else {
                self.tensor_split as int
            },
            1,
            self.m_in - 1,
        )
    }

    /// Columns of the content axis.
    pub open spec fn content_columns(&self) -> int {
        share(self.d_sdr as int, self.tensor_d2 as int)
    }

    /// How many columns of the context axis are active.
    pub open spec fn context_active(&self) -> int {
        clamped(self.tensor_k2 as int, 1, self.tensor_d2 as int)
    }

    /// How many columns of the content axis are active.
    pub open spec fn content_active(&self) -> int {
        clamped(
            share(self.k_active as int, self.context_active()),
            1,
            self.content_columns(),
        )
    }

    /// Whether a shape is the one that an arm is cut to.
    pub open spec fn fits<L>(&self, arm: ArmKind<L>, shape: BankShape) -> bool {
        if self.edge_nodes > 0 && !arm.is_linear() {
            shape is Edge
        } else if self.topo_nodes > 0 && !arm.is_linear() {
            shape is Topo
        } else if arm is LinearFast {
            shape == BankShape::Linear { rungs: 1, dim: self.d_input }
        } else if arm is Linear {
            shape == (BankShape::Linear {
                rungs: self.m_in,
                dim: (self.m_in * self.d_input) as usize,
            })
        } else if self.rotate {
            shape == (BankShape::Rotate {
                split: self.split() as usize,
                content: (self.split() * self.d_input) as usize,
                context: ((self.m_in - self.split()) * self.d_input) as usize,
            })
        } else if self.tensor_d2 > 0 {
            shape == (BankShape::Tensor {
                split: self.split() as usize,
                content: (self.split() * self.d_input) as usize,
                context: ((self.m_in - self.split()) * self.d_input) as usize,
                d1: self.content_columns() as usize,
                d2: self.tensor_d2,
                k1: self.content_active() as usize,
                k2: self.context_active() as usize,
                cells: (self.content_columns() * self.tensor_d2) as usize,
            })
        } else {
            &&& shape is Experts
            &&& shape->groups@ == groups_of(self.m_in as int, self.group_count())
            &&& shape->width == share(self.d_sdr as int, self.group_count())
            &&& shape->active == share(self.k_active as int, self.group_count())
        }
    }

    /// The rung where the context begins.
    fn split_at(&self) -> (s: usize)
        requires
            self.m_in >= 2,
        ensures
            s == self.split(),
            1 <= s < self.m_in,
    {
        let asked: usize = if self.tensor_split == 0 {
            self.m_in / 2
        } else {
            self.tensor_split
        };
        clamp(asked, 1, self.m_in - 1)
    }

    /// The groups that the rungs are shared out to.
    fn groups(&self, n: usize) -> (g: Vec<(usize, usize)>)
        requires
            self.wf(),
            n == self.group_count(),
        ensures
            g@ == groups_of(self.m_in as int, n as int),
    {
        let m: usize = self.m_in;
        let mut g: Vec<(usize, usize)> = Vec::new();
        let mut b: usize = 0;
        while b < n
            invariant
                1 <= n <= m,
                b <= n,
                g@ == groups_of(m as int, n as int).take(b as int),
            decreases n - b,
        {
            proof {
                lemma_groups_tile(m as int, n as int, b as int);
                assert(0 <= b * m <= (b + 1) * m <= n * m <= m * m) by (nonlinear_arith)
                    requires
                        0 <= b < n <= m,
                ;
                assert(m * m <= 0xffff_ffff_ffff_ffff * 0xffff_ffff_ffff_ffff) by (nonlinear_arith)
                    requires
                        0 <= m <= 0xffff_ffff_ffff_ffff,
                ;
            }
            let lo: usize = (b as u128 * m as u128 / n as u128) as usize;
            let hi: usize = ((b as u128 + 1) * m as u128 / n as u128) as usize;
            g.push((lo, hi));
            proof {
                assert(g@ =~= groups_of(m as int, n as int).take(b + 1));
            }
            b = b + 1;
        }
        proof {
            assert(groups_of(m as int, n as int).take(n as int) =~= groups_of(m as int, n as int));
        }
        g
    }

    /// The shape that an arm is cut to. Where the content and the context of a
    /// code are told apart there have to be two rungs.
    pub fn shape<L: Copy>(&self, arm: ArmKind<L>) -> (shape: BankShape)
        requires
            self.wf(),
            self.edge_nodes == 0 && self.topo_nodes == 0 && !arm.is_linear() && (self.rotate
                || self.tensor_d2 > 0) ==> self.m_in >= 2,
        ensures
            self.fits(arm, shape),
    {
        let linear: bool = match arm {
            ArmKind::Linear => true,
            ArmKind::LinearFast => true,
            _ => false,
        };
        if self.edge_nodes > 0 && !linear {
            return BankShape::Edge;
        }
        if self.topo_nodes > 0 && !linear {
            return BankShape::Topo;
        }
        if let ArmKind::LinearFast = arm {
            return BankShape::Linear { rungs: 1, dim: self.d_input };
        }
        if linear {
            return BankShape::Linear { rungs: self.m_in, dim: self.m_in * self.d_input };
        }
        if self.rotate || self.tensor_d2 > 0 {
            let split: usize = self.split_at();
            proof {
                let s = split as int;
                let m = self.m_in as int;
                let d = self.d_input as int;
                assert(0 <= s * d <= m * d && 0 <= (m - s) * d <= m * d) by (nonlinear_arith)
                    requires
                        0 <= s <= m,
                        0 <= d,
                ;
            }
            let content: usize = split * self.d_input;
            let context: usize = (self.m_in - split) * self.d_input;
            if self.rotate {
                return BankShape::Rotate { split, content, context };
            }
            let d2: usize = self.tensor_d2;
            let k2: usize = clamp(self.tensor_k2, 1, d2);
            let d1: usize = share_of(self.d_sdr, d2);
            let k1: usize = clamp(share_of(self.k_active, k2), 1, d1);
            proof {
                lemma_cells_fit(self.d_sdr as int, d2 as int);
            }
            return BankShape::Tensor {
                split,
                content,
                context,
                d1,
                d2,
                k1,
                k2,
                cells: d1 * d2,
            };
        }
        let n: usize = clamp(self.experts, 1, self.m_in);
        BankShape::Experts {
            groups: self.groups(n),
            width: share_of(self.d_sdr, n),
            active: share_of(self.k_active, n),
        }
    }
}

/// The two axes have no more cells than the flat code has columns, unless the
/// context axis alone has.
proof fn lemma_cells_fit(d: int, d2: int)
    requires
        0 <= d,
        1 <= d2,
    ensures
        share(d, d2) * d2 <= if d < d2 {
            d2
        } else {
            d
        },
        share(d, d2) * d2 >= d2,
{
    vstd::arithmetic::div_mod::lemma_fundamental_div_mod(d, d2);
    vstd::arithmetic::div_mod::lemma_mod_pos_bound(d, d2);
    let q = d / d2;
    assert(d2 * q == q * d2) by (nonlinear_arith);
    if q >= 1 {
        assert(q * d2 >= d2) by (nonlinear_arith)
            requires
                q >= 1,
                d2 >= 1,
        ;
    }
}

/// Each group begins where the one before ends, and none is empty.
proof fn lemma_groups_tile(m: int, n: int, b: int)
    requires
        1 <= n <= m,
        0 <= b < n,
    ensures
        0 <= group_start(b, m, n) < group_start(b + 1, m, n) <= m,
{
    assert(b * m >= 0 && b * m + n <= (b + 1) * m && (b + 1) * m <= n * m) by (nonlinear_arith)
        requires
            0 <= b < n <= m,
    ;
    vstd::arithmetic::div_mod::lemma_div_pos_is_pos(b * m, n);
    vstd::arithmetic::div_mod::lemma_div_is_ordered(b * m + n, (b + 1) * m, n);
    vstd::arithmetic::div_mod::lemma_div_is_ordered((b + 1) * m, n * m, n);
    vstd::arithmetic::div_mod::lemma_div_plus_one(b * m, n);
    vstd::arithmetic::div_mod::lemma_div_multiples_vanish(m, n);
    assert(n * m == m * n) by (nonlinear_arith);
}

/// The groups share out all rungs: the first begins with the first rung, each
/// begins where the one before ends, none is empty, and the last ends with the
/// last rung.
pub proof fn law_groups_share_out_the_rungs(m: int, n: int, b: int)
    requires
        1 <= n <= m <= usize::MAX,
        0 <= b < n,
    ensures
        groups_of(m, n)[0].0 == 0,
        groups_of(m, n)[n - 1].1 == m,
        groups_of(m, n)[b].0 < groups_of(m, n)[b].1 <= m,
        b + 1 < n ==> groups_of(m, n)[b].1 == groups_of(m, n)[b + 1].0,
{
    lemma_groups_tile(m, n, b);
    lemma_groups_tile(m, n, 0);
    lemma_groups_tile(m, n, n - 1);
    assert(0 * m == 0);
    vstd::arithmetic::div_mod::lemma_div_basics(n);
    vstd::arithmetic::div_mod::lemma_div_multiples_vanish(m, n);
    assert(n * m == m * n) by (nonlinear_arith);
}

/// One group is the whole trace, with the whole code to itself.
pub proof fn law_one_expert_is_the_whole_bank(m: int, d: int)
    requires
        1 <= m <= usize::MAX,
        1 <= d,
    ensures
        groups_of(m, 1) == seq![(0usize, m as usize)],
        share(d, 1) == d,
{
    assert(group_start(0, m, 1) == 0);
    assert(group_start(1, m, 1) == m);
    assert(groups_of(m, 1) =~= seq![(0usize, m as usize)]);
}

/// Where the parts come out even, every split has as many columns as the whole.
pub proof fn law_the_budget_is_fixed(d: int, n: int)
    requires
        1 <= n <= d,
        d % n == 0,
    ensures
        n * share(d, n) == d,
{
    vstd::arithmetic::div_mod::lemma_fundamental_div_mod(d, n);
    vstd::arithmetic::div_mod::lemma_div_is_ordered(n, d, n);
    vstd::arithmetic::div_mod::lemma_div_by_self(n);
}

/// The cell of a content column and a context column.
pub open spec fn cell(i: int, j: int, d2: int) -> int {
    i * d2 + j
}

/// Two pairs never share a cell, and every cell is one of the memory's.
pub proof fn law_pairs_have_their_own_cells(
    i: int,
    j: int,
    a: int,
    b: int,
    d1: int,
    d2: int,
)
    requires
        0 <= i < d1,
        0 <= a < d1,
        0 <= j < d2,
        0 <= b < d2,
    ensures
        0 <= cell(i, j, d2) < d1 * d2,
        cell(i, j, d2) == cell(a, b, d2) ==> i == a && j == b,
{
    assert(i * d2 >= 0 && i * d2 + d2 <= d1 * d2) by (nonlinear_arith)
        requires
            0 <= i < d1,
            0 < d2,
    ;
    if cell(i, j, d2) == cell(a, b, d2) {
        vstd::arithmetic::div_mod::lemma_fundamental_div_mod_converse(cell(i, j, d2), d2, i, j);
        vstd::arithmetic::div_mod::lemma_fundamental_div_mod_converse(cell(a, b, d2), d2, a, b);
    }
}

/// The cells of every pair of active columns.
pub open spec fn cells_of(content: Seq<usize>, context: Seq<usize>, d2: int) -> Seq<usize> {
    Seq::new(
        content.len() * context.len(),
        |p: int|
            cell(
                content[p / context.len() as int] as int,
                context[p % context.len() as int] as int,
                d2,
            ) as usize,
    )
}

/// The cells of every pair of active columns, content by content.
pub fn active_cells(content: &[usize], context: &[usize], d1: usize, d2: usize) -> (cells: Vec<
    usize,
>)
    requires
        d1 * d2 <= usize::MAX,
        forall|k: int| 0 <= k < content@.len() ==> (#[trigger] content@[k]) < d1,
        forall|k: int| 0 <= k < context@.len() ==> (#[trigger] context@[k]) < d2,
    ensures
        cells@ == cells_of(content@, context@, d2 as int),
{
    let n: usize = context.len();
    let mut cells: Vec<usize> = Vec::new();
    let mut i: usize = 0;
    while i < content.len()
        invariant
            n == context@.len(),
            d1 * d2 <= usize::MAX,
            forall|k: int| 0 <= k < content@.len() ==> (#[trigger] content@[k]) < d1,
            forall|k: int| 0 <= k < context@.len() ==> (#[trigger] context@[k]) < d2,
            i <= content@.len(),
            cells@.len() == i * n,
            forall|p: int|
                0 <= p < cells@.len() ==> cells@[p] == cell(
                    content@[p / n as int] as int,
                    context@[p % n as int] as int,
                    d2 as int,
                ),
        decreases content@.len() - i,
    {
        let mut j: usize = 0;
        while j < n
            invariant
                n == context@.len(),
                d1 * d2 <= usize::MAX,
                i < content@.len(),
                forall|k: int| 0 <= k < content@.len() ==> (#[trigger] content@[k]) < d1,
                forall|k: int| 0 <= k < context@.len() ==> (#[trigger] context@[k]) < d2,
                j <= n,
                cells@.len() == i * n + j,
                forall|p: int|
                    0 <= p < cells@.len() ==> cells@[p] == cell(
                        content@[p / n as int] as int,
                        context@[p % n as int] as int,
                        d2 as int,
                    ),
            decreases n - j,
        {
            let a: usize = content[i];
            let b: usize = context[j];
            proof {
                assert(content@[i as int] < d1);
                assert(context@[j as int] < d2);
                law_pairs_have_their_own_cells(
                    a as int,
                    b as int,
                    a as int,
                    b as int,
                    d1 as int,
                    d2 as int,
                );
                assert(0 <= a * d2) by (nonlinear_arith);
                vstd::arithmetic::div_mod::lemma_fundamental_div_mod_converse(
                    i * n + j,
                    n as int,
                    i as int,
                    j as int,
                );
            }
            cells.push(a * d2 + b);
            j = j + 1;
        }
        proof {
            assert(i * n + n == (i + 1) * n) by (nonlinear_arith);
        }
        i = i + 1;
    }
    proof {
        assert(cells@ =~= cells_of(content@, context@, d2 as int));
    }
    cells
}

/// How many facts are seen before a domain comes back, at least one.
pub fn facts_per_cycle(domains: usize, span: usize) -> (n: usize)
    requires
        domains * (span as int / 3) <= usize::MAX,
    ensures
        n == cycle_facts(domains as int, span as int),
{
    let n: usize = domains * (span / 3);
    if n < 1 {
        1
    } else {
        n
    }
}

/// A number held between two others is within them, and no number within them is
/// closer to the one that was asked for.
pub proof fn law_held_numbers_are_as_asked(x: int, lo: int, hi: int, other: int)
    requires
        lo <= other <= hi,
    ensures
        lo <= clamped(x, lo, hi) <= hi,
        x <= clamped(x, lo, hi) ==> clamped(x, lo, hi) <= other || other < x,
        x >= clamped(x, lo, hi) ==> clamped(x, lo, hi) >= other || other > x,
{
}

/// A share is what can be given to each of `n`: so many fit, one more each would
/// not, and nobody goes empty.
pub proof fn law_shares_are_fair(x: int, n: int)
    requires
        1 <= n,
        0 <= x,
    ensures
        share(x, n) >= 1,
        n <= x ==> n * share(x, n) <= x,
        x < n * (share(x, n) + 1),
{
    let q = x / n;
    vstd::arithmetic::div_mod::lemma_fundamental_div_mod(x, n);
    vstd::arithmetic::div_mod::lemma_mod_pos_bound(x, n);
    assert(n * (q + 1) == n * q + n && n * 2 == 2 * n) by (nonlinear_arith);
    if q < 1 {
        assert(n * q <= 0) by (nonlinear_arith)
            requires
                q <= 0,
                n >= 1,
        ;
    }
}

/// The groups are as even as they can be: each holds its share of the rungs to
/// within one.
pub proof fn law_groups_are_even(m: int, n: int, b: int)
    requires
        1 <= n <= m <= usize::MAX,
        0 <= b < n,
    ensures
        n * (groups_of(m, n)[b].1 - groups_of(m, n)[b].0) < m + n,
        n * (groups_of(m, n)[b].1 - groups_of(m, n)[b].0) > m - n,
        n * groups_of(m, n)[b].0 <= b * m,
{
    lemma_groups_tile(m, n, b);
    let (x, y) = (b * m, (b + 1) * m);
    assert(y == x + m) by (nonlinear_arith)
        requires
            x == b * m,
            y == (b + 1) * m,
    ;
    vstd::arithmetic::div_mod::lemma_fundamental_div_mod(x, n);
    vstd::arithmetic::div_mod::lemma_mod_pos_bound(x, n);
    vstd::arithmetic::div_mod::lemma_fundamental_div_mod(y, n);
    vstd::arithmetic::div_mod::lemma_mod_pos_bound(y, n);
    assert(n * (y / n - x / n) == n * (y / n) - n * (x / n)) by (nonlinear_arith);
}

/// What an arm is cut to: content and context share out the whole trace, in
/// halves unless a split is asked for; the two axes have the columns of the flat
/// code between them, as nearly as they come out, and as many active pairs as it
/// has active columns at most; a linear model reads the trace itself.
pub proof fn law_arms_use_the_whole_trace<L>(s: Sizes, arm: ArmKind<L>, shape: BankShape)
    requires
        s.wf(),
        s.fits(arm, shape),
        s.m_in >= 2,
    ensures
        shape is Edge ==> s.edge_nodes > 0,
        shape is Topo ==> s.topo_nodes > 0 && s.edge_nodes == 0,
        arm is Linear || arm is LinearFast <==> shape is Linear,
        arm is Linear ==> shape->Linear_rungs == s.m_in && shape->dim == s.m_in * s.d_input,
        arm is LinearFast ==> shape->Linear_rungs == 1 && shape->dim == s.d_input,
        shape is Rotate ==> s.rotate && shape->Rotate_content + shape->Rotate_context == s.m_in
            * s.d_input,
        shape is Rotate ==> 1 <= shape->Rotate_split < s.m_in && shape->Rotate_content
            == shape->Rotate_split * s.d_input,
        shape is Rotate && s.tensor_split == 0 ==> shape->Rotate_split * 2 <= s.m_in < 2 * (
        shape->Rotate_split + 1),
        shape is Rotate && 1 <= s.tensor_split < s.m_in ==> shape->Rotate_split == s.tensor_split,
        shape is Tensor ==> {
            let (d1, d2, k1, k2) = (shape->d1, shape->d2, shape->k1, shape->k2);
            &&& !s.rotate
            &&& d2 == s.tensor_d2
            &&& shape->Tensor_content + shape->Tensor_context == s.m_in * s.d_input
            &&& shape->Tensor_content == shape->Tensor_split * s.d_input
            &&& 1 <= shape->Tensor_split < s.m_in
            &&& s.tensor_split == 0 ==> shape->Tensor_split * 2 <= s.m_in < 2 * (
            shape->Tensor_split + 1)
            &&& 1 <= s.tensor_split < s.m_in ==> shape->Tensor_split == s.tensor_split
            &&& shape->cells == d1 * d2
            &&& d2 <= s.d_sdr ==> d1 * d2 <= s.d_sdr
            &&& s.d_sdr < d2 * (d1 + 1)
            &&& 1 <= k2 <= d2
            &&& 1 <= s.tensor_k2 <= d2 ==> k2 == s.tensor_k2
            &&& 1 <= k1 <= d1
            &&& k2 <= s.k_active ==> k2 * k1 <= s.k_active
            &&& k1 < d1 ==> s.k_active < k2 * (k1 + 1)
        },
        shape is Experts ==> {
            let n = shape->groups@.len() as int;
            &&& 1 <= n <= s.m_in
            &&& 1 <= s.experts <= s.m_in ==> n == s.experts
            &&& n <= s.d_sdr ==> n * shape->width <= s.d_sdr
            &&& s.d_sdr < n * (shape->width + 1)
            &&& n <= s.k_active ==> n * shape->active <= s.k_active
            &&& s.k_active < n * (shape->active + 1)
        },
{
    let p = s.split();
    let (m, d) = (s.m_in as int, s.d_input as int);
    assert(0 <= p * d && 0 <= (m - p) * d && p * d + (m - p) * d == m * d) by (nonlinear_arith)
        requires
            0 <= p <= m,
            0 <= d,
    ;
    assert(0 <= m * d <= usize::MAX);
    let n = s.group_count();
    law_shares_are_fair(s.d_sdr as int, n);
    law_shares_are_fair(s.k_active as int, n);
    lemma_share_fits(s.d_sdr as int, n);
    lemma_share_fits(s.k_active as int, n);
    if s.tensor_d2 > 0 {
        let d2 = s.tensor_d2 as int;
        let k2 = s.context_active();
        law_shares_are_fair(s.d_sdr as int, d2);
        law_shares_are_fair(s.k_active as int, k2);
        lemma_share_fits(s.d_sdr as int, d2);
        lemma_share_fits(s.k_active as int, k2);
        lemma_cells_fit(s.d_sdr as int, d2);
        let d1 = s.content_columns();
        let k1 = s.content_active();
        assert(d1 * d2 == d2 * d1) by (nonlinear_arith);
        let full = share(s.k_active as int, k2);
        assert(k2 * k1 <= k2 * full) by (nonlinear_arith)
            requires
                k1 <= full,
                k2 >= 1,
        ;
    }
}

/// A share is no more than there is, or one.
proof fn lemma_share_fits(x: int, n: int)
    requires
        1 <= n,
        0 <= x <= usize::MAX,
    ensures
        share(x, n) <= usize::MAX,
{
    vstd::arithmetic::div_mod::lemma_div_is_ordered_by_denominator(x, 1, n);
}

/// Every pair of an active content column and an active context column has its
/// cell active, content by content: the cell that is as many rows in as the one
/// column's number and as many places on as the other's.
pub proof fn law_active_pairs_have_active_cells(
    content: Seq<usize>,
    context: Seq<usize>,
    d1: int,
    d2: int,
    i: int,
    j: int,
)
    requires
        0 <= i < content.len(),
        0 <= j < context.len(),
        0 < d1,
        0 < d2,
        d1 * d2 <= usize::MAX,
        content[i] < d1,
        context[j] < d2,
    ensures
        cells_of(content, context, d2).len() == content.len() * context.len(),
        0 <= i * context.len() + j < content.len() * context.len(),
        cells_of(content, context, d2)[i * context.len() + j] as int / d2 == content[i],
        cells_of(content, context, d2)[i * context.len() + j] as int % d2 == context[j],
{
    let n = context.len() as int;
    law_pairs_have_their_own_cells(
        content[i] as int,
        context[j] as int,
        content[i] as int,
        context[j] as int,
        d1,
        d2,
    );
    let p = i * n + j;
    vstd::arithmetic::div_mod::lemma_fundamental_div_mod_converse(p, n, i, j);
    assert(0 <= p < content.len() * n) by (nonlinear_arith)
        requires
            0 <= i < content.len(),
            0 <= j < n,
            p == i * n + j,
    ;
    let c = cell(content[i] as int, context[j] as int, d2);
    vstd::arithmetic::div_mod::lemma_fundamental_div_mod_converse(
        c,
        d2,
        content[i] as int,
        context[j] as int,
    );
}

/// How many facts are seen before a domain comes back, at least one.
pub open spec fn cycle_facts(domains: int, span: int) -> int {
    if domains * (span / 3) < 1 {
        1
    } else {
        domains * (span / 3)
    }
}

/// One more domain adds the facts of one visit to a cycle, and a visit has a fact
/// for every three of its tokens.
pub proof fn law_cycles_add_up(domains: int, span: int)
    requires
        1 <= domains,
        3 <= span,
    ensures
        3 * cycle_facts(1, span) <= span < 3 * cycle_facts(1, span) + 3,
        cycle_facts(domains + 1, span) == cycle_facts(domains, span) + cycle_facts(1, span),
{
    let v = span / 3;
    assert((domains + 1) * v == domains * v + v && 1 * v == v) by (nonlinear_arith);
    assert(domains * v >= 1) by (nonlinear_arith)
        requires
            domains >= 1,
            v >= 1,
    ;
}

} // verus!
