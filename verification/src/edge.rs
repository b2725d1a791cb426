//! Memory on the edges of a fixed ring, addressed by a path and a class.
//!
//! Routing is stateless: every node's edges are fixed at construction, so a
//! fact always walks the same path. What the classes hold lies class by class,
//! so a new class is a pure append.

pub mod growth;
pub mod slices;
pub mod store;
pub mod tally;

use crate::ring::{build_edges, draws_of, edges_ok, ints, out_edges};
use vstd::prelude::*;

verus! {

/// How many edges the first `i` nodes have.
pub open spec fn edges_before(edges: Seq<Seq<int>>, i: int) -> int
    decreases i,
{
    if i <= 0 {
        0
    } else {
        edges_before(edges, i - 1) + edges[i - 1].len()
    }
}

/// Small-world ring. Fixed for the run: a topology that rewired while the
/// memory was being read would move a fact's address out from under it.
#[derive(Clone, Debug)]
pub struct Ring {
    edges: Vec<Vec<usize>>,
    /// Global index of each node's first edge, so an edge can own parameters.
    first_id: Vec<usize>,
    n_edges: usize,
}

impl View for Ring {
    type V = Seq<Seq<int>>;

    /// The out-edges of each node.
    closed spec fn view(&self) -> Seq<Seq<int>> {
        self.edges@.map_values(|e: Vec<usize>| ints(e@))
    }
}

impl Ring {
    /// The edges are those of a ring, and they are numbered one after another.
    pub closed spec fn wf(&self) -> bool {
        &&& self@.len() >= 4
        &&& forall|i: int|
            0 <= i < self@.len() ==> edges_ok(self@.len() as int, i, #[trigger] self@[i])
        &&& self.first_id@.len() == self.edges@.len()
        &&& forall|i: int|
            0 <= i < self@.len() ==> #[trigger] self.first_id@[i] == edges_before(self@, i)
        &&& self.n_edges == edges_before(self@, self@.len() as int)
    }

    /// A ring of `n` nodes with up to `shortcuts` further edges from each. The
    /// draws, `shortcuts` for each node in turn, lie below `n / 2`.
    pub fn new(n: usize, shortcuts: usize, draws: &[usize]) -> (ring: Self)
        requires
            n >= 4,
            draws@.len() == n * shortcuts,
            n * (shortcuts + 2) <= usize::MAX,
            forall|k: int| 0 <= k < draws@.len() ==> draws@[k] < n / 2,
        ensures
            ring.wf(),
            ring@ == Seq::new(
                n as nat,
                |i: int| out_edges(n as int, i, draws_of(draws@, shortcuts as int, i)),
            ),
    {
        let mut edges: Vec<Vec<usize>> = Vec::new();
        let mut first_id: Vec<usize> = Vec::new();
        let mut next: usize = 0;
        let mut i: usize = 0;
        let mut from: usize = 0;
        let ghost want = Seq::new(
            n as nat,
            |i: int| out_edges(n as int, i, draws_of(draws@, shortcuts as int, i)),
        );
        proof {
            assert(2 * n <= usize::MAX) by (nonlinear_arith)
                requires
                    n * (shortcuts + 2) <= usize::MAX,
            ;
        }
        while i < n
            invariant
                n >= 4,
                2 * n <= usize::MAX,
                i <= n,
                from == i * shortcuts,
                draws@.len() == n * shortcuts,
                n * (shortcuts + 2) <= usize::MAX,
                forall|k: int| 0 <= k < draws@.len() ==> draws@[k] < n / 2,
                want == Seq::new(
                    n as nat,
                    |i: int| out_edges(n as int, i, draws_of(draws@, shortcuts as int, i)),
                ),
                edges@.len() == i,
                first_id@.len() == i,
                forall|j: int| 0 <= j < i ==> ints((#[trigger] edges@[j])@) == want[j],
                forall|j: int| 0 <= j < i ==> edges_ok(n as int, j, #[trigger] want[j]),
                forall|j: int| 0 <= j < i ==> #[trigger] first_id@[j] == edges_before(want, j),
                next == edges_before(want, i as int),
                next <= i * (shortcuts + 2),
            decreases n - i,
        {
            proof {
                assert((i + 1) * shortcuts == from + shortcuts) by (nonlinear_arith)
                    requires
                        from == i * shortcuts,
                ;
                assert((i + 1) * shortcuts <= n * shortcuts) by (nonlinear_arith)
                    requires
                        i + 1 <= n,
                ;
                assert(n * shortcuts <= n * (shortcuts + 2)) by (nonlinear_arith);
                assert((i + 1) * (shortcuts + 2) == i * (shortcuts + 2) + shortcuts + 2)
                    by (nonlinear_arith);
                assert((i + 1) * (shortcuts + 2) <= n * (shortcuts + 2)) by (nonlinear_arith)
                    requires
                        i + 1 <= n,
                ;
            }
            let e = build_edges(n, i, draws, from, from + shortcuts);
            proof {
                assert(ints(e@) == want[i as int]);
                assert(ints(e@).len() == e@.len());
            }
            first_id.push(next);
            next = next + e.len();
            edges.push(e);
            from = from + shortcuts;
            i = i + 1;
        }
        let ring = Ring { edges, first_id, n_edges: next };
        assert(ring@ =~= want);
        ring
    }

    /// How many edges there are.
    pub fn n_edges(&self) -> (n: usize)
        requires
            self.wf(),
        ensures
            n == edges_before(self@, self@.len() as int),
    {
        self.n_edges
    }

    /// How many nodes there are.
    pub fn nodes(&self) -> (n: usize)
        requires
            self.wf(),
        ensures
            n == self@.len(),
    {
        self.edges.len()
    }

    /// How many edges leave a node.
    pub fn degree(&self, node: usize) -> (n: usize)
        requires
            self.wf(),
            node < self@.len(),
        ensures
            n == self@[node as int].len(),
            n >= 2,
    {
        assert(self@[node as int].len() == self.edges@[node as int]@.len());
        self.edges[node].len()
    }

    /// The number of the edge that leaves a node through a slot.
    pub open spec fn edge_number(&self, node: int, slot: int) -> int {
        edges_before(self@, node) + slot
    }

    /// Follows the edge that leaves `node` through `slot`: its number, and the
    /// node it leads to.
    pub fn follow(&self, node: usize, slot: usize) -> (r: (usize, usize))
        requires
            self.wf(),
            node < self@.len(),
            slot < self@[node as int].len(),
        ensures
            r.0 == self.edge_number(node as int, slot as int),
            r.0 < edges_before(self@, self@.len() as int),
            r.1 == self@[node as int][slot as int],
            r.1 < self@.len(),
    {
        proof {
            lemma_before_mono(self@, node + 1, self@.len() as int);
            assert(self.first_id@[node as int] == edges_before(self@, node as int));
            assert(self@[node as int][slot as int] == self.edges@[node as int]@[slot as int]);
        }
        (self.first_id[node] + slot, self.edges[node][slot])
    }
}

proof fn lemma_before_mono(edges: Seq<Seq<int>>, i: int, j: int)
    requires
        0 <= i <= j,
    ensures
        edges_before(edges, i) <= edges_before(edges, j),
    decreases j - i,
{
    if i < j {
        lemma_before_mono(edges, i, j - 1);
    }
}

/// No two edges share a number.
pub proof fn law_edge_numbers_are_distinct(edges: Seq<Seq<int>>, a: int, s: int, b: int, t: int)
    requires
        0 <= a < edges.len(),
        0 <= b < edges.len(),
        0 <= s < edges[a].len(),
        0 <= t < edges[b].len(),
        edges_before(edges, a) + s == edges_before(edges, b) + t,
    ensures
        a == b,
        s == t,
{
    if a < b {
        lemma_before_mono(edges, a + 1, b);
    } else if b < a {
        lemma_before_mono(edges, b + 1, a);
    }
}

/// Every number below the number of edges is that of an edge.
pub proof fn law_edge_numbers_are_dense(edges: Seq<Seq<int>>, id: int)
    requires
        0 <= id < edges_before(edges, edges.len() as int),
    ensures
        exists|a: int, s: int|
            0 <= a < edges.len() && 0 <= s < edges[a].len() && id == #[trigger] number(edges, a, s),
{
    let (a, s) = lemma_find_edge(edges, id, edges.len() as int);
    assert(id == number(edges, a, s));
}

/// The number of an edge.
pub open spec fn number(edges: Seq<Seq<int>>, a: int, s: int) -> int {
    edges_before(edges, a) + s
}

proof fn lemma_find_edge(edges: Seq<Seq<int>>, id: int, n: int) -> (r: (int, int))
    requires
        0 <= n <= edges.len(),
        0 <= id < edges_before(edges, n),
    ensures
        0 <= r.0 < n,
        0 <= r.1 < edges[r.0].len(),
        id == number(edges, r.0, r.1),
    decreases n,
{
    if id >= edges_before(edges, n - 1) {
        (n - 1, id - edges_before(edges, n - 1))
    } else {
        lemma_find_edge(edges, id, n - 1)
    }
}

} // verus!
