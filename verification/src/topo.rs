//! The ring that a topological memory is spread over.

use crate::ring::{build_edges, draws_of, edges_ok, ints, out_edges};
use vstd::prelude::*;

verus! {

/// A small-world ring: each node knows its two neighbours and a few nodes
/// further off.
#[derive(Clone, Debug)]
pub struct Ring {
    n: usize,
    edges: Vec<Vec<usize>>,
}

impl View for Ring {
    type V = Seq<Seq<int>>;

    /// The out-edges of each node.
    closed spec fn view(&self) -> Seq<Seq<int>> {
        self.edges@.map_values(|e: Vec<usize>| ints(e@))
    }
}

impl Ring {
    /// The edges are those of a ring.
    pub closed spec fn wf(&self) -> bool {
        &&& self@.len() >= 4
        &&& self.n == self@.len()
        &&& forall|i: int|
            0 <= i < self@.len() ==> edges_ok(self@.len() as int, i, #[trigger] self@[i])
    }

    /// A ring of `n` nodes with up to `shortcuts` further edges from each. The
    /// draws, `shortcuts` for each node in turn, lie below `n / 2`.
    pub fn new(n: usize, shortcuts: usize, draws: &[usize]) -> (ring: Self)
        requires
            n >= 4,
            2 * n <= usize::MAX,
            draws@.len() == n * shortcuts,
            forall|k: int| 0 <= k < draws@.len() ==> draws@[k] < n / 2,
        ensures
            ring.wf(),
            ring@ == Seq::new(
                n as nat,
                |i: int| out_edges(n as int, i, draws_of(draws@, shortcuts as int, i)),
            ),
    {
        let ghost want = Seq::new(
            n as nat,
            |i: int| out_edges(n as int, i, draws_of(draws@, shortcuts as int, i)),
        );
        let mut edges: Vec<Vec<usize>> = Vec::new();
        let drawn: usize = draws.len();
        let mut i: usize = 0;
        let mut from: usize = 0;
        while i < n
            invariant
                n >= 4,
                2 * n <= usize::MAX,
                i <= n,
                from == i * shortcuts,
                drawn == draws@.len(),
                drawn == n * shortcuts,
                forall|k: int| 0 <= k < draws@.len() ==> draws@[k] < n / 2,
                want == Seq::new(
                    n as nat,
                    |i: int| out_edges(n as int, i, draws_of(draws@, shortcuts as int, i)),
                ),
                edges@.len() == i,
                forall|j: int| 0 <= j < i ==> ints((#[trigger] edges@[j])@) == want[j],
                forall|j: int| 0 <= j < i ==> edges_ok(n as int, j, #[trigger] want[j]),
            decreases n - i,
        {
            proof {
                assert((i + 1) * shortcuts == from + shortcuts) by (nonlinear_arith)
                    requires
                        from == i * shortcuts,
                ;
                assert((i + 1) * shortcuts <= n * shortcuts) by (nonlinear_arith)
                    requires
                        i + 1 <= n,
                ;
            }
            let e = build_edges(n, i, draws, from, from + shortcuts);
            assert(ints(e@) == want[i as int]);
            edges.push(e);
            from = from + shortcuts;
            i = i + 1;
        }
        let ring = Ring { n, edges };
        assert(ring@ =~= want);
        ring
    }

    /// How many nodes there are.
    pub fn len(&self) -> (n: usize)
        requires
            self.wf(),
        ensures
            n == self@.len(),
    {
        self.n
    }

    /// The nodes that a node's edges lead to, the ring neighbours first.
    pub fn out_edges(&self, node: usize) -> (e: &[usize])
        requires
            self.wf(),
            node < self@.len(),
        ensures
            ints(e@) == self@[node as int],
            edges_ok(self@.len() as int, node as int, ints(e@)),
    {
        assert(self@[node as int] == ints(self.edges@[node as int]@));
        self.edges[node].as_slice()
    }
}

/// From any node every other can be reached: going on to the next neighbour
/// `k` times leads `k` nodes further round.
pub proof fn law_ring_is_connected(edges: Seq<Seq<int>>, from: int, k: int)
    requires
        edges.len() >= 4,
        forall|i: int| 0 <= i < edges.len() ==> edges_ok(edges.len() as int, i, #[trigger] edges[i]),
        0 <= from < edges.len(),
        0 <= k,
    ensures
        after_hops(edges, from, k) == (from + k) % edges.len() as int,
        0 <= after_hops(edges, from, k) < edges.len(),
    decreases k,
{
    let n = edges.len() as int;
    if k == 0 {
        vstd::arithmetic::div_mod::lemma_small_mod(from as nat, n as nat);
    } else {
        law_ring_is_connected(edges, from, k - 1);
        let at = after_hops(edges, from, k - 1);
        assert(edges_ok(n, at, edges[at]));
        vstd::arithmetic::div_mod::lemma_add_mod_noop(from + k - 1, 1, n);
        vstd::arithmetic::div_mod::lemma_small_mod(1, n as nat);
        vstd::arithmetic::div_mod::lemma_mod_pos_bound(from + k, n);
    }
}

/// The node reached from `from` by taking the edge to the next neighbour `k`
/// times.
pub open spec fn after_hops(edges: Seq<Seq<int>>, from: int, k: int) -> int
    decreases k,
{
    if k <= 0 {
        from
    } else {
        edges[after_hops(edges, from, k - 1)][1]
    }
}

} // verus!
