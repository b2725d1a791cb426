//! Disjoint domains over a common backbone: a graph of hubs and leaves, and the
//! walk through it.

use vstd::prelude::*;

use crate::sdr::facts::allotted;
use crate::sdr::facts::entity_count;
use crate::sdr::facts::RelationalFact;
use crate::sdr::facts::StreamMode;

verus! {

/// An edge of the graph, in whatever domain.
#[derive(Clone, Copy, Debug, PartialEq, Eq, Structural)]
pub struct Edge {
    /// Where it leaves.
    pub entity: usize,
    /// Its label.
    pub relation: usize,
    /// Where it leads.
    pub target: usize,
    /// 0 between hubs, 1 between a hub and a leaf, 2 between leaves.
    pub rank_tier: usize,
}

/// The fact that an edge is in a domain.
pub open spec fn fact_of(domain: usize, e: Edge) -> RelationalFact {
    RelationalFact {
        domain,
        entity: e.entity,
        relation: e.relation,
        target: e.target,
        rank_tier: e.rank_tier,
    }
}

/// The fact that an edge is in a domain.
pub(crate) fn to_fact(domain: usize, e: Edge) -> (f: RelationalFact)
    ensures
        f == fact_of(domain, e),
{
    RelationalFact {
        domain,
        entity: e.entity,
        relation: e.relation,
        target: e.target,
        rank_tier: e.rank_tier,
    }
}

/// Which tokens are hubs, leaves and relations: the hubs come first, then each
/// domain's leaves, then two relations between hubs and two for each domain.
#[derive(Clone, Copy, Debug)]
pub struct Layout {
    /// How many domains there are.
    pub domains: usize,
    /// How many facts a domain is asked about.
    pub facts: usize,
    /// How many entities there are.
    pub entities: usize,
    /// How many of them are hubs.
    pub hubs: usize,
    /// How many leaves each domain has.
    pub leaves: usize,
}

/// Picks of a place among `n`.
pub open spec fn within(picks: Seq<usize>, len: int, n: int) -> bool {
    &&& picks.len() == len
    &&& forall|k: int| 0 <= k < len ==> (#[trigger] picks[k]) < n
}

/// Where a pick leads among `len` places from `start` on: to itself, unless that
/// is where it came from; then, if there is another place, to the place `shift`
/// steps from the start.
pub open spec fn away(start: int, len: int, pick: int, from: int, shift: int) -> int {
    if start + pick == from && len > 1 {
        start + shift % len
    } else {
        start + pick
    }
}

impl Layout {
    /// Everything fits, and every domain has a leaf.
    pub open spec fn wf(&self) -> bool {
        &&& self.domains >= 1
        &&& self.facts >= 3
        &&& self.entities == entity_count(self.domains as int, self.facts as int)
        &&& 1 <= self.hubs <= self.entities
        &&& self.leaves == (self.entities - self.hubs) / (self.domains as int)
        &&& self.leaves >= 1
        &&& allotted(StreamMode::ModeA, self.domains as int, self.facts as int) <= usize::MAX
    }

    /// The first relation.
    pub open spec fn relations(&self) -> int {
        self.entities as int
    }

    /// The relation between a domain's leaves and the hubs.
    pub open spec fn mid(&self, d: int) -> int {
        self.entities + 2 + d * 2
    }

    /// The relation among a domain's leaves.
    pub open spec fn tail(&self, d: int) -> int {
        self.entities + 2 + d * 2 + 1
    }

    /// A domain's first leaf.
    pub open spec fn first_leaf(&self, d: int) -> int {
        self.hubs + d * self.leaves
    }

    /// A domain's leaves end before the next domain's begin, and the last one's
    /// before the relations.
    pub proof fn lemma_leaves_fit(&self, d: int)
        requires
            self.wf(),
            0 <= d < self.domains,
        ensures
            self.hubs <= self.first_leaf(d),
            self.first_leaf(d) + self.leaves <= self.entities,
            self.first_leaf(d) + self.leaves == self.first_leaf(d + 1),
            0 <= d * self.leaves,
    {
        let n = self.entities - self.hubs;
        let m = self.domains as int;
        vstd::arithmetic::div_mod::lemma_fundamental_div_mod(n, m);
        vstd::arithmetic::div_mod::lemma_mod_pos_bound(n, m);
        let l = self.leaves as int;
        assert(d * l >= 0 && d * l + l == (d + 1) * l && (d + 1) * l <= m * l) by (nonlinear_arith)
            requires
                0 <= d < m,
                l >= 1,
        ;
        assert(m * (n / m) == m * l);
    }

    /// How the tokens are shared out.
    pub fn new(domains: usize, facts: usize, hubs: usize) -> (l: Self)
        requires
            domains >= 1,
            facts >= 3,
            allotted(StreamMode::ModeA, domains as int, facts as int) <= usize::MAX,
            1 <= hubs <= entity_count(domains as int, facts as int),
            (entity_count(domains as int, facts as int) - hubs) / (domains as int) >= 1,
        ensures
            l.wf(),
            l.domains == domains,
            l.facts == facts,
            l.hubs == hubs,
    {
        let p: usize = domains * facts;
        let entities: usize = if p < 128 {
            128
        } else {
            p
        };
        Layout { domains, facts, entities, hubs, leaves: (entities - hubs) / domains }
    }

    /// The edges between hubs: each hub has one for each of the two relations.
    pub open spec fn hub_edge(&self, picks: Seq<usize>, k: int) -> Edge {
        Edge {
            entity: (k / 2) as usize,
            relation: (self.entities + k % 2) as usize,
            target: away(0, self.hubs as int, picks[k] as int, k / 2, k % 2 + 1) as usize,
            rank_tier: 0,
        }
    }

    /// The edge from a leaf to a hub.
    pub open spec fn mid_edge(&self, d: int, picks: Seq<usize>, k: int) -> Edge {
        Edge {
            entity: (self.first_leaf(d) + k) as usize,
            relation: self.mid(d) as usize,
            target: picks[k],
            rank_tier: 1,
        }
    }

    /// Where the leaves that a domain's leaves lead to begin.
    pub open spec fn pool_start(&self, d: int, wide: bool) -> int {
        if wide {
            self.hubs as int
        } else {
            self.first_leaf(d)
        }
    }

    /// How many leaves a domain's leaves can lead to.
    pub open spec fn pool_len(&self, wide: bool) -> int {
        if wide {
            self.entities - self.hubs
        } else {
            self.leaves as int
        }
    }

    /// The edge from a leaf to a leaf.
    pub open spec fn tail_edge(&self, d: int, wide: bool, picks: Seq<usize>, k: int) -> Edge {
        Edge {
            entity: (self.first_leaf(d) + k) as usize,
            relation: self.tail(d) as usize,
            target: away(
                self.pool_start(d, wide),
                self.pool_len(wide),
                picks[k] as int,
                self.first_leaf(d) + k,
                k + 1,
            ) as usize,
            rank_tier: 2,
        }
    }

    /// The edge from a hub into a domain. Its relation is the one from the leaves
    /// to the hubs.
    pub open spec fn entry_edge(&self, d: int, picks: Seq<usize>, k: int) -> Edge {
        Edge {
            entity: k as usize,
            relation: self.mid(d) as usize,
            target: (self.first_leaf(d) + picks[k]) as usize,
            rank_tier: 1,
        }
    }

    /// How many leaves a domain's leaves can lead to: its own, or all.
    pub fn pool(&self, wide: bool) -> (n: usize)
        requires
            self.wf(),
        ensures
            n == self.pool_len(wide),
            n >= 1,
    {
        proof {
            self.lemma_leaves_fit(0);
        }
        if wide {
            self.entities - self.hubs
        } else {
            self.leaves
        }
    }

    /// The edges between hubs, from one pick of a hub each.
    pub fn hub_edges(&self, picks: &[usize]) -> (edges: Vec<Edge>)
        requires
            self.wf(),
            within(picks@, 2 * self.hubs, self.hubs as int),
        ensures
            edges@ == Seq::new((2 * self.hubs) as nat, |k: int| self.hub_edge(picks@, k)),
    {
        let n: usize = picks.len();
        let mut edges: Vec<Edge> = Vec::new();
        let mut k: usize = 0;
        while k < n
            invariant
                self.wf(),
                n == picks@.len(),
                n == 2 * self.hubs,
                within(picks@, n as int, self.hubs as int),
                k <= n,
                edges@.len() == k,
                forall|j: int| 0 <= j < k ==> edges@[j] == self.hub_edge(picks@, j),
            decreases n - k,
        {
            assert(picks@[k as int] < self.hubs);
            let from: usize = k / 2;
            let pick: usize = picks[k];
            let target: usize = if pick == from && self.hubs > 1 {
                (k % 2 + 1) % self.hubs
            } else {
                pick
            };
            edges.push(Edge { entity: from, relation: self.entities + k % 2, target, rank_tier: 0 });
            k = k + 1;
        }
        proof {
            assert(edges@ =~= Seq::new((2 * self.hubs) as nat, |k: int| self.hub_edge(picks@, k)));
        }
        edges
    }

    /// The edges from a domain's leaves to the hubs, from one pick of a hub each.
    pub fn mid_edges(&self, d: usize, picks: &[usize]) -> (edges: Vec<Edge>)
        requires
            self.wf(),
            d < self.domains,
            within(picks@, self.leaves as int, self.hubs as int),
        ensures
            edges@ == Seq::new(self.leaves as nat, |k: int| self.mid_edge(d as int, picks@, k)),
    {
        proof {
            self.lemma_leaves_fit(d as int);
        }
        let start: usize = self.hubs + d * self.leaves;
        let relation: usize = self.entities + 2 + d * 2;
        let mut edges: Vec<Edge> = Vec::new();
        let mut k: usize = 0;
        while k < self.leaves
            invariant
                self.wf(),
                within(picks@, self.leaves as int, self.hubs as int),
                start == self.first_leaf(d as int),
                start + self.leaves <= self.entities,
                relation == self.mid(d as int),
                k <= self.leaves,
                edges@.len() == k,
                forall|j: int| 0 <= j < k ==> edges@[j] == self.mid_edge(d as int, picks@, j),
            decreases self.leaves - k,
        {
            edges.push(Edge { entity: start + k, relation, target: picks[k], rank_tier: 1 });
            k = k + 1;
        }
        proof {
            assert(edges@ =~= Seq::new(
                self.leaves as nat,
                |k: int| self.mid_edge(d as int, picks@, k),
            ));
        }
        edges
    }

    /// The edges from a domain's leaves to leaves, its own or all domains', from
    /// one pick of a place among those each.
    pub fn tail_edges(&self, d: usize, wide: bool, picks: &[usize]) -> (edges: Vec<Edge>)
        requires
            self.wf(),
            d < self.domains,
            within(picks@, self.leaves as int, self.pool_len(wide)),
        ensures
            edges@ == Seq::new(
                self.leaves as nat,
                |k: int| self.tail_edge(d as int, wide, picks@, k),
            ),
    {
        proof {
            self.lemma_leaves_fit(d as int);
        }
        let first: usize = self.hubs + d * self.leaves;
        let start: usize = if wide {
            self.hubs
        } else {
            first
        };
        let len: usize = self.pool(wide);
        let relation: usize = self.entities + 2 + d * 2 + 1;
        let mut edges: Vec<Edge> = Vec::new();
        let mut k: usize = 0;
        while k < self.leaves
            invariant
                self.wf(),
                within(picks@, self.leaves as int, len as int),
                first == self.first_leaf(d as int),
                first + self.leaves <= self.entities,
                start == self.pool_start(d as int, wide),
                len == self.pool_len(wide),
                start + len <= self.entities,
                relation == self.tail(d as int),
                k <= self.leaves,
                edges@.len() == k,
                forall|j: int|
                    0 <= j < k ==> edges@[j] == self.tail_edge(d as int, wide, picks@, j),
            decreases self.leaves - k,
        {
            assert(picks@[k as int] < len);
            let from: usize = first + k;
            let pick: usize = picks[k];
            let target: usize = if start + pick == from && len > 1 {
                start + (k + 1) % len
            } else {
                start + pick
            };
            edges.push(Edge { entity: from, relation, target, rank_tier: 2 });
            k = k + 1;
        }
        proof {
            assert(edges@ =~= Seq::new(
                self.leaves as nat,
                |k: int| self.tail_edge(d as int, wide, picks@, k),
            ));
        }
        edges
    }

    /// The edges from the hubs into a domain, from one pick of a leaf each.
    /// Without them a walk would never leave the backbone.
    pub fn entry_edges(&self, d: usize, picks: &[usize]) -> (edges: Vec<Edge>)
        requires
            self.wf(),
            d < self.domains,
            within(picks@, self.hubs as int, self.leaves as int),
        ensures
            edges@ == Seq::new(self.hubs as nat, |k: int| self.entry_edge(d as int, picks@, k)),
    {
        proof {
            self.lemma_leaves_fit(d as int);
        }
        let start: usize = self.hubs + d * self.leaves;
        let relation: usize = self.entities + 2 + d * 2;
        let mut edges: Vec<Edge> = Vec::new();
        let mut k: usize = 0;
        while k < self.hubs
            invariant
                self.wf(),
                within(picks@, self.hubs as int, self.leaves as int),
                start == self.first_leaf(d as int),
                start + self.leaves <= self.entities,
                relation == self.mid(d as int),
                k <= self.hubs,
                edges@.len() == k,
                forall|j: int| 0 <= j < k ==> edges@[j] == self.entry_edge(d as int, picks@, j),
            decreases self.hubs - k,
        {
            assert(picks@[k as int] < self.leaves);
            edges.push(Edge { entity: k, relation, target: start + picks[k], rank_tier: 1 });
            k = k + 1;
        }
        proof {
            assert(edges@ =~= Seq::new(
                self.hubs as nat,
                |k: int| self.entry_edge(d as int, picks@, k),
            ));
        }
        edges
    }
}

/// How the tokens are shared out: the hubs come first, the leaves of each domain
/// follow those of the one before and all have as many as there can be, and the
/// relations begin where the entities end.
pub proof fn law_layouts_leave_no_gap(l: Layout, d: int)
    requires
        l.wf(),
        0 <= d < l.domains,
    ensures
        l.first_leaf(0) == l.hubs,
        l.first_leaf(d + 1) == l.first_leaf(d) + l.leaves,
        l.first_leaf(l.domains as int) <= l.entities,
        l.entities < l.first_leaf(l.domains as int) + l.domains,
        l.mid(0) == l.entities + 2,
        l.tail(d) == l.mid(d) + 1,
        l.mid(d + 1) == l.tail(d) + 1,
        l.mid(l.domains as int) == allotted(StreamMode::ModeA, l.domains as int, l.facts as int),
        l.pool_start(d, true) == l.hubs,
        l.pool_start(d, true) + l.pool_len(true) == l.entities,
        l.pool_start(d, false) == l.first_leaf(d),
        l.pool_start(d, false) + l.pool_len(false) == l.first_leaf(d + 1),
{
    l.lemma_leaves_fit(d);
    let n = l.entities - l.hubs;
    let m = l.domains as int;
    vstd::arithmetic::div_mod::lemma_fundamental_div_mod(n, m);
    vstd::arithmetic::div_mod::lemma_mod_pos_bound(n, m);
    assert(0 * l.leaves == 0 && m * l.leaves == l.leaves * m) by (nonlinear_arith);
}

/// A pick leads where it points, unless that is where it comes from.
pub proof fn law_picks_lead_where_they_point(
    start: int,
    len: int,
    pick: int,
    from: int,
    shift: int,
)
    requires
        0 <= pick < len,
        0 <= shift,
    ensures
        start + pick != from ==> away(start, len, pick, from, shift) == start + pick,
        start <= away(start, len, pick, from, shift) < start + len,
        len > 1 && from == start + pick && shift % len != pick ==> away(
            start,
            len,
            pick,
            from,
            shift,
        ) != from,
        len > 1 && from == start + pick ==> (away(start, len, pick, from, shift) - start - shift)
            % len == 0,
        len == 1 ==> away(start, len, pick, from, shift) == start,
{
    vstd::arithmetic::div_mod::lemma_mod_pos_bound(shift, len);
    vstd::arithmetic::div_mod::lemma_fundamental_div_mod(shift, len);
    let q = shift / len;
    assert(shift % len - shift == len * (-q) + 0) by (nonlinear_arith)
        requires
            shift == len * q + shift % len,
    ;
    vstd::arithmetic::div_mod::lemma_fundamental_div_mod_converse(
        shift % len - shift,
        len,
        -q,
        0,
    );
}

/// The edges that picks give: every hub has one under each of the two common
/// relations and one into the domain, every leaf of the domain one to a hub and
/// one to a leaf. Each leads where its pick points, or elsewhere among the same
/// where it would lead back to where it comes from.
pub proof fn law_edges_follow_their_picks(l: Layout, d: int, wide: bool, picks: Seq<usize>, k: int)
    requires
        l.wf(),
        0 <= d < l.domains,
        0 <= k < picks.len(),
    ensures
        k < 2 * l.hubs && picks[k] < l.hubs ==> {
            let e = l.hub_edge(picks, k);
            &&& 2 * e.entity + (e.relation - l.entities) == k
            &&& 0 <= e.relation - l.entities < 2
            &&& e.entity < l.hubs
            &&& picks[k] != e.entity ==> e.target == picks[k]
            &&& picks[k] == e.entity && l.hubs > 1 ==> (e.target - 1 - (e.relation - l.entities)) % (
            l.hubs as int) == 0
            &&& e.target < l.hubs
            &&& e.rank_tier == 0
        },
        k < l.leaves && picks[k] < l.hubs ==> {
            let e = l.mid_edge(d, picks, k);
            &&& e.entity == l.first_leaf(d) + k
            &&& e.relation == l.mid(d)
            &&& e.target == picks[k]
            &&& e.rank_tier == 1
        },
        k < l.leaves && picks[k] < l.pool_len(wide) ==> {
            let e = l.tail_edge(d, wide, picks, k);
            &&& e.entity == l.first_leaf(d) + k
            &&& e.relation == l.tail(d)
            &&& l.pool_start(d, wide) + picks[k] != e.entity ==> e.target == l.pool_start(d, wide)
                + picks[k]
            &&& !wide && l.leaves > 1 ==> e.target != e.entity
            &&& l.pool_start(d, wide) + picks[k] == e.entity && l.pool_len(wide) > 1 ==> (e.target
                - l.pool_start(d, wide) - (k + 1)) % l.pool_len(wide) == 0
            &&& e.rank_tier == 2
        },
        k < l.hubs && picks[k] < l.leaves ==> {
            let e = l.entry_edge(d, picks, k);
            &&& e.entity == k
            &&& e.relation == l.mid(d)
            &&& e.target == l.first_leaf(d) + picks[k]
            &&& e.rank_tier == 1
        },
{
    l.lemma_leaves_fit(d);
    if k < 2 * l.hubs && picks[k] < l.hubs {
        law_picks_lead_where_they_point(0, l.hubs as int, picks[k] as int, k / 2, k % 2 + 1);
    }
    if k < l.leaves && picks[k] < l.pool_len(wide) {
        law_picks_lead_where_they_point(
            l.pool_start(d, wide),
            l.pool_len(wide),
            picks[k] as int,
            l.first_leaf(d) + k,
            k + 1,
        );
        if !wide && l.leaves > 1 {
            if k + 1 < l.leaves {
                vstd::arithmetic::div_mod::lemma_small_mod((k + 1) as nat, l.leaves as nat);
            } else {
                vstd::arithmetic::div_mod::lemma_mod_self_0(l.leaves as int);
            }
        }
    }
}

} // verus!
