//! What a domain of the graph is asked, and the walk that shows it.

use vstd::prelude::*;

use crate::sdr::facts::{all_within, allotted, is_hub_fact, on_backbone, one_each};
use crate::sdr::facts::RelationalFact;
use crate::sdr::facts::RelationalFactStream;
use crate::sdr::facts::StreamMode;
use crate::sdr::graph::fact_of;
use crate::sdr::graph::to_fact;
use crate::sdr::graph::within;
use crate::sdr::graph::Edge;
use crate::sdr::graph::Layout;

verus! {

/// All edges that a walk in a domain can take.
pub fn domain_edges(hub: &[Edge], entry: &[Edge], mid: &[Edge], tail: &[Edge]) -> (all: Vec<Edge>)
    ensures
        all@ == hub@ + entry@ + mid@ + tail@,
{
    let mut all: Vec<Edge> = Vec::new();
    append(&mut all, hub);
    append(&mut all, entry);
    append(&mut all, mid);
    append(&mut all, tail);
    all
}

/// Appends edges.
fn append(all: &mut Vec<Edge>, more: &[Edge])
    ensures
        final(all)@ == old(all)@ + more@,
{
    let mut k: usize = 0;
    proof {
        assert(all@ =~= all@ + more@.take(0));
    }
    while k < more.len()
        invariant
            k <= more@.len(),
            all@ == old(all)@ + more@.take(k as int),
        decreases more@.len() - k,
    {
        all.push(more[k]);
        proof {
            assert(more@.take(k + 1) =~= more@.take(k as int).push(more@[k as int]));
            assert(all@ =~= old(all)@ + more@.take(k + 1));
        }
        k = k + 1;
    }
    proof {
        assert(more@.take(more@.len() as int) =~= more@);
    }
}

/// The smaller of two numbers.
pub open spec fn least(a: int, b: int) -> int {
    if a < b {
        a
    } else {
        b
    }
}

/// The smaller of two numbers.
fn smaller(a: usize, b: usize) -> (c: usize)
    ensures
        c == least(a as int, b as int),
{
    if a < b {
        a
    } else {
        b
    }
}

/// How many of a domain's questions are about the hubs, and how many about the
/// middle; the rest are about the tail.
pub open spec fn third(facts: int) -> int {
    if facts / 3 < 1 {
        1
    } else {
        facts / 3
    }
}

/// How many questions are about the tail: what the other two thirds leave over,
/// more where there are too few edges for those.
pub open spec fn tail_share(facts: int, hub: int, mid: int, tail: int) -> int {
    least(tail, facts - least(third(facts), hub) - least(third(facts), mid))
}

/// How many questions are about the middle: a third, more where the hubs and the
/// tail fall short.
pub open spec fn mid_share(facts: int, hub: int, mid: int, tail: int) -> int {
    least(mid, facts - least(third(facts), hub) - tail_share(facts, hub, mid, tail))
}

/// How many questions are about the hubs: a third, or as many as there can be,
/// more where the others fall short.
pub open spec fn hub_share(facts: int, hub: int, mid: int, tail: int) -> int {
    least(hub, facts - mid_share(facts, hub, mid, tail) - tail_share(facts, hub, mid, tail))
}

/// The edges that a domain is asked about: as many of each tier where there are
/// enough, and filled up from the other tiers where there are not.
pub open spec fn asked(facts: int, hub: Seq<Edge>, mid: Seq<Edge>, tail: Seq<Edge>) -> Seq<Edge> {
    let (h, m, t) = (hub.len() as int, mid.len() as int, tail.len() as int);
    hub.take(hub_share(facts, h, m, t)) + mid.take(mid_share(facts, h, m, t)) + tail.take(
        tail_share(facts, h, m, t),
    )
}

/// The facts that edges are in a domain.
pub open spec fn facts_of(domain: usize, edges: Seq<Edge>) -> Seq<RelationalFact> {
    edges.map_values(|e: Edge| fact_of(domain, e))
}

/// Appends the facts that the first edges are.
fn append_facts(out: &mut Vec<RelationalFact>, domain: usize, edges: &[Edge], n: usize)
    requires
        n <= edges@.len(),
    ensures
        final(out)@ == old(out)@ + facts_of(domain, edges@.take(n as int)),
{
    let ghost all = facts_of(domain, edges@.take(n as int));
    let mut k: usize = 0;
    proof {
        assert(out@ =~= out@ + all.take(0));
    }
    while k < n
        invariant
            n <= edges@.len(),
            k <= n,
            all == facts_of(domain, edges@.take(n as int)),
            out@ == old(out)@ + all.take(k as int),
        decreases n - k,
    {
        out.push(to_fact(domain, edges[k]));
        proof {
            assert(all.take(k + 1) =~= all.take(k as int).push(all[k as int]));
            assert(out@ =~= old(out)@ + all.take(k + 1));
        }
        k = k + 1;
    }
    proof {
        assert(all.take(n as int) =~= all);
    }
}

/// What a domain is asked.
pub fn probe_facts(
    domain: usize,
    facts: usize,
    hub: &[Edge],
    mid: &[Edge],
    tail: &[Edge],
) -> (out: Vec<RelationalFact>)
    requires
        facts >= 3,
    ensures
        out@ == facts_of(domain, asked(facts as int, hub@, mid@, tail@)),
{
    let n: usize = facts / 3;
    let for_hub: usize = smaller(n, hub.len());
    let for_mid: usize = smaller(n, mid.len());
    let tails: usize = smaller(tail.len(), facts - for_hub - for_mid);
    let mids: usize = smaller(mid.len(), facts - for_hub - tails);
    let hubs: usize = smaller(hub.len(), facts - mids - tails);
    let mut out: Vec<RelationalFact> = Vec::new();
    append_facts(&mut out, domain, hub, hubs);
    append_facts(&mut out, domain, mid, mids);
    append_facts(&mut out, domain, tail, tails);
    proof {
        assert(out@ =~= facts_of(domain, asked(facts as int, hub@, mid@, tail@)));
    }
    out
}

/// The edges that leave a node, by their place.
pub open spec fn leaving(edges: Seq<Edge>, node: usize) -> Seq<int>
    decreases edges.len(),
{
    if edges.len() == 0 {
        Seq::empty()
    } else {
        let rest = leaving(edges.drop_last(), node);
        if edges.last().entity == node {
            rest.push(edges.len() - 1)
        } else {
            rest
        }
    }
}

/// The edges that a walk can take from a node: those that leave it, or any where
/// none does.
pub open spec fn options(edges: Seq<Edge>, node: usize) -> Seq<int> {
    if leaving(edges, node).len() > 0 {
        leaving(edges, node)
    } else {
        Seq::new(edges.len(), |k: int| k)
    }
}

/// The places in `leaving` are of edges that leave the node, in order, and of all
/// of them.
pub proof fn lemma_leaving(edges: Seq<Edge>, node: usize)
    ensures
        leaving(edges, node).len() <= edges.len(),
        forall|p: int|
            0 <= p < leaving(edges, node).len() ==> 0 <= #[trigger] leaving(edges, node)[p]
                < edges.len() && edges[leaving(edges, node)[p]].entity == node,
        forall|k: int|
            0 <= k < edges.len() && (#[trigger] edges[k]).entity == node ==> leaving(
                edges,
                node,
            ).contains(k),
    decreases edges.len(),
{
    if edges.len() > 0 {
        let short = edges.drop_last();
        lemma_leaving(short, node);
        let rest = leaving(short, node);
        let all = leaving(edges, node);
        assert forall|p: int| 0 <= p < all.len() implies 0 <= #[trigger] all[p] < edges.len()
            && edges[all[p]].entity == node by {
            if p < rest.len() {
                assert(all[p] == rest[p]);
                assert(short[rest[p]] == edges[rest[p]]);
            }
        }
        assert forall|k: int|
            0 <= k < edges.len() && (#[trigger] edges[k]).entity == node implies all.contains(k) by {
            if k < short.len() {
                assert(short[k] == edges[k]);
                assert(rest.contains(k));
                let p = choose|p: int| 0 <= p < rest.len() && rest[p] == k;
                assert(all[p] == k);
            } else {
                assert(all[all.len() - 1] == k);
            }
        }
    }
}

/// Where a walk stands after showing facts.
pub open spec fn stands(start: usize, shown: Seq<RelationalFact>) -> usize {
    if shown.len() == 0 {
        start
    } else {
        shown.last().target
    }
}

/// A fact that is one of the edges that a walk can take from a node.
pub open spec fn took(edges: Seq<Edge>, domain: usize, at: usize, fact: RelationalFact) -> bool {
    exists|p: int|
        0 <= p < options(edges, at).len() && fact == fact_of(
            domain,
            edges[#[trigger] options(edges, at)[p]],
        )
}

/// Facts shown by a walk: each is an edge that the walk could take from where it
/// stood.
pub open spec fn is_walk(
    edges: Seq<Edge>,
    domain: usize,
    start: usize,
    shown: Seq<RelationalFact>,
) -> bool {
    forall|k: int|
        0 <= k < shown.len() ==> took(
            edges,
            domain,
            stands(start, shown.take(k)),
            #[trigger] shown[k],
        )
}

/// One more edge makes the walk longer.
proof fn lemma_walk_goes_on(
    edges: Seq<Edge>,
    domain: usize,
    start: usize,
    before: Seq<RelationalFact>,
    fact: RelationalFact,
)
    requires
        is_walk(edges, domain, start, before),
        took(edges, domain, stands(start, before), fact),
    ensures
        is_walk(edges, domain, start, before.push(fact)),
{
    let after = before.push(fact);
    assert forall|k: int| 0 <= k < after.len() implies took(
        edges,
        domain,
        stands(start, after.take(k)),
        #[trigger] after[k],
    ) by {
        assert(after.take(k) =~= before.take(k));
        if k < before.len() {
            assert(after[k] == before[k]);
        } else {
            assert(before.take(k) =~= before);
        }
    }
}

/// A walk in a domain that is under way.
#[derive(Debug)]
pub struct Walk {
    domain: usize,
    start: usize,
    at: usize,
    edges: Vec<Edge>,
    shown: Vec<RelationalFact>,
}

impl Walk {
    /// The domain.
    pub closed spec fn of(&self) -> usize {
        self.domain
    }

    /// Where it began.
    pub closed spec fn began(&self) -> usize {
        self.start
    }

    /// The edges it can take.
    pub closed spec fn graph(&self) -> Seq<Edge> {
        self.edges@
    }

    /// What it has shown.
    pub closed spec fn seen(&self) -> Seq<RelationalFact> {
        self.shown@
    }

    /// There is an edge, and what was shown is a walk.
    pub closed spec fn wf(&self) -> bool {
        &&& self.edges@.len() >= 1
        &&& self.at == stands(self.start, self.shown@)
        &&& is_walk(self.edges@, self.domain, self.start, self.shown@)
    }

    /// A walk that has not begun.
    pub fn new(domain: usize, start: usize, edges: Vec<Edge>) -> (w: Self)
        requires
            edges@.len() >= 1,
        ensures
            w.wf(),
            w.of() == domain,
            w.began() == start,
            w.graph() == edges@,
            w.seen() == Seq::<RelationalFact>::empty(),
    {
        Walk { domain, start, at: start, edges, shown: Vec::new() }
    }

    /// How many edges leave where the walk stands.
    fn count(&self) -> (n: usize)
        ensures
            n == leaving(self.edges@, self.at).len(),
    {
        let mut n: usize = 0;
        let mut k: usize = 0;
        while k < self.edges.len()
            invariant
                k <= self.edges@.len(),
                n == leaving(self.edges@.take(k as int), self.at).len(),
                n <= k,
            decreases self.edges@.len() - k,
        {
            proof {
                assert(self.edges@.take(k + 1).drop_last() =~= self.edges@.take(k as int));
            }
            if self.edges[k].entity == self.at {
                n = n + 1;
            }
            k = k + 1;
        }
        proof {
            assert(self.edges@.take(k as int) =~= self.edges@);
        }
        n
    }

    /// How many edges there are to choose from.
    pub fn choices(&self) -> (n: usize)
        requires
            self.wf(),
        ensures
            n == options(self.graph(), stands(self.began(), self.seen())).len(),
            n >= 1,
    {
        let n: usize = self.count();
        if n > 0 {
            n
        } else {
            self.edges.len()
        }
    }

    /// Takes one of the edges.
    pub fn step(&mut self, pick: usize)
        requires
            old(self).wf(),
            pick < options(old(self).graph(), stands(old(self).began(), old(self).seen())).len(),
        ensures
            final(self).wf(),
            final(self).of() == old(self).of(),
            final(self).began() == old(self).began(),
            final(self).graph() == old(self).graph(),
            final(self).seen() == old(self).seen().push(
                fact_of(
                    old(self).of(),
                    old(self).graph()[options(
                        old(self).graph(),
                        stands(old(self).began(), old(self).seen()),
                    )[pick as int]],
                ),
            ),
    {
        let ghost opts = options(self.edges@, self.at);
        let place: usize = if self.count() > 0 {
            self.locate(pick)
        } else {
            pick
        };
        proof {
            lemma_leaving(self.edges@, self.at);
            assert(place == opts[pick as int]);
        }
        let fact: RelationalFact = to_fact(self.domain, self.edges[place]);
        let ghost before = self.shown@;
        self.shown.push(fact);
        self.at = fact.target;
        proof {
            assert(fact == fact_of(self.domain, self.edges@[opts[pick as int]]));
            lemma_walk_goes_on(self.edges@, self.domain, self.start, before, fact);
        }
    }

    /// The place of one of the edges that leave where the walk stands.
    fn locate(&self, pick: usize) -> (place: usize)
        requires
            pick < leaving(self.edges@, self.at).len(),
        ensures
            place == leaving(self.edges@, self.at)[pick as int],
            place < self.edges@.len(),
    {
        let mut n: usize = 0;
        let mut k: usize = 0;
        proof {
            lemma_leaving(self.edges@, self.at);
        }
        while k < self.edges.len()
            invariant
                k <= self.edges@.len(),
                n == leaving(self.edges@.take(k as int), self.at).len(),
                n <= pick,
                pick < leaving(self.edges@, self.at).len(),
            decreases self.edges@.len() - k,
        {
            proof {
                assert(self.edges@.take(k + 1).drop_last() =~= self.edges@.take(k as int));
            }
            if self.edges[k].entity == self.at {
                if n == pick {
                    proof {
                        lemma_leaving_extends(self.edges@, k + 1, self.at);
                    }
                    return k;
                }
                n = n + 1;
            }
            k = k + 1;
        }
        proof {
            assert(self.edges@.take(k as int) =~= self.edges@);
            assert(false);
        }
        0
    }

    /// What the walk has shown.
    pub fn into_facts(self) -> (shown: Vec<RelationalFact>)
        requires
            self.wf(),
        ensures
            shown@ == self.seen(),
            is_walk(self.graph(), self.of(), self.began(), shown@),
    {
        self.shown
    }
}

/// Later edges change nothing in the places of the earlier ones.
proof fn lemma_leaving_extends(edges: Seq<Edge>, n: int, node: usize)
    requires
        0 <= n <= edges.len(),
    ensures
        leaving(edges.take(n), node).len() <= leaving(edges, node).len(),
        forall|p: int|
            0 <= p < leaving(edges.take(n), node).len() ==> #[trigger] leaving(edges, node)[p]
                == leaving(edges.take(n), node)[p],
    decreases edges.len() - n,
{
    if n < edges.len() {
        lemma_leaving_extends(edges, n + 1, node);
        assert(edges.take(n + 1).drop_last() =~= edges.take(n));
    } else {
        assert(edges.take(n) =~= edges);
    }
}

/// What chance decides of a domain's graph.
pub struct Picks {
    /// For each edge between hubs.
    pub hub: Seq<usize>,
    /// For each edge from a hub into the domain.
    pub entry: Seq<usize>,
    /// For each edge from a leaf to a hub.
    pub mid: Seq<usize>,
    /// For each edge from a leaf to a leaf.
    pub tail: Seq<usize>,
}

impl Picks {
    /// Every pick is of something there is.
    pub open spec fn fit(&self, l: Layout, wide: bool) -> bool {
        &&& within(self.hub, 2 * l.hubs, l.hubs as int)
        &&& within(self.entry, l.hubs as int, l.leaves as int)
        &&& within(self.mid, l.leaves as int, l.hubs as int)
        &&& within(self.tail, l.leaves as int, l.pool_len(wide))
    }
}

/// All edges of a domain.
pub open spec fn graph_of(l: Layout, d: int, wide: bool, p: Picks) -> Seq<Edge> {
    Seq::new((2 * l.hubs) as nat, |k: int| l.hub_edge(p.hub, k)) + Seq::new(
        l.hubs as nat,
        |k: int| l.entry_edge(d, p.entry, k),
    ) + Seq::new(l.leaves as nat, |k: int| l.mid_edge(d, p.mid, k)) + Seq::new(
        l.leaves as nat,
        |k: int| l.tail_edge(d, wide, p.tail, k),
    )
}

/// An edge of a domain, by its place.
proof fn lemma_edge_at(l: Layout, d: int, wide: bool, p: Picks, i: int)
    requires
        l.wf(),
        0 <= d < l.domains,
        p.fit(l, wide),
        0 <= i < graph_of(l, d, wide, p).len(),
    ensures
        graph_of(l, d, wide, p).len() == 3 * l.hubs + 2 * l.leaves,
        ({
            let e = graph_of(l, d, wide, p)[i];
            if i < 2 * l.hubs {
                &&& e == l.hub_edge(p.hub, i)
                &&& e.entity == i / 2
                &&& e.relation == l.entities + i % 2
                &&& e.target < l.hubs
            } else if i < 3 * l.hubs {
                &&& e == l.entry_edge(d, p.entry, i - 2 * l.hubs)
                &&& e.entity == i - 2 * l.hubs
                &&& e.relation == l.mid(d)
                &&& l.first_leaf(d) <= e.target < l.first_leaf(d) + l.leaves
            } else if i < 3 * l.hubs + l.leaves {
                &&& e == l.mid_edge(d, p.mid, i - 3 * l.hubs)
                &&& e.entity == l.first_leaf(d) + i - 3 * l.hubs
                &&& e.relation == l.mid(d)
                &&& e.target < l.hubs
            } else {
                &&& e == l.tail_edge(d, wide, p.tail, i - 3 * l.hubs - l.leaves)
                &&& e.entity == l.first_leaf(d) + i - 3 * l.hubs - l.leaves
                &&& e.relation == l.tail(d)
                &&& l.pool_start(d, wide) <= e.target < l.pool_start(d, wide) + l.pool_len(wide)
            }
        }),
        l.hubs <= l.pool_start(d, wide),
        l.pool_start(d, wide) + l.pool_len(wide) <= l.entities,
{
    l.lemma_leaves_fit(d);
    let h = l.hubs as int;
    let m = l.leaves as int;
    if i < 2 * h {
        assert(p.hub[i] < h);
    } else if i < 3 * h {
        assert(p.entry[i - 2 * h] < m);
    } else if i < 3 * h + m {
        assert(p.mid[i - 3 * h] < h);
    } else {
        let k = i - 3 * h - m;
        assert(p.tail[k] < l.pool_len(wide));
        vstd::arithmetic::div_mod::lemma_mod_pos_bound(k + 1, l.pool_len(wide));
    }
}

/// Within a domain an entity and a relation have one target: no two edges share
/// both.
pub proof fn law_one_target(l: Layout, d: int, wide: bool, p: Picks, i: int, j: int)
    requires
        l.wf(),
        0 <= d < l.domains,
        p.fit(l, wide),
        0 <= i < j < graph_of(l, d, wide, p).len(),
    ensures
        graph_of(l, d, wide, p)[i].entity != graph_of(l, d, wide, p)[j].entity || graph_of(
            l,
            d,
            wide,
            p,
        )[i].relation != graph_of(l, d, wide, p)[j].relation,
{
    l.lemma_leaves_fit(d);
    lemma_edge_at(l, d, wide, p, i);
    lemma_edge_at(l, d, wide, p, j);
}

/// Across domains with the same hub edges an entity and a relation have one
/// target too: what two domains have in common is the backbone.
pub proof fn law_one_target_across_domains(
    l: Layout,
    wide: bool,
    a: int,
    p: Picks,
    i: int,
    b: int,
    q: Picks,
    j: int,
)
    requires
        l.wf(),
        0 <= a < l.domains,
        0 <= b < l.domains,
        a != b,
        p.fit(l, wide),
        q.fit(l, wide),
        p.hub == q.hub,
        0 <= i < graph_of(l, a, wide, p).len(),
        0 <= j < graph_of(l, b, wide, q).len(),
        graph_of(l, a, wide, p)[i].entity == graph_of(l, b, wide, q)[j].entity,
        graph_of(l, a, wide, p)[i].relation == graph_of(l, b, wide, q)[j].relation,
    ensures
        graph_of(l, a, wide, p)[i] == graph_of(l, b, wide, q)[j],
        graph_of(l, a, wide, p)[i].rank_tier == 0,
{
    lemma_edge_at(l, a, wide, p, i);
    lemma_edge_at(l, b, wide, q, j);
    if a < b {
        law_domains_are_disjoint(l, a, b);
    } else {
        law_domains_are_disjoint(l, b, a);
    }
}

/// Every token of a domain's graph is one that was set aside for it: entities
/// come before the relations, and those end where the tokens needed do.
pub proof fn law_tokens_are_in_range(l: Layout, d: int, wide: bool, p: Picks, i: int)
    requires
        l.wf(),
        0 <= d < l.domains,
        p.fit(l, wide),
        0 <= i < graph_of(l, d, wide, p).len(),
    ensures
        graph_of(l, d, wide, p)[i].entity < l.entities,
        graph_of(l, d, wide, p)[i].target < l.entities,
        l.entities <= graph_of(l, d, wide, p)[i].relation < l.entities + 2 + 2 * l.domains,
{
    l.lemma_leaves_fit(d);
    lemma_edge_at(l, d, wide, p, i);
}

/// The relations that are not between hubs, and the leaves, belong to one domain.
pub proof fn law_domains_are_disjoint(l: Layout, a: int, b: int)
    requires
        l.wf(),
        0 <= a < b < l.domains,
    ensures
        l.mid(a) != l.mid(b),
        l.tail(a) != l.tail(b),
        l.mid(a) != l.tail(b),
        l.tail(a) != l.mid(b),
        l.first_leaf(a) + l.leaves <= l.first_leaf(b),
{
    l.lemma_leaves_fit(a);
    l.lemma_leaves_fit(b);
    let m = l.leaves as int;
    assert((a + 1) * m <= b * m) by (nonlinear_arith)
        requires
            a + 1 <= b,
            m >= 1,
    ;
}

/// Where leaves lead to leaves of their own domain, a walk that began at a hub is
/// never stuck: each fact begins where the last one ended.
pub proof fn law_walks_are_chains(
    l: Layout,
    d: int,
    p: Picks,
    start: usize,
    shown: Seq<RelationalFact>,
    k: int,
)
    requires
        l.wf(),
        0 <= d < l.domains,
        p.fit(l, false),
        start < l.hubs,
        is_walk(graph_of(l, d, false, p), d as usize, start, shown),
        0 <= k < shown.len(),
    ensures
        shown[k].entity == if k == 0 {
            start
        } else {
            shown[k - 1].target
        },
        shown[k].target < l.hubs || l.first_leaf(d) <= shown[k].target < l.first_leaf(d) + l.leaves,
    decreases k,
{
    let g = graph_of(l, d, false, p);
    l.lemma_leaves_fit(d);
    let at = stands(start, shown.take(k));
    if k > 0 {
        law_walks_are_chains(l, d, p, start, shown, k - 1);
        assert(shown.take(k).last() == shown[k - 1]);
    }
    let place = if at < l.hubs {
        2 * l.hubs + at
    } else {
        3 * l.hubs + at - l.first_leaf(d)
    };
    lemma_edge_at(l, d, false, p, 0);
    lemma_edge_at(l, d, false, p, place);
    assert(g[place].entity == at);
    lemma_leaving(g, at);
    assert(leaving(g, at).contains(place));
    assert(took(g, d as usize, at, shown[k]));
    let q = choose|q: int|
        0 <= q < options(g, at).len() && shown[k] == fact_of(
            d as usize,
            g[#[trigger] options(g, at)[q]],
        );
    assert(options(g, at) == leaving(g, at));
    let e = leaving(g, at)[q];
    lemma_edge_at(l, d, false, p, e);
}

/// From every hub there is a way into the domain.
pub proof fn law_hubs_lead_into_the_domain(l: Layout, d: int, wide: bool, p: Picks, hub: int)
    requires
        l.wf(),
        0 <= d < l.domains,
        p.fit(l, wide),
        0 <= hub < l.hubs,
    ensures
        graph_of(l, d, wide, p).len() > 2 * l.hubs + hub,
        graph_of(l, d, wide, p)[2 * l.hubs + hub].entity == hub,
        l.first_leaf(d) <= graph_of(l, d, wide, p)[2 * l.hubs + hub].target < l.first_leaf(d)
            + l.leaves,
{
    lemma_edge_at(l, d, wide, p, 0);
    lemma_edge_at(l, d, wide, p, 2 * l.hubs + hub);
}

/// A domain is asked exactly as many questions as it should be; where there are
/// enough edges of each tier, a third of them are about the hubs, a third about
/// the middle, and the rest about the tail.
pub proof fn law_questions_are_complete(
    l: Layout,
    hub: Seq<Edge>,
    mid: Seq<Edge>,
    tail: Seq<Edge>,
    domain: usize,
)
    requires
        l.wf(),
        hub.len() == 2 * l.hubs,
        mid.len() == l.leaves,
        tail.len() == l.leaves,
    ensures
        facts_of(domain, asked(l.facts as int, hub, mid, tail)).len() == l.facts,
        third(l.facts as int) <= hub.len() && l.facts - 2 * third(l.facts as int) <= l.leaves ==> asked(
            l.facts as int,
            hub,
            mid,
            tail,
        ) == hub.take(third(l.facts as int)) + mid.take(third(l.facts as int)) + tail.take(
            l.facts - 2 * third(l.facts as int),
        ),
{
    let f = l.facts as int;
    let m = l.domains as int;
    let n = l.entities - l.hubs;
    assert(m * f >= f) by (nonlinear_arith)
        requires
            m >= 1,
            f >= 3,
    ;
    if 2 * l.hubs < f {
        // More than half of the entities are leaves.
        vstd::arithmetic::div_mod::lemma_fundamental_div_mod(n, m);
        vstd::arithmetic::div_mod::lemma_mod_pos_bound(n, m);
        let leaves = l.leaves as int;
        assert(2 * leaves + 2 * l.hubs >= f) by (nonlinear_arith)
            requires
                m >= 1,
                f >= 3,
                l.entities >= m * f,
                n == l.entities - l.hubs,
                n == m * leaves + n % m,
                0 <= n % m < m,
                2 * l.hubs < f,
                l.hubs >= 1,
        ;
    }
}

/// Domains with the same hub edges are asked the same of the hubs: the same
/// edges, in the same order, before anything else.
pub proof fn law_hubs_are_asked_alike(
    l: Layout,
    hub: Seq<Edge>,
    a: usize,
    mid_a: Seq<Edge>,
    tail_a: Seq<Edge>,
    b: usize,
    mid_b: Seq<Edge>,
    tail_b: Seq<Edge>,
)
    requires
        l.wf(),
        hub.len() == 2 * l.hubs,
        mid_a.len() == l.leaves,
        tail_a.len() == l.leaves,
        mid_b.len() == l.leaves,
        tail_b.len() == l.leaves,
    ensures
        ({
            let (f, h, m) = (l.facts as int, hub.len() as int, l.leaves as int);
            let n = hub_share(f, h, m, m);
            &&& 0 < n <= f
            &&& facts_of(a, asked(f, hub, mid_a, tail_a)).take(n) == facts_of(a, hub.take(n))
            &&& facts_of(b, asked(f, hub, mid_b, tail_b)).take(n) == facts_of(b, hub.take(n))
        }),
{
    let (f, h, m) = (l.facts as int, hub.len() as int, l.leaves as int);
    let n = hub_share(f, h, m, m);
    law_questions_are_complete(l, hub, mid_a, tail_a, a);
    law_questions_are_complete(l, hub, mid_b, tail_b, b);
    assert(facts_of(a, asked(f, hub, mid_a, tail_a)).take(n) =~= facts_of(a, hub.take(n)));
    assert(facts_of(b, asked(f, hub, mid_b, tail_b)).take(n) =~= facts_of(b, hub.take(n)));
}

/// Edges as a layout gives them to a domain, whatever chance decided.
pub open spec fn drawn(
    l: Layout,
    d: int,
    hub: Seq<Edge>,
    entry: Seq<Edge>,
    mid: Seq<Edge>,
    tail: Seq<Edge>,
) -> bool {
    exists|wide: bool, p: Picks| #[trigger] is_drawn(l, d, wide, p, hub, entry, mid, tail)
}

/// Edges as a layout gives them to a domain for some picks.
pub open spec fn is_drawn(
    l: Layout,
    d: int,
    wide: bool,
    p: Picks,
    hub: Seq<Edge>,
    entry: Seq<Edge>,
    mid: Seq<Edge>,
    tail: Seq<Edge>,
) -> bool {
    &&& p.fit(l, wide)
    &&& hub == Seq::new((2 * l.hubs) as nat, |k: int| l.hub_edge(p.hub, k))
    &&& entry == Seq::new(l.hubs as nat, |k: int| l.entry_edge(d, p.entry, k))
    &&& mid == Seq::new(l.leaves as nat, |k: int| l.mid_edge(d, p.mid, k))
    &&& tail == Seq::new(l.leaves as nat, |k: int| l.tail_edge(d, wide, p.tail, k))
}

/// An edge of a domain speaks of none but the tokens set aside for facts, and is
/// an edge of the backbone where it is about hubs alone.
proof fn lemma_drawn_edge(
    l: Layout,
    d: usize,
    hub: Seq<Edge>,
    entry: Seq<Edge>,
    mid: Seq<Edge>,
    tail: Seq<Edge>,
    i: int,
)
    requires
        l.wf(),
        d < l.domains,
        drawn(l, d as int, hub, entry, mid, tail),
        0 <= i < (hub + entry + mid + tail).len(),
    ensures
        ({
            let e = (hub + entry + mid + tail)[i];
            &&& fact_of(d, e).is_within(
                d as int,
                allotted(StreamMode::ModeA, l.domains as int, l.facts as int),
            )
            &&& e.rank_tier == 0 ==> is_hub_fact(fact_of(d, e), d as int, hub)
        }),
{
    let (wide, p) = choose|wide: bool, p: Picks| #[trigger]
        is_drawn(l, d as int, wide, p, hub, entry, mid, tail);
    let g = hub + entry + mid + tail;
    assert(g =~= graph_of(l, d as int, wide, p));
    law_tokens_are_in_range(l, d as int, wide, p, i);
    lemma_edge_at(l, d as int, wide, p, i);
    if g[i].rank_tier == 0 {
        assert(g[i] == hub[i]);
    }
}

/// No two hub edges leave the same entity under the same relation.
proof fn lemma_drawn_hubs(
    l: Layout,
    d: int,
    hub: Seq<Edge>,
    entry: Seq<Edge>,
    mid: Seq<Edge>,
    tail: Seq<Edge>,
)
    requires
        l.wf(),
        0 <= d < l.domains,
        drawn(l, d, hub, entry, mid, tail),
    ensures
        one_each(hub),
        hub.len() == 2 * l.hubs,
        entry.len() == l.hubs,
        mid.len() == l.leaves,
        tail.len() == l.leaves,
{
    let (wide, p) = choose|wide: bool, p: Picks| #[trigger]
        is_drawn(l, d, wide, p, hub, entry, mid, tail);
    let g = graph_of(l, d, wide, p);
    assert(hub + entry + mid + tail =~= g);
    assert forall|i: int, j: int| 0 <= i < j < hub.len() implies (#[trigger] hub[i]).entity
        != (#[trigger] hub[j]).entity || hub[i].relation != hub[j].relation by {
        assert(hub[i] == g[i] && hub[j] == g[j]);
        law_one_target(l, d, wide, p, i, j);
    }
}

/// What a domain is asked fits a stream.
proof fn lemma_asked_fits(
    l: Layout,
    d: usize,
    hub: Seq<Edge>,
    entry: Seq<Edge>,
    mid: Seq<Edge>,
    tail: Seq<Edge>,
)
    requires
        l.wf(),
        d < l.domains,
        drawn(l, d as int, hub, entry, mid, tail),
    ensures
        ({
            let n = allotted(StreamMode::ModeA, l.domains as int, l.facts as int);
            let facts = facts_of(d, asked(l.facts as int, hub, mid, tail));
            &&& facts.len() == l.facts
            &&& all_within(facts, d as int, n)
            &&& on_backbone(facts, d as int, hub)
        }),
{
    lemma_drawn_hubs(l, d as int, hub, entry, mid, tail);
    law_questions_are_complete(l, hub, mid, tail, d);
    let n = allotted(StreamMode::ModeA, l.domains as int, l.facts as int);
    let g = hub + entry + mid + tail;
    let edges = asked(l.facts as int, hub, mid, tail);
    let facts = facts_of(d, edges);
    let (h, m, t) = (hub.len() as int, mid.len() as int, tail.len() as int);
    let a = hub_share(l.facts as int, h, m, t);
    let b = mid_share(l.facts as int, h, m, t);
    assert forall|k: int| 0 <= k < facts.len() implies (#[trigger] facts[k]).is_within(
        d as int,
        n,
    ) && (facts[k].rank_tier == 0 ==> is_hub_fact(facts[k], d as int, hub)) by {
        let i = if k < a {
            k
        } else if k < a + b {
            h + entry.len() + k - a
        } else {
            h + entry.len() + m + k - a - b
        };
        assert(edges[k] == g[i]);
        lemma_drawn_edge(l, d, hub, entry, mid, tail, i);
    }
}

/// What a walk shows fits a stream.
proof fn lemma_walk_fits(
    l: Layout,
    d: usize,
    hub: Seq<Edge>,
    entry: Seq<Edge>,
    mid: Seq<Edge>,
    tail: Seq<Edge>,
    shown: Seq<RelationalFact>,
)
    requires
        l.wf(),
        d < l.domains,
        drawn(l, d as int, hub, entry, mid, tail),
        is_walk(hub + entry + mid + tail, d, 0, shown),
    ensures
        all_within(
            shown,
            d as int,
            allotted(StreamMode::ModeA, l.domains as int, l.facts as int),
        ),
        on_backbone(shown, d as int, hub),
{
    let n = allotted(StreamMode::ModeA, l.domains as int, l.facts as int);
    let g = hub + entry + mid + tail;
    assert forall|k: int| 0 <= k < shown.len() implies (#[trigger] shown[k]).is_within(
        d as int,
        n,
    ) && (shown[k].rank_tier == 0 ==> is_hub_fact(shown[k], d as int, hub)) by {
        let at = stands(0, shown.take(k));
        assert(took(g, d, at, shown[k]));
        let q = choose|q: int|
            0 <= q < options(g, at).len() && shown[k] == fact_of(
                d,
                g[#[trigger] options(g, at)[q]],
            );
        lemma_leaving(g, at);
        assert(0 <= options(g, at)[q] < g.len());
        lemma_drawn_edge(l, d, hub, entry, mid, tail, options(g, at)[q]);
    }
}

impl RelationalFactStream {
    /// Lays out the next of the disjoint domains: what it is asked, and what a
    /// walk through its graph has shown. All domains have the same hub edges.
    pub fn add_graph(
        &mut self,
        l: &Layout,
        hub: &[Edge],
        entry: &[Edge],
        mid: &[Edge],
        tail: &[Edge],
        walk: Walk,
    )
        requires
            old(self).wf(),
            old(self).mode == StreamMode::ModeA,
            old(self).facts@.len() < old(self).domains,
            l.wf(),
            l.domains == old(self).domains,
            l.facts == old(self).facts_per_domain,
            drawn(*l, old(self).facts@.len() as int, hub@, entry@, mid@, tail@),
            old(self).facts@.len() > 0 ==> hub@ == old(self).backbone@,
            walk.wf(),
            walk.of() == old(self).facts@.len(),
            walk.began() == 0,
            walk.graph() == hub@ + entry@ + mid@ + tail@,
            walk.seen().len() == old(self).span_tokens as int / 3,
        ensures
            final(self).wf(),
            final(self).same_terms(old(self)),
            final(self).backbone@ == hub@,
            final(self).facts@.len() == old(self).facts@.len() + 1,
            final(self).facts@.drop_last() == old(self).facts@,
            final(self).walks@.drop_last() == old(self).walks@,
            final(self).prefixes@.drop_last() == old(self).prefixes@,
            final(self).facts@.last()@ == facts_of(
                old(self).facts@.len() as usize,
                asked(l.facts as int, hub@, mid@, tail@),
            ),
            final(self).walks@.last()@ == walk.seen(),
            is_walk(
                hub@ + entry@ + mid@ + tail@,
                old(self).facts@.len() as usize,
                0,
                final(self).walks@.last()@,
            ),
            final(self).prefixes@.last()@ == Seq::<usize>::empty(),
    {
        let d: usize = self.facts.len();
        let facts: Vec<RelationalFact> = probe_facts(d, l.facts, hub, mid, tail);
        let shown: Vec<RelationalFact> = walk.into_facts();
        if d == 0 {
            let mut backbone: Vec<Edge> = Vec::new();
            append(&mut backbone, hub);
            assert(backbone@ =~= hub@);
            self.backbone = backbone;
        }
        proof {
            lemma_drawn_hubs(*l, d as int, hub@, entry@, mid@, tail@);
            lemma_asked_fits(*l, d, hub@, entry@, mid@, tail@);
            lemma_walk_fits(*l, d, hub@, entry@, mid@, tail@, shown@);
        }
        self.add_domain(facts, shown, Vec::new());
    }
}

/// What a domain is asked is balanced: a tier is asked less than its third only
/// where it has no more edges, the middle more only where the tail has none left,
/// and the hubs more only where neither has. The questions of each tier are about
/// its first edges.
pub proof fn law_questions_are_balanced(
    l: Layout,
    hub: Seq<Edge>,
    mid: Seq<Edge>,
    tail: Seq<Edge>,
)
    requires
        l.wf(),
        hub.len() == 2 * l.hubs,
        mid.len() == l.leaves,
        tail.len() == l.leaves,
    ensures
        ({
            let f = l.facts as int;
            let (h, m, t) = (hub.len() as int, mid.len() as int, tail.len() as int);
            let (a, b, c) = (hub_share(f, h, m, t), mid_share(f, h, m, t), tail_share(f, h, m, t));
            &&& a + b + c == f
            &&& 0 <= a <= h && 0 <= b <= m && 0 <= c <= t
            &&& 3 * a + 3 <= f ==> a == h
            &&& 3 * b + 3 <= f ==> b == m
            &&& 3 * c < f ==> c == t
            &&& 3 * b > f ==> c == t
            &&& 3 * a > f ==> b == m && c == t
            &&& asked(f, hub, mid, tail).subrange(0, a) == hub.subrange(0, a)
            &&& asked(f, hub, mid, tail).subrange(a, a + b) == mid.subrange(0, b)
            &&& asked(f, hub, mid, tail).subrange(a + b, f) == tail.subrange(0, c)
        }),
{
    let f = l.facts as int;
    let (h, m, t) = (hub.len() as int, mid.len() as int, tail.len() as int);
    let (a, b, c) = (hub_share(f, h, m, t), mid_share(f, h, m, t), tail_share(f, h, m, t));
    law_questions_are_complete(l, hub, mid, tail, 0);
    let all = asked(f, hub, mid, tail);
    assert(all.len() == f);
    assert(all.subrange(0, a) =~= hub.subrange(0, a));
    assert(all.subrange(a, a + b) =~= mid.subrange(0, b));
    assert(all.subrange(a + b, f) =~= tail.subrange(0, c));
}

/// The edges that a walk can take leave where it stands, in the order they are
/// listed in; only where none does can it take any.
pub proof fn law_walks_leave_where_they_stand(edges: Seq<Edge>, node: usize, k: int)
    requires
        0 <= k < edges.len(),
    ensures
        (exists|j: int| 0 <= j < edges.len() && (#[trigger] edges[j]).entity == node) ==> (options(
            edges,
            node,
        ).contains(k) <==> edges[k].entity == node),
        (forall|j: int| 0 <= j < edges.len() ==> (#[trigger] edges[j]).entity != node) ==> options(
            edges,
            node,
        ).contains(k),
        forall|p: int, q: int|
            0 <= p < q < options(edges, node).len() ==> options(edges, node)[p] < options(
                edges,
                node,
            )[q],
{
    lemma_leaving(edges, node);
    lemma_leaving_rises(edges, node);
    let all = leaving(edges, node);
    if exists|j: int| 0 <= j < edges.len() && (#[trigger] edges[j]).entity == node {
        let j = choose|j: int| 0 <= j < edges.len() && (#[trigger] edges[j]).entity == node;
        assert(all.contains(j));
        if all.contains(k) {
            let p = choose|p: int| 0 <= p < all.len() && all[p] == k;
            assert(edges[all[p]].entity == node);
        }
    } else {
        if all.len() > 0 {
            assert(edges[all[0]].entity == node);
        }
        assert(options(edges, node)[k] == k);
    }
}

proof fn lemma_leaving_rises(edges: Seq<Edge>, node: usize)
    ensures
        forall|p: int, q: int|
            0 <= p < q < leaving(edges, node).len() ==> leaving(edges, node)[p] < leaving(
                edges,
                node,
            )[q],
    decreases edges.len(),
{
    if edges.len() > 0 {
        let short = edges.drop_last();
        lemma_leaving_rises(short, node);
        lemma_leaving(short, node);
        let rest = leaving(short, node);
        let all = leaving(edges, node);
        assert forall|p: int, q: int| 0 <= p < q < all.len() implies all[p] < all[q] by {
            assert(all[p] == rest[p]);
            if q < rest.len() {
                assert(all[q] == rest[q]);
            } else {
                assert(0 <= rest[p] < short.len());
            }
        }
    }
}

} // verus!
