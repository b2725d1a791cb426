//! The out-edges of a small-world ring.

use vstd::prelude::*;

verus! {

/// The two ring neighbours of a node: the one before it, then the one after.
pub open spec fn neighbours(n: int, i: int) -> Seq<int> {
    seq![(i + n - 1) % n, (i + 1) % n]
}

/// Where a shortcut drawn as `draw` leads.
pub open spec fn shortcut(n: int, i: int, draw: int) -> int {
    (i + 1 + draw) % n
}

/// The out-edges of a node once the first `k` draws are used. A draw that leads
/// back to the node, or where an edge leads already, adds nothing.
pub open spec fn edges_after(n: int, i: int, draws: Seq<usize>, k: int) -> Seq<int>
    decreases k,
{
    if k <= 0 {
        neighbours(n, i)
    } else {
        let before = edges_after(n, i, draws, k - 1);
        let t = shortcut(n, i, draws[k - 1] as int);
        if t != i && !before.contains(t) {
            before.push(t)
        } else {
            before
        }
    }
}

/// The out-edges of a node.
pub open spec fn out_edges(n: int, i: int, draws: Seq<usize>) -> Seq<int> {
    edges_after(n, i, draws, draws.len() as int)
}

/// The draws that belong to node `i` when every node takes `shortcuts` of them.
pub open spec fn draws_of(draws: Seq<usize>, shortcuts: int, i: int) -> Seq<usize> {
    draws.subrange(i * shortcuts, (i + 1) * shortcuts)
}

/// Indices as integers.
pub open spec fn ints(v: Seq<usize>) -> Seq<int> {
    v.map_values(|x: usize| x as int)
}

/// What holds of the out-edges of a node: both ring neighbours are among them,
/// every one leads to another node, and none is there twice.
pub open spec fn edges_ok(n: int, i: int, e: Seq<int>) -> bool {
    &&& e.len() >= 2
    &&& e[0] == (i + n - 1) % n
    &&& e[1] == (i + 1) % n
    &&& forall|k: int| 0 <= k < e.len() ==> 0 <= #[trigger] e[k] < n && e[k] != i
    &&& e.no_duplicates()
}

proof fn lemma_edges_after(n: int, i: int, draws: Seq<usize>, k: int)
    requires
        4 <= n,
        0 <= i < n,
        0 <= k <= draws.len(),
    ensures
        edges_ok(n, i, edges_after(n, i, draws, k)),
        edges_after(n, i, draws, k).len() <= 2 + k,
    decreases k,
{
    if k == 0 {
        assert((i + n - 1) % n != i && (i + 1) % n != i && (i + n - 1) % n != (i + 1) % n) by {
            if i == 0 {
                vstd::arithmetic::div_mod::lemma_small_mod((n - 1) as nat, n as nat);
                vstd::arithmetic::div_mod::lemma_small_mod(1, n as nat);
            } else {
                assert((i + n - 1) % n == i - 1) by (nonlinear_arith)
                    requires
                        0 < i < n,
                ;
                if i == n - 1 {
                    vstd::arithmetic::div_mod::lemma_mod_self_0(n);
                } else {
                    vstd::arithmetic::div_mod::lemma_small_mod((i + 1) as nat, n as nat);
                }
            }
        }
        vstd::arithmetic::div_mod::lemma_mod_pos_bound(i + n - 1, n);
        vstd::arithmetic::div_mod::lemma_mod_pos_bound(i + 1, n);
    } else {
        lemma_edges_after(n, i, draws, k - 1);
        let t = shortcut(n, i, draws[k - 1] as int);
        vstd::arithmetic::div_mod::lemma_mod_pos_bound(i + 1 + draws[k - 1] as int, n);
        let before = edges_after(n, i, draws, k - 1);
        if t != i && !before.contains(t) {
            let now = before.push(t);
            assert forall|a: int, b: int| 0 <= a < now.len() && 0 <= b < now.len() && a != b implies now[a]
                != now[b] by {
                if a == before.len() {
                    assert(before.contains(before[b]));
                } else if b == before.len() {
                    assert(before.contains(before[a]));
                }
            }
        }
    }
}

/// Whatever is drawn, a node keeps both ring neighbours, has no edge to itself
/// and none twice, and gains at most one edge for each draw.
pub proof fn law_edges_are_sound(n: int, i: int, draws: Seq<usize>)
    requires
        4 <= n,
        0 <= i < n,
    ensures
        edges_ok(n, i, out_edges(n, i, draws)),
        out_edges(n, i, draws).len() <= 2 + draws.len(),
{
    lemma_edges_after(n, i, draws, draws.len() as int);
}

/// Whether `t` is in `e`.
fn holds(e: &Vec<usize>, t: usize) -> (r: bool)
    ensures
        r == ints(e@).contains(t as int),
{
    let mut k: usize = 0;
    while k < e.len()
        invariant
            k <= e@.len(),
            forall|j: int| 0 <= j < k ==> e@[j] != t,
        decreases e@.len() - k,
    {
        if e[k] == t {
            assert(ints(e@)[k as int] == t);
            return true;
        }
        k = k + 1;
    }
    assert forall|j: int| 0 <= j < ints(e@).len() implies ints(e@)[j] != t by {
        assert(ints(e@)[j] == e@[j]);
    }
    false
}

/// Builds the out-edges of node `i` from the draws `from..to`.
pub fn build_edges(n: usize, i: usize, draws: &[usize], from: usize, to: usize) -> (e: Vec<usize>)
    requires
        4 <= n,
        2 * n <= usize::MAX,
        i < n,
        from <= to <= draws@.len(),
        forall|k: int| from <= k < to ==> draws@[k] < n / 2,
    ensures
        ints(e@) == out_edges(n as int, i as int, draws@.subrange(from as int, to as int)),
        edges_ok(n as int, i as int, ints(e@)),
        e@.len() <= 2 + (to - from),
{
    let ghost mine = draws@.subrange(from as int, to as int);
    let mut e: Vec<usize> = Vec::new();
    e.push((i + n - 1) % n);
    e.push((i + 1) % n);
    let mut k: usize = from;
    assert(ints(e@) =~= edges_after(n as int, i as int, mine, 0));
    while k < to
        invariant
            4 <= n,
            2 * n <= usize::MAX,
            i < n,
            from <= k <= to <= draws@.len(),
            mine == draws@.subrange(from as int, to as int),
            forall|j: int| from <= j < to ==> draws@[j] < n / 2,
            ints(e@) == edges_after(n as int, i as int, mine, k - from),
        decreases to - k,
    {
        let d: usize = 1 + draws[k];
        let t: usize = (i + d) % n;
        assert(mine[k - from] == draws@[k as int]);
        if t != i && !holds(&e, t) {
            let ghost before = e@;
            e.push(t);
            assert(ints(e@) =~= ints(before).push(t as int));
        }
        k = k + 1;
    }
    proof {
        lemma_edges_after(n as int, i as int, mine, mine.len() as int);
    }
    e
}

/// A shortcut leads as many nodes ahead as was drawn, and one more; different
/// draws lead to different nodes.
pub proof fn law_shortcuts_reach_ahead(n: int, i: int, a: int, b: int)
    requires
        2 <= n,
        0 <= i < n,
        0 <= a < n - 1,
        0 <= b < n - 1,
    ensures
        shortcut(n, i, a) == if i + 1 + a < n {
            i + 1 + a
        } else {
            i + 1 + a - n
        },
        shortcut(n, i, a) != i,
        shortcut(n, i, 0) == neighbours(n, i)[1],
        a != b ==> shortcut(n, i, a) != shortcut(n, i, b),
{
    lemma_around(n, i + 1 + a);
    lemma_around(n, i + 1 + b);
}

proof fn lemma_around(n: int, x: int)
    requires
        0 <= x < 2 * n,
    ensures
        x % n == if x < n {
            x
        } else {
            x - n
        },
{
    if x < n {
        vstd::arithmetic::div_mod::lemma_small_mod(x as nat, n as nat);
    } else {
        vstd::arithmetic::div_mod::lemma_fundamental_div_mod_converse(x, n, 1, x - n);
    }
}

/// A node's edges are its two neighbours, one step either way, and the nodes that
/// its draws lead to: no draw is lost, unless it leads back, and there is no other
/// edge.
pub proof fn law_every_draw_gives_an_edge(n: int, i: int, draws: Seq<usize>, t: int)
    requires
        4 <= n,
        0 <= i < n,
    ensures
        out_edges(n, i, draws).contains(t) <==> (t == (i + n - 1) % n || t == (i + 1) % n || (t != i
            && exists|k: int| 0 <= k < draws.len() && t == shortcut(n, i, #[trigger] draws[k] as int))),
{
    lemma_edges_hold(n, i, draws, draws.len() as int, t);
    lemma_edges_after(n, i, draws, 0);
    if t == (i + n - 1) % n || t == (i + 1) % n {
        let base = edges_after(n, i, draws, 0);
        assert(base[0] == (i + n - 1) % n && base[1] == (i + 1) % n);
        assert(base.contains(t));
    }
}

proof fn lemma_edges_hold(n: int, i: int, draws: Seq<usize>, k: int, t: int)
    requires
        4 <= n,
        0 <= i < n,
        0 <= k <= draws.len(),
    ensures
        edges_after(n, i, draws, k).contains(t) <==> (neighbours(n, i).contains(t) || (t != i
            && exists|j: int| 0 <= j < k && t == shortcut(n, i, #[trigger] draws[j] as int))),
    decreases k,
{
    if k > 0 {
        lemma_edges_hold(n, i, draws, k - 1, t);
        let before = edges_after(n, i, draws, k - 1);
        let now = edges_after(n, i, draws, k);
        let s = shortcut(n, i, draws[k - 1] as int);
        if before.contains(t) {
            let p = choose|p: int| 0 <= p < before.len() && before[p] == t;
            assert(now[p] == t);
        }
        if now.contains(t) && !before.contains(t) {
            let p = choose|p: int| 0 <= p < now.len() && now[p] == t;
            assert(p == before.len());
            assert(t == s && t != i);
        }
        if t == s && t != i && !before.contains(t) {
            assert(now[now.len() - 1] == t);
        }
    }
}

/// Every node takes the same number of draws, one node after the other.
pub proof fn law_draws_go_round(draws: Seq<usize>, n: int, shortcuts: int, i: int, k: int)
    requires
        0 <= i < n,
        0 <= k < shortcuts,
        draws.len() == n * shortcuts,
    ensures
        draws_of(draws, shortcuts, i).len() == shortcuts,
        draws_of(draws, shortcuts, i)[k] == draws[i * shortcuts + k],
        draws_of(draws, shortcuts, 0)[0] == draws[0],
{
    assert((i + 1) * shortcuts == i * shortcuts + shortcuts && 0 <= i * shortcuts && (i + 1)
        * shortcuts <= n * shortcuts && 0 * shortcuts == 0 && (0 + 1) * shortcuts == shortcuts
        && shortcuts <= n * shortcuts) by (nonlinear_arith)
        requires
            0 <= i,
            i + 1 <= n,
            0 <= shortcuts,
            1 <= n,
    ;
}

} // verus!
