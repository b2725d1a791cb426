//! A priority queue that hands entries out best key first, leftmost first on a
//! tie.

use vstd::multiset::Multiset;
use vstd::prelude::*;
use vstd::seq_lib::{
    to_multiset_build, to_multiset_contains, to_multiset_insert, to_multiset_len,
    to_multiset_remove,
};

verus! {

/// A queued candidate. Only `key` and `at` decide its place.
#[derive(Clone, Copy, Debug, PartialEq, Eq, Structural)]
pub struct Entry {
    /// What the entry is ranked by; the largest comes first.
    pub key: u64,
    /// Its position; the smallest comes first among equal keys.
    pub at: usize,
    /// The position of what it is paired with.
    pub mate: usize,
    /// Where the pair ended when it was queued.
    pub extent: usize,
}

impl Entry {
    /// Whether `self` may be handed out while `other` is still queued.
    pub open spec fn leads(self, other: Entry) -> bool {
        self.key > other.key || (self.key == other.key && self.at <= other.at)
    }

    fn is_ahead(&self, other: &Entry) -> (r: bool)
        ensures
            r == self.leads(*other),
    {
        self.key > other.key || (self.key == other.key && self.at <= other.at)
    }
}

/// The place above `i` in the tree laid out in an array.
spec fn up(i: int) -> int {
    (i - 1) / 2
}

/// The tree order, everywhere but between `skip` and the place above it.
spec fn ordered_but(v: Seq<Entry>, skip: int) -> bool {
    forall|i: int| 0 < i < v.len() && i != skip ==> v[up(i)].leads(#[trigger] v[i])
}

/// The tree order, everywhere but between `skip` and the places below it.
spec fn ordered_but_below(v: Seq<Entry>, skip: int) -> bool {
    forall|i: int| 0 < i < v.len() && up(i) != skip ==> v[up(i)].leads(#[trigger] v[i])
}

/// What hangs below `i` also ranks below what is above `i`.
spec fn spans(v: Seq<Entry>, i: int) -> bool {
    i > 0 ==> forall|c: int|
        0 < c < v.len() && up(c) == i ==> v[up(i)].leads(#[trigger] v[c])
}

proof fn lemma_swap_keeps(v: Seq<Entry>, i: int, j: int)
    requires
        0 <= i < v.len(),
        0 <= j < v.len(),
    ensures
        v.update(i, v[j]).update(j, v[i]).to_multiset() == v.to_multiset(),
{
    lemma_update_multiset(v, i, v[j]);
    let w = v.update(i, v[j]);
    lemma_update_multiset(w, j, v[i]);
    to_multiset_contains(v, v[i]);
    to_multiset_contains(v, v[j]);
    assert(w.update(j, v[i]).to_multiset() =~= v.to_multiset());
}

proof fn lemma_update_multiset(v: Seq<Entry>, i: int, e: Entry)
    requires
        0 <= i < v.len(),
    ensures
        v.update(i, e).to_multiset() == v.to_multiset().remove(v[i]).insert(e),
{
    assert(v.update(i, e) =~= v.remove(i).insert(i, e));
    to_multiset_remove(v, i);
    to_multiset_insert(v.remove(i), i, e);
}

/// The root leads every entry.
proof fn lemma_root_leads(v: Seq<Entry>, i: int)
    requires
        0 <= i < v.len(),
        ordered_but(v, 0),
    ensures
        v[0].leads(v[i]),
    decreases i,
{
    if i > 0 {
        lemma_root_leads(v, up(i));
    }
}

/// Entries ordered by key and, among equal keys, by position.
pub struct RankQueue {
    v: Vec<Entry>,
}

impl View for RankQueue {
    type V = Multiset<Entry>;

    closed spec fn view(&self) -> Multiset<Entry> {
        self.v@.to_multiset()
    }
}

impl RankQueue {
    /// The tree order that every operation keeps.
    pub closed spec fn wf(&self) -> bool {
        ordered_but(self.v@, 0)
    }

    /// An empty queue.
    pub fn new() -> (q: Self)
        ensures
            q.wf(),
            q@ == Multiset::<Entry>::empty(),
    {
        let q = RankQueue { v: Vec::new() };
        proof {
            to_multiset_len(q.v@);
            assert(q.v@.to_multiset() =~= Multiset::<Entry>::empty()) by {
                assert forall|e: Entry| q.v@.to_multiset().count(e) == 0 by {
                    to_multiset_contains(q.v@, e);
                }
            }
        }
        q
    }

    /// How many entries are queued.
    pub fn len(&self) -> (n: usize)
        ensures
            n == self@.len(),
    {
        proof {
            to_multiset_len(self.v@);
        }
        self.v.len()
    }

    /// Queues one more entry.
    pub fn push(&mut self, e: Entry)
        requires
            old(self).wf(),
        ensures
            final(self).wf(),
            final(self)@ == old(self)@.insert(e),
    {
        proof {
            to_multiset_build(self.v@, e);
        }
        self.v.push(e);
        let mut i: usize = self.v.len() - 1;
        while i > 0
            invariant
                i < self.v@.len(),
                ordered_but(self.v@, i as int),
                spans(self.v@, i as int),
                self.v@.to_multiset() == old(self)@.insert(e),
            decreases i,
        {
            let p: usize = (i - 1) / 2;
            let low = self.v[i];
            let high = self.v[p];
            if high.is_ahead(&low) {
                assert(ordered_but(self.v@, 0));
                return ;
            }
            proof {
                lemma_swap_keeps(self.v@, i as int, p as int);
            }
            let ghost before = self.v@;
            self.v.set(i, high);
            self.v.set(p, low);
            proof {
                let now = self.v@;
                assert(up(i as int) == p);
                assert forall|c: int| 0 < c < now.len() && c != p implies now[up(c)].leads(
                    #[trigger] now[c],
                ) by {
                    assert(before[c] == before[c]);
                    if c != i {
                        assert(before[up(c)].leads(before[c]));
                    }
                }
                if p > 0 {
                    assert forall|c: int| 0 < c < now.len() && up(c) == p implies now[up(
                        p as int,
                    )].leads(#[trigger] now[c]) by {
                        assert(before[up(p as int)].leads(before[p as int]));
                        if c != i {
                            assert(before[up(c)].leads(before[c]));
                        }
                    }
                }
            }
            i = p;
        }
    }

    /// Takes out the entry that leads all others.
    pub fn pop(&mut self) -> (r: Option<Entry>)
        requires
            old(self).wf(),
        ensures
            final(self).wf(),
            match r {
                None => old(self)@.len() == 0 && final(self)@ == old(self)@,
                Some(e) => {
                    &&& old(self)@.contains(e)
                    &&& forall|f: Entry| #[trigger] old(self)@.contains(f) ==> e.leads(f)
                    &&& final(self)@ == old(self)@.remove(e)
                },
            },
    {
        let ghost whole = self.v@;
        proof {
            to_multiset_len(whole);
        }
        if self.v.len() == 0 {
            return None;
        }
        let top = self.v[0];
        proof {
            to_multiset_contains(whole, top);
            assert forall|f: Entry| #[trigger] old(self)@.contains(f) implies top.leads(f) by {
                to_multiset_contains(whole, f);
                let k = choose|k: int| 0 <= k < whole.len() && whole[k] == f;
                lemma_root_leads(whole, k);
            }
        }
        let last = self.v[self.v.len() - 1];
        self.v.truncate(self.v.len() - 1);
        if self.v.len() == 0 {
            proof {
                assert(self.v@ =~= whole.remove(0));
                to_multiset_remove(whole, 0);
            }
            return Some(top);
        }
        self.v.set(0, last);
        proof {
            let n = whole.len() - 1;
            let short = whole.subrange(0, n as int);
            assert(short =~= whole.remove(n as int));
            to_multiset_remove(whole, n as int);
            lemma_update_multiset(short, 0, last);
            assert(self.v@ =~= short.update(0, last));
            to_multiset_contains(short, top);
            to_multiset_contains(whole, last);
            assert(self.v@.to_multiset() =~= whole.to_multiset().remove(top));
            assert forall|c: int| 0 < c < self.v@.len() && up(c) != 0 implies self.v@[up(c)].leads(
                #[trigger] self.v@[c],
            ) by {
                assert(whole[up(c)].leads(whole[c]));
            }
        }
        let mut i: usize = 0;
        loop
            invariant
                i < self.v@.len(),
                ordered_but_below(self.v@, i as int),
                spans(self.v@, i as int),
                self.v@.to_multiset() == old(self)@.remove(top),
            ensures
                ordered_but(self.v@, 0),
                self.v@.to_multiset() == old(self)@.remove(top),
            decreases self.v@.len() - i,
        {
            let n: usize = self.v.len();
            if i >= n / 2 {
                break;
            }
            let left: usize = 2 * i + 1;
            let mut c: usize = left;
            if left + 1 < n {
                let a = self.v[left];
                let b = self.v[left + 1];
                if !a.is_ahead(&b) {
                    c = left + 1;
                }
            }
            let here = self.v[i];
            let below = self.v[c];
            let ghost before = self.v@;
            proof {
                assert forall|d: int| 0 < d < n && up(d) == i implies below.leads(
                    #[trigger] before[d],
                ) by {
                    assert(d == left || d == left + 1);
                }
            }
            if here.is_ahead(&below) {
                proof {
                    assert forall|d: int| 0 < d < n implies before[up(d)].leads(
                        #[trigger] before[d],
                    ) by {
                        if up(d) == i {
                            assert(below.leads(before[d]));
                        }
                    }
                }
                break;
            }
            proof {
                lemma_swap_keeps(self.v@, i as int, c as int);
            }
            self.v.set(i, below);
            self.v.set(c, here);
            proof {
                let now = self.v@;
                assert(up(c as int) == i);
                assert forall|d: int| 0 < d < now.len() && up(d) != c implies now[up(d)].leads(
                    #[trigger] now[d],
                ) by {
                    assert(before[d] == before[d]);
                    if up(d) == i {
                        assert(below.leads(before[d]));
                    } else {
                        assert(before[up(d)].leads(before[d]));
                        if d == i {
                            assert(before[up(i as int)].leads(before[c as int]));
                        }
                    }
                }
                assert forall|d: int| 0 < d < now.len() && up(d) == c implies now[up(
                    c as int,
                )].leads(#[trigger] now[d]) by {
                    assert(before[up(d)].leads(before[d]));
                }
            }
            i = c;
        }
        Some(top)
    }
}

/// Whether `a` ranks strictly before `b`: counted more often, or as often and
/// numbered lower.
pub open spec fn ranks_before(counts: Seq<u64>, a: int, b: int) -> bool {
    counts[a] > counts[b] || (counts[a] == counts[b] && a < b)
}

/// Whether `id` is counted `least` times or more.
pub open spec fn counted(counts: Seq<u64>, least: u64, id: int) -> bool {
    0 <= id < counts.len() && counts[id] >= least
}

/// Whether `r` lists every id that is counted often enough, most frequent first
/// and by number among equals.
pub open spec fn is_ranking(counts: Seq<u64>, least: u64, r: Seq<int>) -> bool {
    &&& forall|k: int| 0 <= k < r.len() ==> counted(counts, least, #[trigger] r[k])
    &&& forall|id: int| #[trigger] counted(counts, least, id) ==> r.contains(id)
    &&& forall|i: int, j: int| 0 <= i < j < r.len() ==> ranks_before(counts, r[i], r[j])
}

/// The ids that are counted often enough, most frequent first and by number
/// among equals.
pub open spec fn ranking(counts: Seq<u64>, least: u64) -> Seq<int> {
    choose|r: Seq<int>| is_ranking(counts, least, r)
}

/// Every table of counts has a ranking.
pub proof fn law_ranking_exists(counts: Seq<u64>, least: u64)
    ensures
        is_ranking(counts, least, ranking(counts, least)),
{
    let r = lemma_some_ranking(counts, least);
    assert(is_ranking(counts, least, r));
}

proof fn lemma_some_ranking(counts: Seq<u64>, least: u64) -> (r: Seq<int>)
    ensures
        is_ranking(counts, least, r),
    decreases counts.len(),
{
    if counts.len() == 0 {
        seq![]
    } else {
        let n = counts.len() - 1;
        let short = counts.drop_last();
        let r = lemma_some_ranking(short, least);
        if counts[n] < least {
            assert forall|id: int| #[trigger] counted(counts, least, id) implies r.contains(id) by {
                assert(counted(short, least, id));
            }
            assert forall|k: int| 0 <= k < r.len() implies counted(
                counts,
                least,
                #[trigger] r[k],
            ) by {
                assert(counted(short, least, r[k]));
            }
            assert forall|i: int, j: int| 0 <= i < j < r.len() implies ranks_before(
                counts,
                r[i],
                r[j],
            ) by {
                assert(counted(short, least, r[i]));
                assert(counted(short, least, r[j]));
                assert(ranks_before(short, r[i], r[j]));
            }
            r
        } else {
            let p = lemma_slot(short, least, r, counts[n], r.len() as int);
            let w = r.insert(p, n);
            assert forall|k: int| 0 <= k < w.len() implies counted(
                counts,
                least,
                #[trigger] w[k],
            ) by {
                if k != p {
                    let o = if k < p {
                        k
                    } else {
                        k - 1
                    };
                    assert(w[k] == r[o]);
                    assert(counted(short, least, r[o]));
                }
            }
            assert forall|id: int| #[trigger] counted(counts, least, id) implies w.contains(id) by {
                if id == n {
                    assert(w[p] == n);
                } else {
                    assert(counted(short, least, id));
                    let k = choose|k: int| 0 <= k < r.len() && r[k] == id;
                    assert(w[if k < p {
                        k
                    } else {
                        k + 1
                    }] == id);
                }
            }
            assert forall|i: int, j: int| 0 <= i < j < w.len() implies ranks_before(
                counts,
                w[i],
                w[j],
            ) by {
                let oi = if i < p {
                    i
                } else {
                    i - 1
                };
                let oj = if j < p {
                    j
                } else {
                    j - 1
                };
                if i != p {
                    assert(w[i] == r[oi]);
                    assert(counted(short, least, r[oi]));
                }
                if j != p {
                    assert(w[j] == r[oj]);
                    assert(counted(short, least, r[oj]));
                }
                if i != p && j != p {
                    assert(ranks_before(short, r[oi], r[oj]));
                }
            }
            w
        }
    }
}

/// Where an id counted `c` times, and numbered after all others, goes.
proof fn lemma_slot(counts: Seq<u64>, least: u64, r: Seq<int>, c: u64, n: int) -> (p: int)
    requires
        is_ranking(counts, least, r),
        0 <= n <= r.len(),
        forall|k: int| n <= k < r.len() ==> counts[#[trigger] r[k]] < c,
    ensures
        0 <= p <= n,
        forall|k: int| 0 <= k < p ==> counts[#[trigger] r[k]] >= c,
        forall|k: int| p <= k < r.len() ==> counts[#[trigger] r[k]] < c,
    decreases n,
{
    if n == 0 {
        0
    } else if counts[r[n - 1]] < c {
        lemma_slot(counts, least, r, c, n - 1)
    } else {
        assert forall|k: int| 0 <= k < n implies counts[#[trigger] r[k]] >= c by {
            if k < n - 1 {
                assert(ranks_before(counts, r[k], r[n - 1]));
            }
        }
        n
    }
}

/// There is only one ranking.
pub proof fn law_ranking_is_unique(counts: Seq<u64>, least: u64, r: Seq<int>)
    requires
        is_ranking(counts, least, r),
    ensures
        r == ranking(counts, least),
{
    let o = ranking(counts, least);
    assert(is_ranking(counts, least, o));
    assert forall|x: int| r.contains(x) == o.contains(x) by {
        if r.contains(x) {
            assert(counted(counts, least, x));
        }
        if o.contains(x) {
            assert(counted(counts, least, x));
        }
    }
    lemma_same_order(counts, r, o);
}

proof fn lemma_same_order(counts: Seq<u64>, a: Seq<int>, b: Seq<int>)
    requires
        forall|i: int, j: int| 0 <= i < j < a.len() ==> ranks_before(counts, a[i], a[j]),
        forall|i: int, j: int| 0 <= i < j < b.len() ==> ranks_before(counts, b[i], b[j]),
        forall|x: int| a.contains(x) == b.contains(x),
    ensures
        a == b,
    decreases a.len(),
{
    if a.len() == 0 {
        if b.len() > 0 {
            assert(b.contains(b[0]));
        }
        assert(a =~= b);
    } else {
        assert(a.contains(a[0]));
        let j = choose|j: int| 0 <= j < b.len() && b[j] == a[0];
        assert(b.contains(b[0]));
        let i = choose|i: int| 0 <= i < a.len() && a[i] == b[0];
        assert(a[0] == b[0]) by {
            if i > 0 {
                assert(ranks_before(counts, a[0], a[i]));
            }
            if j > 0 {
                assert(ranks_before(counts, b[0], b[j]));
            }
        }
        let at = a.drop_first();
        let bt = b.drop_first();
        assert forall|x: int| at.contains(x) == bt.contains(x) by {
            if at.contains(x) {
                let k = choose|k: int| 0 <= k < at.len() && at[k] == x;
                assert(a[k + 1] == x);
                assert(ranks_before(counts, a[0], a[k + 1]));
                assert(a.contains(x));
                let m = choose|m: int| 0 <= m < b.len() && b[m] == x;
                assert(bt[m - 1] == x);
            }
            if bt.contains(x) {
                let k = choose|k: int| 0 <= k < bt.len() && bt[k] == x;
                assert(b[k + 1] == x);
                assert(ranks_before(counts, b[0], b[k + 1]));
                assert(b.contains(x));
                let m = choose|m: int| 0 <= m < a.len() && a[m] == x;
                assert(at[m - 1] == x);
            }
        }
        lemma_same_order(counts, at, bt);
        assert(a =~= seq![a[0]] + at);
        assert(b =~= seq![b[0]] + bt);
    }
}

/// Indices as integers.
pub open spec fn as_ints(v: Seq<usize>) -> Seq<int> {
    v.map_values(|x: usize| x as int)
}

/// Lists the ids counted `least` times or more, most frequent first and by
/// number among equals.
pub fn rank_ids(counts: &[u64], least: u64) -> (r: Vec<usize>)
    ensures
        is_ranking(counts@, least, as_ints(r@)),
        as_ints(r@) == ranking(counts@, least),
{
    let mut queue = RankQueue::new();
    let mut id: usize = 0;
    while id < counts.len()
        invariant
            id <= counts@.len(),
            queue.wf(),
            forall|e: Entry| #[trigger]
                queue@.contains(e) ==> e.at < id && counted(counts@, least, e.at as int) && e
                    == plain_entry(counts@, e.at as int) && queue@.count(e) == 1,
            forall|k: int|
                0 <= k < id && #[trigger] counted(counts@, least, k) ==> queue@.contains(
                    plain_entry(counts@, k),
                ),
        decreases counts@.len() - id,
    {
        let ghost before = queue@;
        if counts[id] >= least {
            let e = Entry { key: counts[id], at: id, mate: 0, extent: 0 };
            assert(!before.contains(e));
            queue.push(e);
            assert forall|f: Entry| #[trigger] queue@.contains(f) implies f.at < id + 1 && counted(
                counts@,
                least,
                f.at as int,
            ) && f == plain_entry(counts@, f.at as int) && queue@.count(f) == 1 by {
                if f != e {
                    assert(before.contains(f));
                }
            }
            assert forall|k: int|
                0 <= k < id + 1 && #[trigger] counted(counts@, least, k) implies queue@.contains(
                plain_entry(counts@, k),
            ) by {
                if k < id {
                    assert(before.contains(plain_entry(counts@, k)));
                }
            }
        }
        id = id + 1;
    }
    let mut r: Vec<usize> = Vec::new();
    let n: usize = counts.len();
    loop
        invariant
            n == counts@.len(),
            queue.wf(),
            forall|e: Entry| #[trigger]
                queue@.contains(e) ==> e.at < counts@.len() && counted(
                    counts@,
                    least,
                    e.at as int,
                ) && e == plain_entry(counts@, e.at as int) && queue@.count(e) == 1,
            forall|k: int| #[trigger]
                counted(counts@, least, k) ==> queue@.contains(plain_entry(counts@, k))
                    || as_ints(r@).contains(k),
            forall|k: int| 0 <= k < r@.len() ==> counted(counts@, least, #[trigger] as_ints(r@)[k]),
            forall|i: int, j: int|
                0 <= i < j < r@.len() ==> ranks_before(counts@, as_ints(r@)[i], as_ints(r@)[j]),
            forall|i: int, e: Entry|
                0 <= i < r@.len() && #[trigger] queue@.contains(e) ==> ranks_before(
                    counts@,
                    #[trigger] as_ints(r@)[i],
                    e.at as int,
                ),
        ensures
            queue@.len() == 0,
        decreases queue@.len(),
    {
        let ghost full = queue@;
        let ghost had = as_ints(r@);
        let e = match queue.pop() {
            Some(e) => e,
            None => {
                break;
            },
        };
        assert(full.contains(e));
        r.push(e.at);
        proof {
            let now = as_ints(r@);
            assert(now =~= had.push(e.at as int));
            assert forall|f: Entry| #[trigger] queue@.contains(f) implies f.at < counts@.len()
                && counted(counts@, least, f.at as int) && f == plain_entry(counts@, f.at as int)
                && queue@.count(f) == 1 && full.contains(f) && f != e by {
                assert(full.contains(f));
            }
            assert forall|k: int| #[trigger] counted(counts@, least, k) implies queue@.contains(
                plain_entry(counts@, k),
            ) || now.contains(k) by {
                if had.contains(k) {
                    let m = choose|m: int| 0 <= m < had.len() && had[m] == k;
                    assert(now[m] == k);
                } else {
                    let f = plain_entry(counts@, k);
                    assert(full.contains(f));
                    if f == e {
                        assert(now[had.len() as int] == k);
                    }
                }
            }
            assert forall|i: int, j: int| 0 <= i < j < now.len() implies ranks_before(
                counts@,
                now[i],
                now[j],
            ) by {
                if j == had.len() {
                    assert(had[i] == now[i]);
                    assert(full.contains(e));
                } else {
                    assert(had[i] == now[i] && had[j] == now[j]);
                }
            }
            assert forall|i: int, f: Entry|
                0 <= i < now.len() && #[trigger] queue@.contains(f) implies ranks_before(
                counts@,
                #[trigger] now[i],
                f.at as int,
            ) by {
                assert(full.contains(f));
                assert(e.leads(f));
                if i < had.len() {
                    assert(had[i] == now[i]);
                }
            }
        }
    }
    proof {
        assert forall|k: int| #[trigger] counted(counts@, least, k) implies as_ints(r@).contains(
            k,
        ) by {
            assert(!queue@.contains(plain_entry(counts@, k)));
        }
        law_ranking_is_unique(counts@, least, as_ints(r@));
    }
    r
}

/// The queue entry of an id.
spec fn plain_entry(counts: Seq<u64>, id: int) -> Entry {
    Entry { key: counts[id], at: id as usize, mate: 0, extent: 0 }
}

/// A ranking holds what is counted at least so often, the more frequent before the
/// less frequent and, of equals, the lower number first.
pub proof fn law_the_more_frequent_come_first(counts: Seq<u64>, least: u64, a: int, b: int)
    requires
        0 <= a < counts.len(),
        0 <= b < counts.len(),
    ensures
        ranking(counts, least).contains(a) <==> counts[a] >= least,
        counts[a] >= least && counts[b] >= least && counts[b] < counts[a] ==> ranking(
            counts,
            least,
        ).index_of(a) < ranking(counts, least).index_of(b),
        counts[a] >= least && counts[b] == counts[a] && a < b ==> ranking(counts, least).index_of(a)
            < ranking(counts, least).index_of(b),
        ranking(counts, least).no_duplicates(),
{
    let r = ranking(counts, least);
    law_ranking_exists(counts, least);
    if r.contains(a) {
        let k = r.index_of(a);
        assert(counted(counts, least, r[k]));
    }
    if counts[a] >= least && counts[b] >= least {
        assert(counted(counts, least, a) && counted(counts, least, b));
        let (i, j) = (r.index_of(a), r.index_of(b));
        assert(0 <= i < r.len() && r[i] == a);
        assert(0 <= j < r.len() && r[j] == b);
        if j < i {
            assert(ranks_before(counts, r[j], r[i]));
        }
    }
    assert forall|i: int, j: int| 0 <= i < j < r.len() implies r[i] != r[j] by {
        assert(ranks_before(counts, r[i], r[j]));
    }
}

} // verus!
