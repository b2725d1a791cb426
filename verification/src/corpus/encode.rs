//! Segmenting a text into token ids.

use crate::corpus::merge::{
    cuts_ok, escaped, every_cut, ids_of, is_best, join_place, lemma_merge_step, merged,
    pair_place, symbol_ids, symbols, tokens,
};
use crate::corpus::tokenizer::{find, Tokenizer, SPACE};
use crate::corpus::vocabulary::Piece;
use crate::rank::{Entry, RankQueue};
use vstd::multiset::Multiset;
use vstd::prelude::*;
use vstd::utf8::encode_utf8;

verus! {

/// The symbols of a text as a doubly linked list over its characters, so a
/// merge is a pointer update rather than a shift of everything to its right.
struct Links {
    /// Where the symbol that starts here ends, and so where the next starts.
    next: Vec<usize>,
    /// Where the symbol before the one that starts here starts.
    prev: Vec<usize>,
    /// Whether a symbol starts here.
    alive: Vec<bool>,
}

impl Links {
    /// The links around the symbol between the cuts `p` and `p + 1`.
    spec fn linked(&self, cuts: Seq<int>, p: int) -> bool {
        &&& self.alive@[cuts[p]]
        &&& self.next@[cuts[p]] == cuts[p + 1]
        &&& p > 0 ==> self.prev@[cuts[p]] == cuts[p - 1]
    }

    /// The list is that of `cuts`.
    spec fn holds(&self, cuts: Seq<int>, n: int) -> bool {
        &&& cuts_ok(cuts, n)
        &&& self.next@.len() == n
        &&& self.prev@.len() == n
        &&& self.alive@.len() == n
        &&& forall|p: int| 0 <= p < cuts.len() - 1 ==> #[trigger] self.linked(cuts, p)
        &&& forall|k: int|
            0 <= k < n && #[trigger] self.alive@[k] ==> exists|p: int|
                0 <= p < cuts.len() - 1 && cuts[p] == k
    }
}

/// The queue entry of the pair at `p`.
spec fn pair_entry(v: Seq<Piece>, text: Seq<char>, cuts: Seq<int>, p: int) -> Entry {
    Entry {
        key: pair_place(v, text, cuts, p)->0 as u64,
        at: cuts[p] as usize,
        mate: cuts[p + 1] as usize,
        extent: cuts[p + 2] as usize,
    }
}

/// Every entry was a pair when it was queued.
spec fn sound(v: Seq<Piece>, text: Seq<char>, q: Multiset<Entry>) -> bool {
    forall|e: Entry| #[trigger]
        q.contains(e) ==> e.at < e.mate < e.extent <= text.len() && join_place(
            v,
            text,
            e.at as int,
            e.extent as int,
        ) == Some(e.key as int)
}

/// Every pair that can be merged is queued, but for those at `p` and `q`.
spec fn complete_but(
    v: Seq<Piece>,
    text: Seq<char>,
    cuts: Seq<int>,
    queue: Multiset<Entry>,
    p: int,
    q: int,
) -> bool {
    forall|r: int|
        r != p && r != q && (#[trigger] pair_place(v, text, cuts, r)) is Some ==> queue.contains(
            pair_entry(v, text, cuts, r),
        )
}

impl Tokenizer {
    /// The place of the piece spelled between two positions, if it is one that
    /// may come out of a merge.
    fn place_between(&self, chars: &Vec<char>, from: usize, to: usize) -> (r: Option<u64>)
        requires
            self.wf(),
            from <= to <= chars@.len(),
        ensures
            r is Some <==> join_place(self@, chars@, from as int, to as int) is Some,
            r is Some ==> r->0 == join_place(self@, chars@, from as int, to as int)->0,
    {
        let text = text_between(chars, from, to);
        match self.lookup(text.as_str()) {
            Some(id) => self.merge_place(id),
            None => None,
        }
    }

    /// Queues the pair of symbols that start at `l` and `r`, if it can be
    /// merged.
    fn push_pair(&self, chars: &Vec<char>, queue: &mut RankQueue, l: usize, r: usize, to: usize)
        requires
            self.wf(),
            old(queue).wf(),
            l < r < to <= chars@.len(),
        ensures
            final(queue).wf(),
            join_place(self@, chars@, l as int, to as int) is None ==> final(queue)@
                == old(queue)@,
            join_place(self@, chars@, l as int, to as int) matches Some(place) ==> final(queue)@
                == old(queue)@.insert(
                (Entry { key: place as u64, at: l, mate: r, extent: to }),
            ) && 0 <= place <= u64::MAX,
    {
        match self.place_between(chars, l, to) {
            Some(key) => queue.push(Entry { key, at: l, mate: r, extent: to }),
            None => {},
        }
    }
}

proof fn lemma_cut_range(cuts: Seq<int>, n: int, p: int)
    requires
        cuts_ok(cuts, n),
        0 <= p < cuts.len(),
    ensures
        0 <= cuts[p] <= n,
        p < cuts.len() - 1 ==> cuts[p] < n && cuts[p] < cuts[p + 1],
{
    assert(p > 0 ==> cuts[0] < cuts[p]);
    assert(p < cuts.len() - 1 ==> cuts[p] < cuts[cuts.len() - 1]);
}

proof fn lemma_cut_order(cuts: Seq<int>, n: int, o: int, p: int)
    requires
        cuts_ok(cuts, n),
        0 <= p < cuts.len(),
        0 <= o < cuts.len(),
    ensures
        o < p <==> cuts[o] < cuts[p],
        o == p <==> cuts[o] == cuts[p],
{
    if o < p {
        assert(cuts[o] < cuts[p]);
    } else if p < o {
        assert(cuts[p] < cuts[o]);
    }
}

/// Queueing a pair keeps the queue sound and what it held.
proof fn lemma_push_sound(
    v: Seq<Piece>,
    text: Seq<char>,
    before: Multiset<Entry>,
    after: Multiset<Entry>,
    l: usize,
    r: usize,
    to: usize,
)
    requires
        sound(v, text, before),
        l < r < to <= text.len(),
        join_place(v, text, l as int, to as int) is None ==> after == before,
        join_place(v, text, l as int, to as int) matches Some(place) ==> after == before.insert(
            (Entry { key: place as u64, at: l, mate: r, extent: to }),
        ),
    ensures
        sound(v, text, after),
        forall|e: Entry| before.contains(e) ==> #[trigger] after.contains(e),
        join_place(v, text, l as int, to as int) matches Some(place) ==> after.contains(
            (Entry { key: place as u64, at: l, mate: r, extent: to }),
        ),
{
    lemma_place_range(v, text, l as int, to as int);
    if let Some(place) = join_place(v, text, l as int, to as int) {
        let new = Entry { key: place as u64, at: l, mate: r, extent: to };
        assert forall|e: Entry| #[trigger] after.contains(e) implies e.at < e.mate < e.extent
            <= text.len() && join_place(v, text, e.at as int, e.extent as int) == Some(
            e.key as int,
        ) by {
            if e != new {
                assert(before.contains(e));
            }
        }
    }
}

/// A stale entry is no pair, so a complete queue stays complete without it.
proof fn lemma_stale(
    v: Seq<Piece>,
    text: Seq<char>,
    cuts: Seq<int>,
    queue: Multiset<Entry>,
    e: Entry,
)
    requires
        cuts_ok(cuts, text.len() as int),
        text.len() <= usize::MAX,
        sound(v, text, queue),
        complete_but(v, text, cuts, queue, -1, -1),
        forall|r: int|
            0 <= r && r + 2 < cuts.len() ==> !(#[trigger] cuts[r] == e.at && cuts[r + 1] == e.mate
                && cuts[r + 2] == e.extent),
    ensures
        sound(v, text, queue.remove(e)),
        complete_but(v, text, cuts, queue.remove(e), -1, -1),
{
    assert forall|f: Entry| #[trigger] queue.remove(e).contains(f) implies f.at < f.mate < f.extent
        <= text.len() && join_place(v, text, f.at as int, f.extent as int) == Some(
        f.key as int,
    ) by {
        assert(queue.contains(f));
    }
    assert forall|r: int|
        (#[trigger] pair_place(v, text, cuts, r)) is Some implies queue.remove(e).contains(
        pair_entry(v, text, cuts, r),
    ) by {
        let f = pair_entry(v, text, cuts, r);
        assert(queue.contains(f));
        lemma_cut_range(cuts, text.len() as int, r);
        lemma_cut_range(cuts, text.len() as int, r + 1);
        lemma_cut_range(cuts, text.len() as int, r + 2);
        assert(!(cuts[r] == e.at && cuts[r + 1] == e.mate && cuts[r + 2] == e.extent));
        assert(f != e);
    }
}

/// Taking an entry out leaves the rest sound.
proof fn lemma_remove_sound(v: Seq<Piece>, text: Seq<char>, queue: Multiset<Entry>, e: Entry)
    requires
        sound(v, text, queue),
    ensures
        sound(v, text, queue.remove(e)),
{
    assert forall|f: Entry| #[trigger] queue.remove(e).contains(f) implies f.at < f.mate < f.extent
        <= text.len() && join_place(v, text, f.at as int, f.extent as int) == Some(
        f.key as int,
    ) by {
        assert(queue.contains(f));
    }
}

/// A place fits the queue's keys.
proof fn lemma_place_range(v: Seq<Piece>, text: Seq<char>, from: int, to: int)
    ensures
        join_place(v, text, from, to) matches Some(place) ==> 0 <= place <= 0x1_0000_0000,
{
}

/// The entry that leads a complete queue is the pair to merge.
proof fn lemma_lead_is_best(
    v: Seq<Piece>,
    text: Seq<char>,
    cuts: Seq<int>,
    queue: Multiset<Entry>,
    e: Entry,
    p: int,
)
    requires
        cuts_ok(cuts, text.len() as int),
        text.len() <= usize::MAX,
        sound(v, text, queue),
        complete_but(v, text, cuts, queue, -1, -1),
        queue.contains(e),
        forall|f: Entry| #[trigger] queue.contains(f) ==> e.leads(f),
        0 <= p,
        p + 2 < cuts.len(),
        cuts[p] == e.at,
        cuts[p + 1] == e.mate,
        cuts[p + 2] == e.extent,
    ensures
        is_best(v, text, cuts, p),
{
    assert(pair_place(v, text, cuts, p) == Some(e.key as int));
    assert forall|q: int| (#[trigger] pair_place(v, text, cuts, q)) is Some implies pair_place(
        v,
        text,
        cuts,
        q,
    )->0 < pair_place(v, text, cuts, p)->0 || (pair_place(v, text, cuts, q)->0 == pair_place(
        v,
        text,
        cuts,
        p,
    )->0 && p <= q) by {
        let f = pair_entry(v, text, cuts, q);
        assert(queue.contains(f));
        assert(e.leads(f));
        lemma_place_range(v, text, cuts[q], cuts[q + 2]);
        assert(0 <= cuts[q] <= text.len()) by {
            assert(q > 0 ==> cuts[0] < cuts[q]);
            assert(cuts[q] < cuts[cuts.len() - 1]);
        }
        if q < p {
            assert(cuts[q] < cuts[p]);
        }
    }
}

/// What is still queued once the pair at `p` is merged: every pair but the two
/// that the merged symbol is part of.
proof fn lemma_complete_after(
    v: Seq<Piece>,
    text: Seq<char>,
    cuts: Seq<int>,
    queue: Multiset<Entry>,
    p: int,
)
    requires
        cuts_ok(cuts, text.len() as int),
        text.len() <= usize::MAX,
        complete_but(v, text, cuts, queue, -1, -1),
        0 <= p,
        p + 2 < cuts.len(),
        pair_place(v, text, cuts, p) is Some,
    ensures
        complete_but(
            v,
            text,
            cuts.remove(p + 1),
            queue.remove(pair_entry(v, text, cuts, p)),
            p - 1,
            p,
        ),
{
    let now = cuts.remove(p + 1);
    let e = pair_entry(v, text, cuts, p);
    assert forall|r: int|
        r != p - 1 && r != p && (#[trigger] pair_place(v, text, now, r)) is Some implies queue.remove(
        e,
    ).contains(pair_entry(v, text, now, r)) by {
        let o = if r < p {
            r
        } else {
            r + 1
        };
        assert(now[r] == cuts[o] && now[r + 1] == cuts[o + 1] && now[r + 2] == cuts[o + 2]);
        assert(pair_place(v, text, cuts, o) == pair_place(v, text, now, r));
        let f = pair_entry(v, text, cuts, o);
        assert(queue.contains(f));
        if o < p {
            assert(cuts[o] < cuts[p]);
        } else {
            assert(cuts[p] < cuts[o]);
        }
        assert(0 <= cuts[o] <= text.len() && 0 <= cuts[p] <= text.len()) by {
            assert(o > 0 ==> cuts[0] < cuts[o]);
            assert(p > 0 ==> cuts[0] < cuts[p]);
            assert(cuts[o] < cuts[cuts.len() - 1]);
            assert(cuts[p] < cuts[cuts.len() - 1]);
        }
        assert(f.at != e.at);
    }
}

impl Links {
    /// One symbol for each character.
    fn single(n: usize) -> (links: Links)
        ensures
            links.holds(every_cut(n as nat), n as int),
    {
        let mut next: Vec<usize> = Vec::new();
        let mut prev: Vec<usize> = Vec::new();
        let mut alive: Vec<bool> = Vec::new();
        let mut k: usize = 0;
        while k < n
            invariant
                k <= n,
                next@.len() == k,
                prev@.len() == k,
                alive@.len() == k,
                forall|j: int| 0 <= j < k ==> #[trigger] next@[j] == j + 1,
                forall|j: int| 0 < j < k ==> #[trigger] prev@[j] == j - 1,
                forall|j: int| 0 <= j < k ==> #[trigger] alive@[j],
            decreases n - k,
        {
            next.push(k + 1);
            prev.push(if k == 0 {
                0
            } else {
                k - 1
            });
            alive.push(true);
            k = k + 1;
        }
        let links = Links { next, prev, alive };
        proof {
            let cuts = every_cut(n as nat);
            assert forall|p: int| 0 <= p < cuts.len() - 1 implies #[trigger] links.linked(
                cuts,
                p,
            ) by {}
            assert forall|j: int| 0 <= j < n && #[trigger] links.alive@[j] implies exists|p: int|
                0 <= p < cuts.len() - 1 && cuts[p] == j by {
                assert(cuts[j] == j);
            }
        }
        links
    }

    /// Joins the symbols that start at `l` and `r`.
    fn join(&mut self, l: usize, r: usize, to: usize, Ghost(cuts): Ghost<Seq<int>>, Ghost(p): Ghost<int>)
        requires
            old(self).holds(cuts, old(self).next@.len() as int),
            0 <= p,
            p + 2 < cuts.len(),
            cuts[p] == l,
            cuts[p + 1] == r,
            cuts[p + 2] == to,
        ensures
            final(self).holds(cuts.remove(p + 1), old(self).next@.len() as int),
            final(self).next@.len() == old(self).next@.len(),
    {
        let ghost n = self.next@.len() as int;
        proof {
            lemma_cut_range(cuts, n, p);
            lemma_cut_range(cuts, n, p + 1);
            lemma_cut_range(cuts, n, p + 2);
        }
        self.next.set(l, to);
        self.alive.set(r, false);
        if to < self.next.len() {
            self.prev.set(to, l);
        }
        proof {
            let now = cuts.remove(p + 1);
            assert(cuts_ok(now, n));
            assert forall|q: int| 0 <= q < now.len() - 1 implies #[trigger] self.linked(
                now,
                q,
            ) by {
                let o = if q <= p {
                    q
                } else {
                    q + 1
                };
                assert(old(self).linked(cuts, o));
                lemma_cut_range(cuts, n, o);
                lemma_cut_order(cuts, n, o, p);
                lemma_cut_order(cuts, n, o, p + 1);
                lemma_cut_order(cuts, n, o, p + 2);
                assert(now[q] == cuts[o]);
                assert(q != p ==> now[q + 1] == cuts[o + 1]);
                assert(q == p ==> now[q + 1] == cuts[p + 2]);
                assert(q > 0 && q != p + 1 ==> now[q - 1] == cuts[o - 1]);
                assert(q == p + 1 ==> now[q - 1] == cuts[p]);
            }
            assert forall|k: int| 0 <= k < n && #[trigger] self.alive@[k] implies exists|q: int|
                0 <= q < now.len() - 1 && now[q] == k by {
                assert(old(self).alive@[k]);
                let o = choose|o: int| 0 <= o < cuts.len() - 1 && cuts[o] == k;
                let q = if o <= p {
                    o
                } else {
                    o - 1
                };
                assert(now[q] == k);
            }
        }
    }
}

impl Tokenizer {
    /// Queues the two pairs that a symbol is part of.
    fn requeue(
        &self,
        chars: &Vec<char>,
        links: &Links,
        queue: &mut RankQueue,
        at: usize,
        end: usize,
        Ghost(now): Ghost<Seq<int>>,
        Ghost(p): Ghost<int>,
    )
        requires
            self.wf(),
            old(queue).wf(),
            links.holds(now, chars@.len() as int),
            0 <= p < now.len() - 1,
            now[p] == at,
            now[p + 1] == end,
            sound(self@, chars@, old(queue)@),
            complete_but(self@, chars@, now, old(queue)@, p - 1, p),
        ensures
            final(queue).wf(),
            sound(self@, chars@, final(queue)@),
            complete_but(self@, chars@, now, final(queue)@, -1, -1),
    {
        let ghost v = self@;
        let ghost text = chars@;
        let ghost n = chars@.len() as int;
        let ghost left = queue@;
        proof {
            lemma_cut_range(now, n, p);
            lemma_cut_range(now, n, p + 1);
            assert(links.linked(now, p));
        }
        if end < chars.len() {
            proof {
                assert(p + 1 < now.len() - 1);
                assert(links.linked(now, p + 1));
                lemma_cut_range(now, n, p + 2);
            }
            let to: usize = links.next[end];
            self.push_pair(chars, queue, at, end, to);
            proof {
                lemma_push_sound(v, text, left, queue@, at, end, to);
            }
        } else {
            proof {
                lemma_cut_order(now, n, p + 1, now.len() - 1);
            }
        }
        let ghost mid = queue@;
        assert(complete_but(v, text, now, mid, p - 1, p - 1)) by {
            assert forall|r: int|
                r != p - 1 && (#[trigger] pair_place(v, text, now, r)) is Some implies mid.contains(
                pair_entry(v, text, now, r),
            ) by {
                if r != p {
                    assert(left.contains(pair_entry(v, text, now, r)));
                }
            }
        }
        if at > 0 {
            proof {
                lemma_cut_order(now, n, 0, p);
                assert(p > 0);
                lemma_cut_range(now, n, p - 1);
            }
            let from: usize = links.prev[at];
            self.push_pair(chars, queue, from, at, end);
            proof {
                lemma_push_sound(v, text, mid, queue@, from, at, end);
            }
        } else {
            proof {
                lemma_cut_order(now, n, 0, p);
            }
        }
        assert forall|r: int| (#[trigger] pair_place(v, text, now, r)) is Some implies queue@.contains(
            pair_entry(v, text, now, r),
        ) by {
            if r != p - 1 {
                assert(mid.contains(pair_entry(v, text, now, r)));
            }
        }
    }

    /// Merges pairs until none is left that can be merged.
    fn segment(&self, chars: &Vec<char>) -> (links: Links)
        requires
            self.wf(),
        ensures
            links.holds(symbols(self@, chars@), chars@.len() as int),
    {
        let n: usize = chars.len();
        let ghost v = self@;
        let ghost text = chars@;
        let ghost start = every_cut(n as nat);
        let mut links = Links::single(n);
        let mut queue = RankQueue::new();
        let mut k: usize = 0;
        while n >= 2 && k < n - 1
            invariant
                self.wf(),
                n == chars@.len(),
                v == self@,
                text == chars@,
                start == every_cut(n as nat),
                k == 0 || k < n,
                queue.wf(),
                sound(v, text, queue@),
                forall|r: int|
                    r < k && (#[trigger] pair_place(v, text, start, r)) is Some
                        ==> queue@.contains(pair_entry(v, text, start, r)),
            decreases n - k,
        {
            let ghost before = queue@;
            self.push_pair(chars, &mut queue, k, k + 1, k + 2);
            proof {
                lemma_push_sound(v, text, before, queue@, k, (k + 1) as usize, (k + 2) as usize);
                assert forall|r: int|
                    r < k + 1 && (#[trigger] pair_place(v, text, start, r)) is Some implies queue@.contains(
                pair_entry(v, text, start, r)) by {
                    if r < k {
                        assert(before.contains(pair_entry(v, text, start, r)));
                    }
                }
            }
            k = k + 1;
        }
        let ghost mut cuts = start;
        loop
            invariant
                self.wf(),
                n == chars@.len(),
                v == self@,
                text == chars@,
                start == every_cut(n as nat),
                queue.wf(),
                links.holds(cuts, n as int),
                merged(v, text, cuts) == merged(v, text, start),
                sound(v, text, queue@),
                complete_but(v, text, cuts, queue@, -1, -1),
            ensures
                queue@.len() == 0,
            decreases cuts.len(), queue@.len(),
        {
            let ghost full = queue@;
            let e = match queue.pop() {
                Some(e) => e,
                None => {
                    break;
                },
            };
            assert(full.contains(e));
            assert(e.at < e.mate < e.extent <= n);
            // Stale entry: an endpoint merged away, the pair stopped being
            // adjacent, or the right half grew after this was queued.
            if !links.alive[e.at] || !links.alive[e.mate] || links.next[e.at] != e.mate
                || links.next[e.mate] != e.extent {
                proof {
                    assert forall|r: int| 0 <= r && r + 2 < cuts.len() implies !(
                    #[trigger] cuts[r] == e.at && cuts[r + 1] == e.mate && cuts[r + 2]
                        == e.extent) by {
                        assert(links.linked(cuts, r));
                        assert(links.linked(cuts, r + 1));
                    }
                    lemma_stale(v, text, cuts, full, e);
                }
                continue ;
            }
            let ghost p = choose|p: int| 0 <= p < cuts.len() - 1 && cuts[p] == e.at;
            proof {
                assert(links.alive@[e.at as int]);
                assert(0 <= p < cuts.len() - 1 && cuts[p] == e.at);
                assert(links.linked(cuts, p));
                assert(cuts[p + 1] == e.mate);
                assert(p + 1 < cuts.len() - 1);
                assert(links.linked(cuts, p + 1));
                lemma_lead_is_best(v, text, cuts, full, e, p);
                lemma_place_range(v, text, cuts[p], cuts[p + 2]);
                assert(pair_entry(v, text, cuts, p) == e);
                lemma_merge_step(v, text, cuts, p);
                lemma_complete_after(v, text, cuts, full, p);
                lemma_remove_sound(v, text, full, e);
            }
            links.join(e.at, e.mate, e.extent, Ghost(cuts), Ghost(p));
            let ghost now = cuts.remove(p + 1);
            self.requeue(chars, &links, &mut queue, e.at, e.extent, Ghost(now), Ghost(p));
            proof {
                cuts = now;
            }
        }
        proof {
            assert(forall|p: int| pair_place(v, text, cuts, p) is None) by {
                assert forall|p: int| pair_place(v, text, cuts, p) is None by {
                    if pair_place(v, text, cuts, p) is Some {
                        assert(queue@.contains(pair_entry(v, text, cuts, p)));
                    }
                }
            }
            assert(merged(v, text, cuts) == cuts);
        }
        links
    }
}

/// The text between two positions.
fn text_between(chars: &Vec<char>, from: usize, to: usize) -> (text: String)
    requires
        from <= to <= chars@.len(),
    ensures
        text@ == chars@.subrange(from as int, to as int),
{
    let mut text = String::new();
    let mut k: usize = from;
    assert(text@ =~= chars@.subrange(from as int, from as int));
    while k < to
        invariant
            from <= k <= to <= chars@.len(),
            text@ == chars@.subrange(from as int, k as int),
        decreases to - k,
    {
        text.push(chars[k]);
        k = k + 1;
        assert(text@ =~= chars@.subrange(from as int, k as int));
    }
    text
}

/// The characters of a text, its spaces escaped.
fn escape(text: &str) -> (chars: Vec<char>)
    ensures
        chars@ == escaped(text@),
{
    broadcast use vstd::string::axiom_spec_iter;

    let mut chars: Vec<char> = Vec::new();
    for c in it: text.chars()
        invariant
            it.seq() == text@,
            chars@ == escaped(text@.take(it.index() as int)),
    {
        chars.push(if c == ' ' {
            SPACE
        } else {
            c
        });
        assert(chars@ =~= escaped(text@.take(it.index() + 1)));
    }
    assert(text@.take(text@.len() as int) =~= text@);
    chars
}

impl Tokenizer {
    /// Appends the ids of one symbol.
    fn emit(&self, symbol: &str, out: &mut Vec<u32>)
        requires
            self.wf(),
        ensures
            final(out)@ == old(out)@ + symbol_ids(self@, symbol@),
    {
        match self.lookup(symbol) {
            Some(id) => {
                out.push(id);
                assert(out@ =~= old(out)@ + symbol_ids(self@, symbol@));
            },
            None => {
                // Byte fallback, so ordinary text never becomes `<unk>`.
                let bytes = symbol.as_bytes();
                let ghost all = symbol_ids(self@, symbol@);
                assert(bytes@ == encode_utf8(symbol@));
                let mut k: usize = 0;
                assert(out@ =~= old(out)@ + all.take(0));
                while k < bytes.len()
                    invariant
                        self.wf(),
                        k <= bytes@.len(),
                        all == symbol_ids(self@, symbol@),
                        find(self@, symbol@) is None,
                        bytes@ == encode_utf8(symbol@),
                        out@ == old(out)@ + all.take(k as int),
                    decreases bytes@.len() - k,
                {
                    out.push(self.byte_token(bytes[k]));
                    k = k + 1;
                    assert(out@ =~= old(out)@ + all.take(k as int));
                }
                assert(all.take(k as int) =~= all);
            },
        }
    }

    /// Segments `text` and appends its token ids to `out`.
    ///
    /// Greedy BPE: start from single characters and repeatedly merge whichever
    /// adjacent pair forms the highest-scoring piece in the vocabulary, leftmost
    /// first on a tie.
    pub fn encode(&self, text: &str, out: &mut Vec<u32>)
        requires
            self.wf(),
        ensures
            final(out)@ == old(out)@ + tokens(self@, text@),
    {
        // Identity normalisation, no dummy prefix; only whitespace escaping.
        let chars = escape(text);
        let links = self.segment(&chars);
        let ghost v = self@;
        let ghost t = escaped(text@);
        let ghost cuts = symbols(v, t);
        let n: usize = chars.len();
        let mut k: usize = 0;
        let ghost mut p = 0int;
        assert(out@ =~= old(out)@ + ids_of(v, t, cuts, 0));
        while k < n
            invariant
                self.wf(),
                v == self@,
                t == chars@,
                n == chars@.len(),
                cuts == symbols(v, t),
                links.holds(cuts, n as int),
                0 <= p < cuts.len(),
                k == cuts[p],
                out@ == old(out)@ + ids_of(v, t, cuts, p),
            decreases n - k,
        {
            proof {
                lemma_cut_order(cuts, n as int, p, cuts.len() - 1);
                lemma_cut_range(cuts, n as int, p);
                lemma_cut_range(cuts, n as int, p + 1);
                assert(links.linked(cuts, p));
            }
            let to: usize = links.next[k];
            let symbol = text_between(&chars, k, to);
            let ghost before = out@;
            self.emit(symbol.as_str(), out);
            proof {
                p = p + 1;
                assert(out@ =~= old(out)@ + ids_of(v, t, cuts, p));
            }
            k = to;
        }
        proof {
            lemma_cut_range(cuts, n as int, p);
        }
    }
}

} // verus!
