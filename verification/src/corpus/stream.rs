//! A segmented corpus on a compact vocabulary.

use crate::corpus::merge::tokens;
use crate::corpus::tokenizer::Tokenizer;
use crate::rank::{
    as_ints, counted, is_ranking, law_ranking_exists, rank_ids, ranking, ranks_before,
};
use vstd::prelude::*;
use vstd::seq_lib::{to_multiset_build, to_multiset_contains};

verus! {

/// How many of the commonest pieces are spelled out.
pub const COMMONEST: usize = 12;

/// How often each of the first `size` ids occurs in `raw`.
pub open spec fn counts_of(raw: Seq<u32>, size: nat) -> Seq<u64> {
    Seq::new(size, |id: int| raw.to_multiset().count(id as u32) as u64)
}

/// The pieces that occur in `raw`, most frequent first, by number among equals.
pub open spec fn piece_order(raw: Seq<u32>, size: nat) -> Seq<int> {
    ranking(counts_of(raw, size), 1)
}

/// Whether a piece keeps an id of its own on a vocabulary of `vocab` ids.
pub open spec fn keeps_id(order: Seq<int>, vocab: int, piece: int) -> bool {
    order.index_of(piece) < vocab - 1
}

/// The id of a piece on a vocabulary of `vocab` ids: its place in the order of
/// frequency, or the last id for all that find no place.
pub open spec fn compact_id(order: Seq<int>, vocab: int, piece: int) -> int {
    if keeps_id(order, vocab, piece) {
        order.index_of(piece)
    } else {
        vocab - 1
    }
}

/// How many tokens have no id of their own.
pub open spec fn missed(raw: Seq<u32>, order: Seq<int>, vocab: int) -> nat
    decreases raw.len(),
{
    if raw.len() == 0 {
        0
    } else {
        missed(raw.drop_last(), order, vocab) + if keeps_id(order, vocab, raw.last() as int) {
            0nat
        } else {
            1nat
        }
    }
}

/// What a corpus turned into, and how much of it survived the vocabulary cut.
pub struct Stream {
    pub tokens: Vec<u32>,
    pub distinct_pieces: usize,
    /// How many tokens fell outside the kept vocabulary.
    pub misses: u64,
    pub documents: usize,
    /// The most frequent pieces, spelled out. A vocabulary that looks wrong
    /// looks wrong here, before it costs a run.
    pub commonest: Vec<String>,
}

/// Whether no more tokens are wanted.
pub open spec fn is_full(all: Seq<u32>, limit: nat) -> bool {
    all.len() >= limit
}

/// What is held of the tokens there are.
pub open spec fn held_of(all: Seq<u32>, limit: nat) -> Seq<u32> {
    if is_full(all, limit) {
        all.take(limit as int)
    } else {
        all
    }
}

/// Segments one document onto `raw`, cutting at `limit` ids. Says whether the
/// limit is reached.
pub fn absorb(tk: &Tokenizer, text: &str, limit: usize, raw: &mut Vec<u32>) -> (full: bool)
    requires
        tk.wf(),
    ensures
        ({
            let all = old(raw)@ + tokens(tk@, text@);
            &&& full == is_full(all, limit as nat)
            &&& final(raw)@ == held_of(all, limit as nat)
        }),
{
    tk.encode(text, raw);
    if raw.len() >= limit {
        raw.truncate(limit);
        true
    } else {
        false
    }
}

/// In an order without repeats a place determines its piece and the other way
/// round.
proof fn lemma_place(counts: Seq<u64>, order: Seq<int>, k: int)
    requires
        is_ranking(counts, 1, order),
        0 <= k < order.len(),
    ensures
        order.index_of(order[k]) == k,
{
    assert(order.contains(order[k]));
    let j = order.index_of(order[k]);
    assert(0 <= j < order.len() && order[j] == order[k]);
    if j < k {
        assert(ranks_before(counts, order[j], order[k]));
    } else if k < j {
        assert(ranks_before(counts, order[k], order[j]));
    }
}

proof fn lemma_occurs(raw: Seq<u32>, size: nat, i: int)
    requires
        raw.len() <= u64::MAX,
        size <= u32::MAX,
        0 <= i < raw.len(),
        raw[i] < size,
    ensures
        counted(counts_of(raw, size), 1, raw[i] as int),
{
    to_multiset_contains(raw, raw[i]);
    lemma_count_bound(raw, raw[i]);
}

/// Nothing occurs more often than there are tokens.
proof fn lemma_count_bound(raw: Seq<u32>, id: u32)
    ensures
        raw.to_multiset().count(id) <= raw.len(),
    decreases raw.len(),
{
    if raw.len() == 0 {
        to_multiset_contains(raw, id);
    } else {
        lemma_count_bound(raw.drop_last(), id);
        assert(raw =~= raw.drop_last().push(raw.last()));
        to_multiset_build(raw.drop_last(), raw.last());
    }
}

/// Counts every id.
fn count_ids(raw: &[u32], size: usize) -> (counts: Vec<u64>)
    requires
        size <= u32::MAX,
        forall|i: int| 0 <= i < raw@.len() ==> raw@[i] < size,
    ensures
        counts@ == counts_of(raw@, size as nat),
{
    let mut counts: Vec<u64> = Vec::new();
    counts.resize(size, 0);
    let n: usize = raw.len();
    let mut i: usize = 0;
    proof {
        assert(raw@.take(0) =~= seq![]);
        assert forall|id: u32| raw@.take(0).to_multiset().count(id) == 0 by {
            to_multiset_contains(raw@.take(0), id);
        }
        assert(counts@ =~= counts_of(raw@.take(0), size as nat));
    }
    while i < n
        invariant
            i <= n,
            n == raw@.len(),
            size <= u32::MAX,
            forall|j: int| 0 <= j < raw@.len() ==> raw@[j] < size,
            counts@ == counts_of(raw@.take(i as int), size as nat),
        decreases n - i,
    {
        let id: usize = raw[i] as usize;
        let ghost short = raw@.take(i as int);
        proof {
            assert(raw@.take(i + 1) =~= short.push(raw@[i as int]));
            to_multiset_build(short, raw@[i as int]);
            lemma_count_bound(short, raw@[i as int]);
        }
        let seen: u64 = counts[id];
        assert(seen == short.to_multiset().count(id as u32));
        counts.set(id, seen + 1);
        i = i + 1;
        proof {
            assert forall|k: int| 0 <= k < size implies counts@[k] == #[trigger] counts_of(
                raw@.take(i as int),
                size as nat,
            )[k] by {
                lemma_count_bound(short, k as u32);
            }
            assert(counts@ =~= counts_of(raw@.take(i as int), size as nat));
        }
    }
    assert(raw@.take(i as int) =~= raw@);
    counts
}

/// Remaps a segmented corpus onto a compact vocabulary of `vocab` ids: the
/// `vocab - 1` most frequent pieces keep an id of their own and everything else
/// collapses into the last one.
pub fn stream(tk: &Tokenizer, raw: &[u32], documents: usize, vocab: usize) -> (s: Stream)
    requires
        tk.wf(),
        forall|i: int| 0 <= i < raw@.len() ==> raw@[i] < tk@.len(),
        2 <= vocab <= u32::MAX,
    ensures
        ({
            let order = piece_order(raw@, tk@.len());
            &&& s.tokens@.len() == raw@.len()
            &&& forall|i: int|
                0 <= i < raw@.len() ==> #[trigger] s.tokens@[i] == compact_id(
                    order,
                    vocab as int,
                    raw@[i] as int,
                )
            &&& s.distinct_pieces == order.len()
            &&& s.misses == missed(raw@, order, vocab as int)
            &&& s.documents == documents
            &&& s.commonest@.len() == spelled_out(order.len())
            &&& forall|k: int|
                0 <= k < s.commonest@.len() ==> (#[trigger] s.commonest@[k])@ == tk@[order[k]].text
        }),
{
    let size: usize = tk.size();
    let counts = count_ids(raw, size);
    let ranked = rank_ids(&counts, 1);
    let ghost order = piece_order(raw@, tk@.len());
    let ghost c = counts@;
    let keep: usize = vocab - 1;
    let unknown: u32 = keep as u32;
    let mut remap: Vec<u32> = Vec::new();
    remap.resize(size, unknown);
    let mut slot: usize = 0;
    let n: usize = raw.len();
    proof {
        assert(as_ints(ranked@).len() == ranked@.len());
    }
    while slot < ranked.len() && slot < keep
        invariant
            slot <= ranked@.len(),
            slot <= keep,
            keep == vocab - 1,
            vocab <= u32::MAX,
            unknown == keep,
            size == remap@.len(),
            c.len() == size,
            order == as_ints(ranked@),
            is_ranking(c, 1, order),
            forall|k: int|
                0 <= k < ranked@.len() ==> #[trigger] remap@[order[k]] == (if k < slot {
                    k
                } else {
                    keep as int
                }),
        decreases ranked@.len() - slot,
    {
        assert(counted(c, 1, order[slot as int]));
        assert(order[slot as int] == ranked@[slot as int]);
        let ghost before = remap@;
        remap.set(ranked[slot], slot as u32);
        proof {
            assert forall|k: int| 0 <= k < ranked@.len() implies #[trigger] remap@[order[k]] == (
            if k < slot + 1 {
                k
            } else {
                keep as int
            }) by {
                assert(counted(c, 1, order[k]));
                lemma_place(c, order, k);
                lemma_place(c, order, slot as int);
                assert(before[order[k]] == if k < slot {
                    k
                } else {
                    keep as int
                });
            }
        }
        slot = slot + 1;
    }
    let mut out: Vec<u32> = Vec::new();
    let mut misses: u64 = 0;
    let mut i: usize = 0;
    while i < n
        invariant
            i <= n,
            n == raw@.len(),
            size == remap@.len(),
            size == tk@.len(),
            size <= u32::MAX,
            c == counts_of(raw@, size as nat),
            order == piece_order(raw@, size as nat),
            is_ranking(c, 1, order),
            keep == vocab - 1,
            vocab <= u32::MAX,
            unknown == keep,
            slot <= order.len(),
            slot <= keep,
            slot == order.len() || slot == keep,
            forall|j: int| 0 <= j < raw@.len() ==> raw@[j] < size,
            forall|k: int|
                0 <= k < order.len() ==> #[trigger] remap@[order[k]] == (if k < slot {
                    k
                } else {
                    keep as int
                }),
            out@.len() == i,
            forall|j: int|
                0 <= j < i ==> #[trigger] out@[j] == compact_id(
                    order,
                    vocab as int,
                    raw@[j] as int,
                ),
            misses == missed(raw@.take(i as int), order, vocab as int),
            misses <= i,
        decreases n - i,
    {
        proof {
            lemma_occurs(raw@, size as nat, i as int);
            let piece = raw@[i as int] as int;
            assert(order.contains(piece));
            let k = order.index_of(piece);
            assert(order[k] == piece);
            assert(remap@[order[k]] == if k < slot {
                k
            } else {
                keep as int
            });
            assert(raw@.take(i + 1).drop_last() =~= raw@.take(i as int));
        }
        let id: u32 = remap[raw[i] as usize];
        if id == unknown {
            misses = misses + 1;
        }
        out.push(id);
        i = i + 1;
    }
    assert(raw@.take(i as int) =~= raw@);
    let mut commonest: Vec<String> = Vec::new();
    let mut k: usize = 0;
    while k < ranked.len() && k < COMMONEST
        invariant
            k <= ranked@.len(),
            k <= COMMONEST,
            tk.wf(),
            c.len() == tk@.len(),
            tk@.len() <= u32::MAX,
            order == as_ints(ranked@),
            is_ranking(c, 1, order),
            commonest@.len() == k,
            forall|j: int|
                0 <= j < k ==> (#[trigger] commonest@[j])@ == tk@[order[j]].text,
        decreases ranked@.len() - k,
    {
        assert(counted(c, 1, order[k as int]));
        assert(order[k as int] == ranked@[k as int]);
        commonest.push(tk.piece(ranked[k] as u32).to_owned());
        k = k + 1;
    }
    Stream { tokens: out, distinct_pieces: ranked.len(), misses, documents, commonest }
}

/// A piece that occurs more often than one that keeps its id keeps its own.
pub proof fn law_frequent_pieces_keep_ids(raw: Seq<u32>, size: nat, vocab: int, a: int, b: int)
    requires
        0 <= a < size,
        counted(counts_of(raw, size), 1, b),
        counts_of(raw, size)[a] > counts_of(raw, size)[b],
        keeps_id(piece_order(raw, size), vocab, b),
    ensures
        keeps_id(piece_order(raw, size), vocab, a),
{
    let c = counts_of(raw, size);
    let order = piece_order(raw, size);
    law_ranking_exists(c, 1);
    assert(counted(c, 1, a));
    assert(order.contains(a) && order.contains(b));
    let i = order.index_of(a);
    let j = order.index_of(b);
    assert(order[i] == a && order[j] == b);
    if j < i {
        assert(ranks_before(c, order[j], order[i]));
    }
}

/// Two pieces that keep ids of their own keep different ones, and neither is
/// the last id.
pub proof fn law_kept_ids_are_distinct(raw: Seq<u32>, size: nat, vocab: int, a: int, b: int)
    requires
        counted(counts_of(raw, size), 1, a),
        counted(counts_of(raw, size), 1, b),
        keeps_id(piece_order(raw, size), vocab, a),
        keeps_id(piece_order(raw, size), vocab, b),
        a != b,
    ensures
        compact_id(piece_order(raw, size), vocab, a) != compact_id(
            piece_order(raw, size),
            vocab,
            b,
        ),
        0 <= compact_id(piece_order(raw, size), vocab, a) < vocab - 1,
{
    let order = piece_order(raw, size);
    law_ranking_exists(counts_of(raw, size), 1);
    assert(order.contains(a) && order.contains(b));
    assert(order[order.index_of(a)] == a);
    assert(order[order.index_of(b)] == b);
}

/// With an id for every piece that occurs, no token is missed.
pub proof fn law_room_for_all_misses_none(raw: Seq<u32>, size: nat, vocab: int)
    requires
        raw.len() <= u64::MAX,
        size <= u32::MAX,
        forall|i: int| 0 <= i < raw.len() ==> #[trigger] raw[i] < size,
        piece_order(raw, size).len() < vocab,
    ensures
        missed(raw, piece_order(raw, size), vocab) == 0,
{
    let order = piece_order(raw, size);
    law_ranking_exists(counts_of(raw, size), 1);
    assert forall|i: int| 0 <= i < raw.len() implies order.contains(#[trigger] raw[i] as int) by {
        lemma_occurs(raw, size, i);
    }
    lemma_all_kept(raw, order, vocab);
}

proof fn lemma_all_kept(raw: Seq<u32>, order: Seq<int>, vocab: int)
    requires
        order.len() < vocab,
        forall|i: int| 0 <= i < raw.len() ==> order.contains(#[trigger] raw[i] as int),
    ensures
        missed(raw, order, vocab) == 0,
    decreases raw.len(),
{
    if raw.len() > 0 {
        let rest = raw.drop_last();
        assert forall|i: int| 0 <= i < rest.len() implies order.contains(
            #[trigger] rest[i] as int,
        ) by {
            assert(rest[i] == raw[i]);
        }
        lemma_all_kept(rest, order, vocab);
        assert(order.contains(raw[raw.len() - 1] as int));
    }
}

/// Pieces take their ids in the order of frequency, and all that come after those
/// with an id of their own share the last one.
pub proof fn law_ids_follow_the_order(raw: Seq<u32>, size: nat, vocab: int, k: int)
    requires
        2 <= vocab,
        0 <= k < piece_order(raw, size).len(),
    ensures
        k < vocab - 1 ==> compact_id(piece_order(raw, size), vocab, piece_order(raw, size)[k]) == k,
        k >= vocab - 1 ==> compact_id(piece_order(raw, size), vocab, piece_order(raw, size)[k])
            == vocab - 1,
        keeps_id(piece_order(raw, size), vocab, piece_order(raw, size)[k]) <==> k < vocab - 1,
{
    let order = piece_order(raw, size);
    law_ranking_exists(counts_of(raw, size), 1);
    lemma_place(counts_of(raw, size), order, k);
}

/// The tokens that are missed are those of pieces without an id of their own, each
/// as often as it occurs.
pub proof fn law_missed_tokens_have_no_id(raw: Seq<u32>, order: Seq<int>, vocab: int)
    ensures
        missed(raw, order, vocab) == raw.filter(|t: u32| !keeps_id(order, vocab, t as int)).len(),
    decreases raw.len(),
{
    reveal(Seq::filter);
    if raw.len() > 0 {
        law_missed_tokens_have_no_id(raw.drop_last(), order, vocab);
    }
}

/// How many of the commonest pieces are spelled out where so many occur.
pub open spec fn spelled_out(pieces: nat) -> nat {
    if pieces < COMMONEST {
        pieces
    } else {
        COMMONEST as nat
    }
}

/// A dozen pieces are spelled out, or all where there are fewer.
pub proof fn law_a_dozen_pieces_are_spelled_out(pieces: nat)
    ensures
        pieces <= 12 ==> spelled_out(pieces) == pieces,
        pieces >= 12 ==> spelled_out(pieces) == 12,
{
}

/// Text is taken up to the limit and not beyond: what is held is the beginning of
/// what there is, all of it while there is room, and it is full exactly when the
/// limit is reached.
pub proof fn law_streams_stop_at_the_limit(all: Seq<u32>, limit: nat, k: int)
    requires
        0 <= k < held_of(all, limit).len(),
    ensures
        held_of(all, limit)[k] == all[k],
        held_of(all, limit).len() <= limit,
        all.len() < limit ==> held_of(all, limit) == all && !is_full(all, limit),
        all.len() >= limit ==> held_of(all, limit).len() == limit && is_full(all, limit),
{
}

} // verus!
