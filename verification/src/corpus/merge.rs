//! What greedy pair merging makes of a text.

use crate::corpus::tokenizer::{
    byte_spelled, fallback, find, is_fallback, is_number, law_find_is_first,
    law_places_follow_the_scores, lemma_fallback_range, lemma_unknown_range, score_place,
    score_value, unknown_id, SPACE,
};
use crate::corpus::vocabulary::Piece;
use crate::corpus::wire::PieceKind;
use vstd::prelude::*;
use vstd::utf8::{decode_utf8, encode_utf8, encode_utf8_decode_utf8, encode_utf8_valid_utf8};

verus! {

/// A text with its spaces escaped.
pub open spec fn escaped(text: Seq<char>) -> Seq<char> {
    text.map_values(|c: char| if c == ' ' { SPACE } else { c })
}

/// The cuts between single characters, both ends included.
pub open spec fn every_cut(n: nat) -> Seq<int> {
    Seq::new(n + 1, |i: int| i)
}

/// The place of the piece that the symbols on either side of the cut `p + 1`
/// join to, if it is a piece and may come out of a merge.
pub open spec fn pair_place(v: Seq<Piece>, text: Seq<char>, cuts: Seq<int>, p: int) -> Option<int> {
    if 0 <= p && p + 2 < cuts.len() {
        join_place(v, text, cuts[p], cuts[p + 2])
    } else {
        None
    }
}

/// The place of the piece spelled between two positions of a text, if it is one
/// that may come out of a merge.
pub open spec fn join_place(v: Seq<Piece>, text: Seq<char>, from: int, to: int) -> Option<int> {
    match find(v, text.subrange(from, to)) {
        Some(id) => if v[id].kind.merges() {
            Some(score_place(v[id].score as int))
        } else {
            None
        },
        None => None,
    }
}

/// Whether the pair at `p` is the one to merge: no other pair has a higher
/// place, and none to its left has the same.
pub open spec fn is_best(v: Seq<Piece>, text: Seq<char>, cuts: Seq<int>, p: int) -> bool {
    &&& pair_place(v, text, cuts, p) is Some
    &&& forall|q: int|
        (#[trigger] pair_place(v, text, cuts, q)) is Some ==> pair_place(v, text, cuts, q)->0
            < pair_place(v, text, cuts, p)->0 || (pair_place(v, text, cuts, q)->0 == pair_place(
            v,
            text,
            cuts,
            p,
        )->0 && p <= q)
}

/// The cuts that are left when no pair can be merged any more.
pub open spec fn merged(v: Seq<Piece>, text: Seq<char>, cuts: Seq<int>) -> Seq<int>
    decreases cuts.len(),
{
    if exists|p: int| is_best(v, text, cuts, p) {
        let p = choose|p: int| is_best(v, text, cuts, p);
        merged(v, text, cuts.remove(p + 1))
    } else {
        cuts
    }
}

/// The ids of one symbol: that of its piece, or else of its bytes.
pub open spec fn symbol_ids(v: Seq<Piece>, symbol: Seq<char>) -> Seq<u32> {
    match find(v, symbol) {
        Some(id) => seq![id as u32],
        None => encode_utf8(symbol).map_values(|b: u8| byte_id(v, b as int)),
    }
}

/// The id of one byte: that of its fallback, or else of the unknown piece.
pub open spec fn byte_id(v: Seq<Piece>, b: int) -> u32 {
    match fallback(v, b) {
        Some(id) => id as u32,
        None => unknown_id(v) as u32,
    }
}

/// The ids of the first `k` symbols between the cuts.
pub open spec fn ids_of(v: Seq<Piece>, text: Seq<char>, cuts: Seq<int>, k: int) -> Seq<u32>
    decreases k,
{
    if k <= 0 {
        seq![]
    } else {
        ids_of(v, text, cuts, k - 1) + symbol_ids(v, text.subrange(cuts[k - 1], cuts[k]))
    }
}

/// The cuts of a text into symbols.
pub open spec fn symbols(v: Seq<Piece>, text: Seq<char>) -> Seq<int> {
    merged(v, text, every_cut(text.len()))
}

/// The token ids of a text.
pub open spec fn tokens(v: Seq<Piece>, text: Seq<char>) -> Seq<u32> {
    let t = escaped(text);
    ids_of(v, t, symbols(v, t), symbols(v, t).len() - 1)
}

/// Cuts run from one end of the text to the other, each symbol holding a
/// character at least.
pub open spec fn cuts_ok(cuts: Seq<int>, n: int) -> bool {
    &&& cuts.len() >= 1
    &&& cuts[0] == 0
    &&& cuts.last() == n
    &&& forall|i: int, j: int| 0 <= i < j < cuts.len() ==> cuts[i] < cuts[j]
}

/// The best pair is unique, so a merge follows it.
pub proof fn lemma_merge_step(v: Seq<Piece>, text: Seq<char>, cuts: Seq<int>, p: int)
    requires
        is_best(v, text, cuts, p),
    ensures
        merged(v, text, cuts) == merged(v, text, cuts.remove(p + 1)),
{
    let q = choose|q: int| is_best(v, text, cuts, q);
    assert(is_best(v, text, cuts, q));
    assert(pair_place(v, text, cuts, p) is Some);
    assert(pair_place(v, text, cuts, q) is Some);
}

/// Merging takes cuts away and leaves the ends in place.
pub proof fn lemma_merged_cuts(v: Seq<Piece>, text: Seq<char>, cuts: Seq<int>, n: int)
    requires
        cuts_ok(cuts, n),
    ensures
        cuts_ok(merged(v, text, cuts), n),
        forall|p: int| pair_place(v, text, merged(v, text, cuts), p) is None,
    decreases cuts.len(),
{
    if exists|p: int| is_best(v, text, cuts, p) {
        let p = choose|p: int| is_best(v, text, cuts, p);
        assert(cuts_ok(cuts.remove(p + 1), n));
        lemma_merged_cuts(v, text, cuts.remove(p + 1), n);
    } else {
        assert forall|p: int| pair_place(v, text, cuts, p) is None by {
            if pair_place(v, text, cuts, p) is Some {
                lemma_best_exists(v, text, cuts, p, cuts.len() as int);
            }
        }
    }
}

/// Among pairs there is a best one: up to any place, and so among all.
proof fn lemma_best_exists(v: Seq<Piece>, text: Seq<char>, cuts: Seq<int>, p: int, n: int)
    requires
        pair_place(v, text, cuts, p) is Some,
        n == cuts.len(),
    ensures
        exists|q: int| is_best(v, text, cuts, q),
{
    let q = lemma_best_below(v, text, cuts, p, n);
    assert(is_best(v, text, cuts, q)) by {
        assert forall|r: int| (#[trigger] pair_place(v, text, cuts, r)) is Some implies pair_place(
            v,
            text,
            cuts,
            r,
        )->0 < pair_place(v, text, cuts, q)->0 || (pair_place(v, text, cuts, r)->0 == pair_place(
            v,
            text,
            cuts,
            q,
        )->0 && q <= r) by {
            assert(0 <= r < n);
        }
    }
}

proof fn lemma_best_below(
    v: Seq<Piece>,
    text: Seq<char>,
    cuts: Seq<int>,
    p: int,
    n: int,
) -> (q: int)
    requires
        pair_place(v, text, cuts, p) is Some,
        p < n,
    ensures
        0 <= q < n,
        pair_place(v, text, cuts, q) is Some,
        forall|r: int|
            0 <= r < n && (#[trigger] pair_place(v, text, cuts, r)) is Some ==> pair_place(
                v,
                text,
                cuts,
                r,
            )->0 < pair_place(v, text, cuts, q)->0 || (pair_place(v, text, cuts, r)->0
                == pair_place(v, text, cuts, q)->0 && q <= r),
    decreases n,
{
    let last = pair_place(v, text, cuts, n - 1);
    if n - 1 == p {
        if exists|r: int| 0 <= r < p && pair_place(v, text, cuts, r) is Some {
            let r = choose|r: int| 0 <= r < p && pair_place(v, text, cuts, r) is Some;
            let q = lemma_best_below(v, text, cuts, r, n - 1);
            if pair_place(v, text, cuts, q)->0 < last->0 {
                p
            } else {
                q
            }
        } else {
            p
        }
    } else {
        let q = lemma_best_below(v, text, cuts, p, n - 1);
        if last is Some && pair_place(v, text, cuts, q)->0 < last->0 {
            n - 1
        } else {
            q
        }
    }
}

/// The pair that is merged spells the piece with the highest score of all that
/// neighbouring symbols spell, and is the leftmost of those where several share
/// it. Scores are compared as the numbers they stand for.
pub proof fn law_highest_score_merges_first(
    v: Seq<Piece>,
    text: Seq<char>,
    cuts: Seq<int>,
    p: int,
    q: int,
)
    requires
        is_best(v, text, cuts, p),
        0 <= q,
        q + 2 < cuts.len(),
        find(v, text.subrange(cuts[q], cuts[q + 2])) is Some,
        ({
            let id = find(v, text.subrange(cuts[q], cuts[q + 2]))->0;
            v[id].kind == PieceKind::Normal || v[id].kind == PieceKind::UserDefined
        }),
    ensures
        0 <= p,
        p + 2 < cuts.len(),
        find(v, text.subrange(cuts[p], cuts[p + 2])) is Some,
        ({
            let best = v[find(v, text.subrange(cuts[p], cuts[p + 2]))->0];
            let other = v[find(v, text.subrange(cuts[q], cuts[q + 2]))->0];
            &&& best.kind == PieceKind::Normal || best.kind == PieceKind::UserDefined
            &&& is_number(best.score as int) && is_number(other.score as int) ==> score_value(
                other.score as int,
            ) <= score_value(best.score as int)
            &&& is_number(best.score as int) && is_number(other.score as int) && score_value(
                other.score as int,
            ) == score_value(best.score as int) ==> p <= q
        }),
{
    assert(pair_place(v, text, cuts, p) is Some);
    assert(pair_place(v, text, cuts, q) is Some);
    let best = v[find(v, text.subrange(cuts[p], cuts[p + 2]))->0];
    let other = v[find(v, text.subrange(cuts[q], cuts[q + 2]))->0];
    law_places_follow_the_scores(best.score, other.score);
}

/// Merging goes on for as long as neighbouring symbols spell a piece that may come
/// out of a merge, one pair at a time and the best one first.
pub proof fn law_merging_goes_on(v: Seq<Piece>, text: Seq<char>, cuts: Seq<int>, q: int) -> (p: int)
    requires
        0 <= q,
        q + 2 < cuts.len(),
        find(v, text.subrange(cuts[q], cuts[q + 2])) is Some,
        ({
            let id = find(v, text.subrange(cuts[q], cuts[q + 2]))->0;
            v[id].kind == PieceKind::Normal || v[id].kind == PieceKind::UserDefined
        }),
    ensures
        is_best(v, text, cuts, p),
        0 <= p,
        p + 2 < cuts.len(),
        merged(v, text, cuts) == merged(v, text, cuts.remove(p + 1)),
{
    assert(pair_place(v, text, cuts, q) is Some);
    lemma_best_exists(v, text, cuts, q, cuts.len() as int);
    let p = choose|p: int| is_best(v, text, cuts, p);
    assert(pair_place(v, text, cuts, p) is Some);
    lemma_merge_step(v, text, cuts, p);
    p
}

/// The symbols of a text, put together again, are the text: they cover it from
/// end to end, and no two neighbours join to a piece that could still be
/// merged.
pub proof fn law_symbols_cover_text(v: Seq<Piece>, text: Seq<char>)
    ensures
        cuts_ok(symbols(v, text), text.len() as int),
        forall|p: int| pair_place(v, text, symbols(v, text), p) is None,
{
    assert(cuts_ok(every_cut(text.len()), text.len() as int));
    lemma_merged_cuts(v, text, every_cut(text.len()), text.len() as int);
}

/// An empty text has no tokens.
pub proof fn law_nothing_in_nothing_out(v: Seq<Piece>)
    ensures
        tokens(v, seq![]) == Seq::<u32>::empty(),
{
    let t = escaped(seq![]);
    assert(t =~= seq![]);
    law_symbols_cover_text(v, t);
    let cuts = symbols(v, t);
    if cuts.len() > 1 {
        assert(cuts[0] < cuts[cuts.len() - 1]);
    }
}

/// A symbol that is no piece is spelled out by byte pieces alone, one for each
/// byte, as long as every byte has one.
pub proof fn law_bytes_stand_in(v: Seq<Piece>, symbol: Seq<char>)
    requires
        v.len() <= u32::MAX,
        forall|b: int| 0 <= b < 256 ==> (#[trigger] fallback(v, b)) is Some,
        find(v, symbol) is None,
    ensures
        symbol_ids(v, symbol).len() == encode_utf8(symbol).len(),
        forall|k: int|
            0 <= k < symbol_ids(v, symbol).len() ==> {
                let id = #[trigger] symbol_ids(v, symbol)[k] as int;
                &&& 0 <= id < v.len()
                &&& is_fallback(v[id], encode_utf8(symbol)[k] as int)
            },
{
    assert forall|k: int| 0 <= k < symbol_ids(v, symbol).len() implies {
        let id = #[trigger] symbol_ids(v, symbol)[k] as int;
        &&& 0 <= id < v.len()
        &&& is_fallback(v[id], encode_utf8(symbol)[k] as int)
    } by {
        let b = encode_utf8(symbol)[k] as int;
        lemma_fallback_range(v, b);
        assert(fallback(v, b) is Some);
    }
}

/// Every token is the id of a piece.
pub proof fn law_tokens_are_pieces(v: Seq<Piece>, text: Seq<char>)
    requires
        0 < v.len() <= u32::MAX,
    ensures
        forall|k: int| 0 <= k < tokens(v, text).len() ==> #[trigger] tokens(v, text)[k] < v.len(),
{
    let t = escaped(text);
    lemma_ids_are_pieces(v, t, symbols(v, t), symbols(v, t).len() - 1);
}

proof fn lemma_ids_are_pieces(v: Seq<Piece>, text: Seq<char>, cuts: Seq<int>, k: int)
    requires
        0 < v.len() <= u32::MAX,
    ensures
        forall|j: int|
            0 <= j < ids_of(v, text, cuts, k).len() ==> #[trigger] ids_of(v, text, cuts, k)[j]
                < v.len(),
    decreases k,
{
    if k > 0 {
        lemma_ids_are_pieces(v, text, cuts, k - 1);
        let symbol = text.subrange(cuts[k - 1], cuts[k]);
        law_find_is_first(v, symbol);
        lemma_unknown_range(v);
        assert forall|j: int| 0 <= j < symbol_ids(v, symbol).len() implies #[trigger] symbol_ids(
            v,
            symbol,
        )[j] < v.len() by {
            if find(v, symbol) is None {
                lemma_fallback_range(v, encode_utf8(symbol)[j] as int);
            }
        }
        let head = ids_of(v, text, cuts, k - 1);
        assert forall|j: int| 0 <= j < ids_of(v, text, cuts, k).len() implies #[trigger] ids_of(
            v,
            text,
            cuts,
            k,
        )[j] < v.len() by {
            if j < head.len() {
                assert(ids_of(v, text, cuts, k)[j] == head[j]);
            } else {
                assert(ids_of(v, text, cuts, k)[j] == symbol_ids(v, symbol)[j - head.len()]);
            }
        }
    }
}

/// The bytes that a piece stands for: the one it is the fallback for, or those of
/// its spelling.
pub open spec fn piece_bytes(p: Piece) -> Seq<u8> {
    match byte_spelled(p.text) {
        Some(b) if p.kind == PieceKind::Byte => seq![b as u8],
        _ => encode_utf8(p.text),
    }
}

/// The bytes that tokens stand for.
pub open spec fn bytes_of(v: Seq<Piece>, ids: Seq<u32>) -> Seq<u8>
    decreases ids.len(),
{
    if ids.len() == 0 {
        seq![]
    } else {
        bytes_of(v, ids.drop_last()) + piece_bytes(v[ids.last() as int])
    }
}

/// The text that tokens stand for, its spaces put back.
pub open spec fn text_of(v: Seq<Piece>, ids: Seq<u32>) -> Seq<char> {
    decode_utf8(bytes_of(v, ids)).map_values(|c: char| if c == SPACE { ' ' } else { c })
}

/// Whether a symbol can be written without the unknown piece: it is a piece, or
/// every byte of it has a fallback.
pub open spec fn is_known(v: Seq<Piece>, symbol: Seq<char>) -> bool {
    find(v, symbol) is Some || forall|k: int|
        0 <= k < encode_utf8(symbol).len() ==> (#[trigger] fallback(
            v,
            encode_utf8(symbol)[k] as int,
        )) is Some
}

/// Whether the symbol between two cuts can be written without the unknown piece.
pub open spec fn known_at(v: Seq<Piece>, text: Seq<char>, cuts: Seq<int>, k: int) -> bool {
    is_known(v, text.subrange(cuts[k], cuts[k + 1]))
}

/// Whether the symbol between two cuts is one character or a piece that may come
/// out of a merge.
spec fn joined_at(v: Seq<Piece>, text: Seq<char>, cuts: Seq<int>, k: int) -> bool {
    cuts[k] + 1 == cuts[k + 1] || join_place(v, text, cuts[k], cuts[k + 1]) is Some
}

/// Whether every symbol between the cuts is one character or a piece that may
/// come out of a merge.
spec fn well_joined(v: Seq<Piece>, text: Seq<char>, cuts: Seq<int>) -> bool {
    forall|k: int| 0 <= k < cuts.len() - 1 ==> #[trigger] joined_at(v, text, cuts, k)
}

proof fn lemma_well_joined(v: Seq<Piece>, text: Seq<char>, cuts: Seq<int>)
    requires
        well_joined(v, text, cuts),
    ensures
        well_joined(v, text, merged(v, text, cuts)),
    decreases cuts.len(),
{
    if exists|p: int| is_best(v, text, cuts, p) {
        let p = choose|p: int| is_best(v, text, cuts, p);
        let fewer = cuts.remove(p + 1);
        assert forall|k: int| 0 <= k < fewer.len() - 1 implies #[trigger] joined_at(
            v,
            text,
            fewer,
            k,
        ) by {
            if k == p {
                assert(pair_place(v, text, cuts, p) is Some);
            } else if k < p {
                assert(joined_at(v, text, cuts, k));
            } else {
                assert(joined_at(v, text, cuts, k + 1));
            }
        }
        lemma_well_joined(v, text, fewer);
    }
}

proof fn lemma_encode_add(a: Seq<char>, b: Seq<char>)
    ensures
        encode_utf8(a + b) == encode_utf8(a) + encode_utf8(b),
    decreases a.len(),
{
    if a.len() == 0 {
        assert(a + b =~= b);
        assert(encode_utf8(a) + encode_utf8(b) =~= encode_utf8(b));
    } else {
        assert((a + b).drop_first() =~= a.drop_first() + b);
        lemma_encode_add(a.drop_first(), b);
        assert(encode_utf8(a + b) =~= encode_utf8(a) + encode_utf8(b));
    }
}

proof fn lemma_bytes_add(v: Seq<Piece>, a: Seq<u32>, b: Seq<u32>)
    ensures
        bytes_of(v, a + b) == bytes_of(v, a) + bytes_of(v, b),
    decreases b.len(),
{
    if b.len() == 0 {
        assert(a + b =~= a);
        assert(bytes_of(v, a) + bytes_of(v, b) =~= bytes_of(v, a));
    } else {
        assert((a + b).drop_last() =~= a + b.drop_last());
        lemma_bytes_add(v, a, b.drop_last());
        assert(bytes_of(v, a + b) =~= bytes_of(v, a) + bytes_of(v, b));
    }
}

/// Fallbacks stand for the bytes they stand in for.
proof fn lemma_fallback_bytes(v: Seq<Piece>, bytes: Seq<u8>)
    requires
        v.len() <= u32::MAX,
        forall|k: int| 0 <= k < bytes.len() ==> (#[trigger] fallback(v, bytes[k] as int)) is Some,
    ensures
        bytes_of(v, bytes.map_values(|b: u8| byte_id(v, b as int))) == bytes,
    decreases bytes.len(),
{
    let ids = bytes.map_values(|b: u8| byte_id(v, b as int));
    if bytes.len() > 0 {
        let short = bytes.drop_last();
        assert forall|k: int| 0 <= k < short.len() implies (#[trigger] fallback(
            v,
            short[k] as int,
        )) is Some by {
            assert(short[k] == bytes[k]);
        }
        lemma_fallback_bytes(v, short);
        assert(ids.drop_last() =~= short.map_values(|b: u8| byte_id(v, b as int)));
        let b = bytes.last();
        assert(bytes[bytes.len() - 1] == b);
        assert(fallback(v, b as int) is Some);
        lemma_fallback_range(v, b as int);
        assert(piece_bytes(v[ids.last() as int]) == seq![b]);
        assert(bytes_of(v, ids) =~= bytes);
    }
}

/// The ids of a symbol stand for its bytes.
proof fn lemma_symbol_bytes(v: Seq<Piece>, text: Seq<char>, from: int, to: int)
    requires
        v.len() <= u32::MAX,
        0 <= from < to <= text.len(),
        from + 1 == to || join_place(v, text, from, to) is Some,
        is_known(v, text.subrange(from, to)),
    ensures
        bytes_of(v, symbol_ids(v, text.subrange(from, to))) == encode_utf8(
            text.subrange(from, to),
        ),
{
    let symbol = text.subrange(from, to);
    law_find_is_first(v, symbol);
    match find(v, symbol) {
        Some(id) => {
            let ids = seq![id as u32];
            reveal_with_fuel(bytes_of, 2);
            assert(ids.drop_last() =~= seq![]);
            assert(bytes_of(v, ids) =~= piece_bytes(v[id]));
        },
        None => {
            lemma_fallback_bytes(v, encode_utf8(symbol));
        },
    }
}

proof fn lemma_ids_bytes(v: Seq<Piece>, text: Seq<char>, cuts: Seq<int>, k: int)
    requires
        v.len() <= u32::MAX,
        cuts_ok(cuts, text.len() as int),
        well_joined(v, text, cuts),
        0 <= k < cuts.len(),
        forall|j: int| 0 <= j < cuts.len() - 1 ==> #[trigger] known_at(v, text, cuts, j),
    ensures
        0 <= cuts[k] <= text.len(),
        bytes_of(v, ids_of(v, text, cuts, k)) == encode_utf8(text.take(cuts[k])),
    decreases k,
{
    if k > 0 {
        lemma_ids_bytes(v, text, cuts, k - 1);
        let (from, to) = (cuts[k - 1], cuts[k]);
        let symbol = text.subrange(from, to);
        assert(known_at(v, text, cuts, k - 1));
        assert(joined_at(v, text, cuts, k - 1));
        assert(cuts[k - 1] < cuts[k]);
        assert(k < cuts.len() - 1 ==> cuts[k] < cuts[cuts.len() - 1]);
        lemma_symbol_bytes(v, text, from, to);
        lemma_bytes_add(v, ids_of(v, text, cuts, k - 1), symbol_ids(v, symbol));
        lemma_encode_add(text.take(from), symbol);
        assert(text.take(from) + symbol =~= text.take(to));
    } else {
        assert(text.take(cuts[0]) =~= seq![]);
    }
}

/// What was encoded is decoded again: where no symbol needs the unknown piece,
/// the tokens stand for the bytes of the text with its spaces escaped, and, as
/// long as the text itself does not hold the character that spaces are escaped
/// with, for the text.
pub proof fn law_tokens_give_the_text_back(v: Seq<Piece>, text: Seq<char>)
    requires
        v.len() <= u32::MAX,
        forall|k: int|
            0 <= k < symbols(v, escaped(text)).len() - 1 ==> #[trigger] known_at(
                v,
                escaped(text),
                symbols(v, escaped(text)),
                k,
            ),
    ensures
        bytes_of(v, tokens(v, text)) == encode_utf8(escaped(text)),
        !text.contains(SPACE) ==> text_of(v, tokens(v, text)) == text,
{
    let t = escaped(text);
    let cuts = symbols(v, t);
    law_symbols_cover_text(v, t);
    assert(well_joined(v, t, every_cut(t.len())));
    lemma_well_joined(v, t, every_cut(t.len()));
    lemma_ids_bytes(v, t, cuts, cuts.len() - 1);
    assert(t.take(t.len() as int) =~= t);
    encode_utf8_valid_utf8(t);
    encode_utf8_decode_utf8(t);
    if !text.contains(SPACE) {
        let back = t.map_values(|c: char| if c == SPACE { ' ' } else { c });
        assert forall|k: int| 0 <= k < text.len() implies back[k] == text[k] by {
            assert(text.contains(text[k]));
        }
        assert(back =~= text);
    }
}

/// A symbol that a piece spells is one token, that of the first piece that spells
/// it, whatever else could stand in for it.
pub proof fn law_known_symbols_are_one_token(v: Seq<Piece>, symbol: Seq<char>, j: int)
    requires
        0 <= j < v.len() <= u32::MAX,
        v[j].text == symbol,
    ensures
        symbol_ids(v, symbol).len() == 1,
        symbol_ids(v, symbol)[0] <= j,
        v[symbol_ids(v, symbol)[0] as int].text == symbol,
{
    law_find_is_first(v, symbol);
}

/// A byte that no piece stands for is the unknown piece.
pub proof fn law_other_bytes_are_unknown(v: Seq<Piece>, b: int)
    requires
        0 < v.len() <= u32::MAX,
        forall|j: int| 0 <= j < v.len() ==> !is_fallback(#[trigger] v[j], b),
    ensures
        byte_id(v, b) == unknown_id(v),
{
    lemma_fallback_range(v, b);
    lemma_unknown_range(v);
}

/// Spaces are shown, and every other character stays as it is and where it is.
pub proof fn law_spaces_are_shown(text: Seq<char>, k: int)
    requires
        0 <= k < text.len(),
    ensures
        escaped(text).len() == text.len(),
        text[k] == ' ' ==> escaped(text)[k] == '\u{2581}',
        text[k] != ' ' ==> escaped(text)[k] == text[k],
{
}

} // verus!
