//! The piece list of a SentencePiece model, read off its protobuf.

use crate::corpus::text::{decoded, lossy};
use crate::corpus::wire::{
    bytes_end, field_bytes, fixed32_at, fixed32_bytes, law_fields_come_back,
    law_fixed32_comes_back, law_varints_come_back, lemma_reads_advance, skip_end, varint_at,
    varint_bytes, varint_end, PieceKind, Wire,
};
use vstd::arithmetic::power2::{lemma2_to64, pow2};
use vstd::prelude::*;

verus! {

/// One vocabulary entry.
pub struct Piece {
    /// How it is spelled.
    pub text: Seq<char>,
    /// The bits of its score, an IEEE single.
    pub score: u32,
    /// What it stands for.
    pub kind: PieceKind,
}

/// A piece before any field of it is read.
pub open spec fn blank() -> Piece {
    Piece { text: seq![], score: 0, kind: PieceKind::Normal }
}

/// The field number of a key.
pub open spec fn field_of(key: nat) -> nat {
    (key / 8) % 0x1_0000_0000
}

/// The wire type of a key.
pub open spec fn wire_of(key: nat) -> nat {
    key % 8
}

/// What is left of `b` from `i` on.
pub open spec fn ahead(b: Seq<u8>, i: int) -> nat {
    if i >= b.len() {
        0
    } else {
        (b.len() - i) as nat
    }
}

/// Reads the fields of a piece from `i` on, on top of those read already. A
/// later field of the same number replaces an earlier one, a field that is cut
/// off ends the piece, and one that is not known is skipped.
pub open spec fn piece_at(b: Seq<u8>, i: int, p: Piece) -> Piece
    decreases ahead(b, i),
{
    if i < 0 || i >= b.len() {
        p
    } else {
        match varint_at(b, i) {
            None => p,
            Some(key) => {
                let j = varint_end(b, i);
                proof {
                    lemma_reads_advance(b, i);
                    lemma_reads_advance(b, j);
                }
                if field_of(key) == 1 && wire_of(key) == 2 {
                    match bytes_end(b, j) {
                        None => p,
                        Some(end) => piece_at(
                            b,
                            end,
                            Piece { text: decoded(b.subrange(varint_end(b, j), end)), ..p },
                        ),
                    }
                } else if field_of(key) == 2 && wire_of(key) == 5 {
                    match fixed32_at(b, j) {
                        None => piece_at(b, j, Piece { score: 0, ..p }),
                        Some(score) => piece_at(b, j + 4, Piece { score, ..p }),
                    }
                } else if field_of(key) == 3 && wire_of(key) == 0 {
                    let kind = match varint_at(b, j) {
                        None => PieceKind::Normal,
                        Some(v) => PieceKind::of_proto(v as int),
                    };
                    piece_at(b, varint_end(b, j), Piece { kind, ..p })
                } else {
                    match skip_end(b, j, wire_of(key) as int) {
                        None => p,
                        Some(end) => piece_at(b, end, p),
                    }
                }
            },
        }
    }
}

/// Reads the pieces of a model from `i` on. Every length-delimited field of
/// number one is a piece; a field that is cut off ends the list.
pub open spec fn pieces_at(b: Seq<u8>, i: int) -> Seq<Piece>
    decreases ahead(b, i),
{
    if i < 0 || i >= b.len() {
        seq![]
    } else {
        match varint_at(b, i) {
            None => seq![],
            Some(key) => {
                let j = varint_end(b, i);
                proof {
                    lemma_reads_advance(b, i);
                    lemma_reads_advance(b, j);
                }
                if field_of(key) == 1 && wire_of(key) == 2 {
                    match bytes_end(b, j) {
                        None => seq![],
                        Some(end) => seq![
                            piece_at(b.subrange(varint_end(b, j), end), 0, blank()),
                        ] + pieces_at(b, end),
                    }
                } else {
                    match skip_end(b, j, wire_of(key) as int) {
                        None => seq![],
                        Some(end) => pieces_at(b, end),
                    }
                }
            },
        }
    }
}

/// The pieces of a model file.
pub open spec fn pieces_in(b: Seq<u8>) -> Seq<Piece> {
    pieces_at(b, 0)
}

/// A vocabulary entry in memory.
pub struct PieceBuf {
    pub text: String,
    pub score: u32,
    pub kind: PieceKind,
}

impl View for PieceBuf {
    type V = Piece;

    open spec fn view(&self) -> Piece {
        Piece { text: self.text@, score: self.score, kind: self.kind }
    }
}

/// Reads one piece.
pub fn read_piece(sub: &[u8]) -> (p: PieceBuf)
    requires
        sub@.len() + 8 <= usize::MAX,
    ensures
        p@ == piece_at(sub@, 0, blank()),
{
    let mut s = Wire::new(sub);
    let mut p = PieceBuf { text: String::new(), score: 0, kind: PieceKind::Normal };
    let ghost b = sub@;
    proof {
        assert(p.text@ =~= seq![]);
    }
    loop
        invariant_except_break
            piece_at(b, s.pos(), p@) == piece_at(b, 0, blank()),
        invariant
            b == sub@,
            b.len() + 8 <= usize::MAX,
            s.data() == b,
            s.pos() >= 0,
        ensures
            p@ == piece_at(b, 0, blank()),
        decreases ahead(b, s.pos()),
    {
        if s.done() {
            break;
        }
        let ghost i = s.pos();
        proof {
            lemma_reads_advance(b, i);
            lemma_reads_advance(b, varint_end(b, i));
        }
        let key: u64 = match s.varint() {
            Some(key) => key,
            None => {
                break;
            },
        };
        let field: u64 = (key / 8) % 0x1_0000_0000;
        let wire: u8 = (key % 8) as u8;
        if field == 1 && wire == 2 {
            match s.bytes() {
                Some(text) => {
                    p.text = lossy(text);
                },
                None => {
                    break;
                },
            }
        } else if field == 2 && wire == 5 {
            p.score = match s.fixed32() {
                Some(score) => score,
                None => 0,
            };
        } else if field == 3 && wire == 0 {
            p.kind = PieceKind::from_proto(match s.varint() {
                Some(v) => v,
                None => 1,
            });
        } else {
            match s.skip(wire) {
                Some(_) => {},
                None => {
                    break;
                },
            }
        }
    }
    p
}

/// The entries in memory and what they stand for.
pub open spec fn views(v: Seq<PieceBuf>) -> Seq<Piece> {
    v.map_values(|p: PieceBuf| p@)
}

/// Reads every piece of a model.
pub fn read_pieces(raw: &[u8]) -> (v: Vec<PieceBuf>)
    requires
        raw@.len() + 8 <= usize::MAX,
    ensures
        views(v@) == pieces_in(raw@),
        2 * v@.len() <= raw@.len(),
{
    let mut w = Wire::new(raw);
    let mut v: Vec<PieceBuf> = Vec::new();
    let ghost b = raw@;
    proof {
        assert(views(v@) + pieces_in(b) =~= pieces_in(b));
    }
    loop
        invariant_except_break
            views(v@) + pieces_at(b, w.pos()) == pieces_in(b),
        invariant
            b == raw@,
            b.len() + 8 <= usize::MAX,
            w.data() == b,
            w.pos() >= 0,
            2 * v@.len() <= w.pos(),
            2 * v@.len() <= b.len(),
        ensures
            views(v@) == pieces_in(b),
            2 * v@.len() <= b.len(),
        decreases ahead(b, w.pos()),
    {
        if w.done() {
            assert(views(v@) + pieces_at(b, w.pos()) =~= views(v@));
            break;
        }
        let ghost i = w.pos();
        let ghost had = views(v@);
        proof {
            lemma_reads_advance(b, i);
            lemma_reads_advance(b, varint_end(b, i));
            assert(had + seq![] =~= had);
        }
        let key: u64 = match w.varint() {
            Some(key) => key,
            None => {
                break;
            },
        };
        let field: u64 = (key / 8) % 0x1_0000_0000;
        let wire: u8 = (key % 8) as u8;
        if field == 1 && wire == 2 {
            match w.bytes() {
                Some(sub) => {
                    let p = read_piece(sub);
                    let ghost one = p@;
                    v.push(p);
                    proof {
                        assert(views(v@) =~= had.push(one));
                        let tail = pieces_at(b, w.pos());
                        assert(had + (seq![one] + tail) =~= had.push(one) + tail);
                    }
                },
                None => {
                    break;
                },
            }
        } else {
            match w.skip(wire) {
                Some(_) => {},
                None => {
                    break;
                },
            }
        }
    }
    v
}

/// An entry as a model holds it, before its text is decoded.
pub struct Entry {
    pub text: Seq<u8>,
    pub score: u32,
    pub kind: nat,
}

/// The number under which a kind is written.
pub open spec fn kind_number(kind: PieceKind) -> nat {
    match kind {
        PieceKind::Normal => 1,
        PieceKind::Unknown => 2,
        PieceKind::Control => 3,
        PieceKind::UserDefined => 4,
        PieceKind::Unused => 5,
        PieceKind::Byte => 6,
    }
}

/// An entry as it is written: text, score and kind, each behind its key.
pub open spec fn entry_bytes(e: Entry) -> Seq<u8> {
    varint_bytes(8 * 1 + 2) + field_bytes(e.text) + varint_bytes(8 * 2 + 5) + fixed32_bytes(e.score)
        + varint_bytes(8 * 3) + varint_bytes(e.kind)
}

/// An entry that can be written at all.
pub open spec fn writable(e: Entry) -> bool {
    &&& e.text.len() < pow2(64)
    &&& e.kind < pow2(64)
    &&& entry_bytes(e).len() < pow2(64)
}

/// A model as it is written: its entries one after the other.
pub open spec fn model_bytes(list: Seq<Entry>) -> Seq<u8>
    decreases list.len(),
{
    if list.len() == 0 {
        seq![]
    } else {
        varint_bytes(8 * 1 + 2) + field_bytes(entry_bytes(list[0])) + model_bytes(list.skip(1))
    }
}

/// An entry that was written is read back: its text, its score bit for bit, and
/// its kind.
pub proof fn law_entries_come_back(e: Entry)
    requires
        writable(e),
    ensures
        piece_at(entry_bytes(e), 0, blank()) == (Piece {
            text: decoded(e.text),
            score: e.score,
            kind: PieceKind::of_proto(e.kind as int),
        }),
        forall|kind: PieceKind|
            #![trigger kind_number(kind)]
            e.kind == kind_number(kind) ==> piece_at(entry_bytes(e), 0, blank()).kind == kind,
{
    lemma2_to64();
    let b = entry_bytes(e);
    let (k1, k2, k3) = (varint_bytes(10), varint_bytes(21), varint_bytes(24));
    let (text, score, kind) = (field_bytes(e.text), fixed32_bytes(e.score), varint_bytes(e.kind));
    let none = Seq::<u8>::empty();
    let t1 = text + k2 + score + k3 + kind;
    let t2 = k2 + score + k3 + kind;
    let t3 = score + k3 + kind;
    let t4 = k3 + kind;
    assert(b =~= none + k1 + t1);
    law_varints_come_back(none, 10, t1);
    assert(b =~= k1 + text + t2);
    law_fields_come_back(k1, e.text, t2);
    let at2 = k1 + text;
    assert(b =~= at2 + k2 + t3);
    law_varints_come_back(at2, 21, t3);
    let at3 = at2 + k2;
    assert(b =~= at3 + score + t4);
    law_fixed32_comes_back(at3, e.score, t4);
    let at4 = at3 + score;
    assert(b =~= at4 + k3 + kind);
    law_varints_come_back(at4, 24, kind);
    let at5 = at4 + k3;
    assert(b =~= at5 + kind + none);
    law_varints_come_back(at5, e.kind, none);
    let p1 = Piece { text: decoded(e.text), ..blank() };
    let p2 = Piece { score: e.score, ..p1 };
    let p3 = Piece { kind: PieceKind::of_proto(e.kind as int), ..p2 };
    assert(piece_at(b, 0, blank()) == piece_at(b, at2.len() as int, p1));
    assert(piece_at(b, at2.len() as int, p1) == piece_at(b, at4.len() as int, p2));
    assert(piece_at(b, at4.len() as int, p2) == piece_at(b, b.len() as int, p3));
}

/// A piece in front of others is read before them.
proof fn lemma_one_more(before: Seq<u8>, one: Seq<u8>, rest: Seq<u8>)
    requires
        one.len() < pow2(64),
    ensures
        ({
            let b = before + (varint_bytes(10) + field_bytes(one) + rest);
            let next = before + varint_bytes(10) + field_bytes(one);
            &&& b == next + rest
            &&& pieces_at(b, before.len() as int) == seq![piece_at(one, 0, blank())] + pieces_at(
                b,
                next.len() as int,
            )
        }),
{
    lemma2_to64();
    let key = varint_bytes(10);
    let field = field_bytes(one);
    let b = before + (key + field + rest);
    assert(b =~= before + key + (field + rest));
    law_varints_come_back(before, 10, field + rest);
    assert(b =~= (before + key) + field + rest);
    law_fields_come_back(before + key, one, rest);
}

/// The entries behind what is read already.
#[verifier::spinoff_prover]
proof fn lemma_models_from(before: Seq<u8>, list: Seq<Entry>)
    requires
        forall|k: int| 0 <= k < list.len() ==> writable(#[trigger] list[k]),
    ensures
        pieces_at(before + model_bytes(list), before.len() as int) =~= list.map_values(
            |e: Entry| piece_at(entry_bytes(e), 0, blank()),
        ),
    decreases list.len(),
{
    let b = before + model_bytes(list);
    let got = |e: Entry| piece_at(entry_bytes(e), 0, blank());
    if list.len() > 0 {
        let one = entry_bytes(list[0]);
        let tail = list.skip(1);
        let next = before + varint_bytes(10) + field_bytes(one);
        assert(writable(list[0]));
        lemma_one_more(before, one, model_bytes(tail));
        assert forall|k: int| 0 <= k < tail.len() implies writable(#[trigger] tail[k]) by {
            assert(writable(list[k + 1]));
        }
        lemma_models_from(next, tail);
        assert(list.map_values(got) =~= seq![got(list[0])] + tail.map_values(got));
    }
}

/// A model that was written is read back entry by entry, none left out and none
/// out of turn, with every text, score and kind.
pub proof fn law_models_come_back(list: Seq<Entry>)
    requires
        forall|k: int| 0 <= k < list.len() ==> writable(#[trigger] list[k]),
    ensures
        pieces_in(model_bytes(list)).len() == list.len(),
        forall|k: int|
            0 <= k < list.len() ==> (#[trigger] pieces_in(model_bytes(list))[k]) == (Piece {
                text: decoded(list[k].text),
                score: list[k].score,
                kind: PieceKind::of_proto(list[k].kind as int),
            }),
{
    let none = Seq::<u8>::empty();
    lemma_models_from(none, list);
    assert(none + model_bytes(list) =~= model_bytes(list));
    assert forall|k: int| 0 <= k < list.len() implies (#[trigger] pieces_in(model_bytes(list))[k])
        == (Piece {
        text: decoded(list[k].text),
        score: list[k].score,
        kind: PieceKind::of_proto(list[k].kind as int),
    }) by {
        assert(writable(list[k]));
        law_entries_come_back(list[k]);
    }
}

} // verus!
