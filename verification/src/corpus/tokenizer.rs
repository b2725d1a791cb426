//! A SentencePiece BPE tokenizer: greedy pair merging over a loaded model.

use crate::corpus::merge::byte_id;
use crate::corpus::text::{
    hex_digit, hex_number, hex_run, law_there_are_sixteen_digits, parse_hex,
};
use crate::corpus::vocabulary::{pieces_in, read_pieces, views, Piece, PieceBuf};
use crate::corpus::wire::PieceKind;
use vstd::arithmetic::power2::{lemma_pow2_pos, lemma_pow2_unfold, pow2};
use vstd::hash_map::StringHashMap;
use vstd::prelude::*;
use vstd::string::*;

verus! {

/// U+2581 LOWER ONE EIGHTH BLOCK, SentencePiece's stand-in for a space.
pub const SPACE: char = '\u{2581}';

/// The first piece, from `i` on, that is spelled like `text`.
pub open spec fn find_from(v: Seq<Piece>, text: Seq<char>, i: int) -> Option<int>
    decreases v.len() - i,
{
    if i >= v.len() {
        None
    } else if v[i].text == text {
        Some(i)
    } else {
        find_from(v, text, i + 1)
    }
}

/// The id of the first piece that is spelled like `text`.
pub open spec fn find(v: Seq<Piece>, text: Seq<char>) -> Option<int> {
    find_from(v, text, 0)
}

/// The byte that a spelling like `<0xAB>` stands for.
pub open spec fn byte_spelled(text: Seq<char>) -> Option<nat> {
    if text.len() == 6 && text[0] == '<' && text[1] == '0' && text[2] == 'x' && text[5] == '>' {
        hex_number(text.subrange(3, 5))
    } else {
        None
    }
}

/// Whether a piece is the fallback for a byte.
pub open spec fn is_fallback(p: Piece, byte: int) -> bool {
    p.kind == PieceKind::Byte && byte_spelled(p.text) == Some(byte as nat)
}

/// The id of the last piece that is the fallback for a byte.
pub open spec fn fallback(v: Seq<Piece>, byte: int) -> Option<int>
    decreases v.len(),
{
    if v.len() == 0 {
        None
    } else if is_fallback(v.last(), byte) {
        Some(v.len() - 1)
    } else {
        fallback(v.drop_last(), byte)
    }
}

/// The first piece, from `i` on, that stands for the unknown.
pub open spec fn unknown_from(v: Seq<Piece>, i: int) -> Option<int>
    decreases v.len() - i,
{
    if i >= v.len() {
        None
    } else if v[i].kind == PieceKind::Unknown {
        Some(i)
    } else {
        unknown_from(v, i + 1)
    }
}

/// The id that a byte without a fallback becomes.
pub open spec fn unknown_id(v: Seq<Piece>) -> int {
    match unknown_from(v, 0) {
        Some(i) => i,
        None => 0,
    }
}

/// The place of a score among all scores: the larger the score, the larger the
/// place. Both zeros share one place and what is no number comes last.
pub open spec fn score_place(bits: int) -> int {
    let magnitude = bits % 0x8000_0000;
    if magnitude > 0x7f80_0000 {
        0
    } else if bits < 0x8000_0000 {
        0x8000_0000 + magnitude
    } else {
        0x8000_0000 - magnitude
    }
}

/// Whether the bits of a score are those of a number.
pub open spec fn is_number(bits: int) -> bool {
    !(bits / 0x80_0000 % 256 == 255 && bits % 0x80_0000 != 0)
}

/// The number that the exponent and the fraction of a single-precision score
/// stand for, in units of the smallest such number.
pub open spec fn magnitude_value(exponent: int, fraction: int) -> int {
    if exponent == 0 {
        fraction
    } else {
        (0x80_0000 + fraction) * pow2((exponent - 1) as nat)
    }
}

/// The number that the bits of a single-precision score stand for, in units of
/// the smallest such number: a sign, eight bits of exponent, and a fraction with
/// a hidden one in front of it, unless the exponent is zero.
pub open spec fn score_value(bits: int) -> int {
    let value = magnitude_value(bits / 0x80_0000 % 256, bits % 0x80_0000);
    if bits / 0x8000_0000 % 2 == 1 {
        -value
    } else {
        value
    }
}

/// The next larger bits stand for a larger number.
proof fn lemma_magnitude_step(m: int)
    requires
        0 <= m,
    ensures
        magnitude_value(m / 0x80_0000, m % 0x80_0000) < magnitude_value(
            (m + 1) / 0x80_0000,
            (m + 1) % 0x80_0000,
        ),
{
    let e = m / 0x80_0000;
    let f = m % 0x80_0000;
    if e > 0 {
        lemma_pow2_pos((e - 1) as nat);
        lemma_pow2_unfold(e as nat);
    } else {
        vstd::arithmetic::power2::lemma2_to64();
    }
    let p = pow2((e - 1) as nat) as int;
    if f + 1 < 0x80_0000 {
        assert((m + 1) / 0x80_0000 == e && (m + 1) % 0x80_0000 == f + 1);
        if e > 0 {
            assert((0x80_0000 + f) * p < (0x80_0000 + f + 1) * p) by (nonlinear_arith)
                requires
                    p > 0,
            ;
        }
    } else {
        assert((m + 1) / 0x80_0000 == e + 1 && (m + 1) % 0x80_0000 == 0);
        if e > 0 {
            assert((0x80_0000 + f) * p < 0x80_0000 * (2 * p)) by (nonlinear_arith)
                requires
                    p > 0,
                    f + 1 == 0x80_0000,
            ;
        }
    }
}

proof fn lemma_magnitudes_rise(a: int, b: int)
    requires
        0 <= a <= b,
    ensures
        0 <= magnitude_value(a / 0x80_0000, a % 0x80_0000),
        a < b ==> magnitude_value(a / 0x80_0000, a % 0x80_0000) < magnitude_value(
            b / 0x80_0000,
            b % 0x80_0000,
        ),
        a > 0 ==> magnitude_value(a / 0x80_0000, a % 0x80_0000) > 0,
    decreases b,
{
    if a < b {
        lemma_magnitudes_rise(a, b - 1);
        lemma_magnitude_step(b - 1);
    } else if a > 0 {
        lemma_magnitudes_rise(0, a - 1);
        lemma_magnitude_step(a - 1);
        if a - 1 > 0 {
            lemma_magnitudes_rise(a - 1, a - 1);
        }
    }
}

/// Scores take their places by the numbers they stand for: the larger number has
/// the larger place, only equal numbers share one, and what is no number comes
/// before every number.
pub proof fn law_places_follow_the_scores(a: u32, b: u32)
    ensures
        is_number(a as int) && is_number(b as int) ==> (score_value(a as int) < score_value(
            b as int,
        ) <==> score_place(a as int) < score_place(b as int)),
        is_number(a as int) && is_number(b as int) ==> (score_value(a as int) == score_value(
            b as int,
        ) <==> score_place(a as int) == score_place(b as int)),
        !is_number(a as int) && is_number(b as int) ==> score_place(a as int) < score_place(
            b as int,
        ),
{
    let x = a as int % 0x8000_0000;
    let y = b as int % 0x8000_0000;
    assert(a as int / 0x80_0000 % 256 == x / 0x80_0000 && a as int % 0x80_0000 == x % 0x80_0000);
    assert(b as int / 0x80_0000 % 256 == y / 0x80_0000 && b as int % 0x80_0000 == y % 0x80_0000);
    lemma_magnitudes_rise(x, x);
    lemma_magnitudes_rise(y, y);
    if x <= y {
        lemma_magnitudes_rise(x, y);
    } else {
        lemma_magnitudes_rise(y, x);
    }
}

/// The place of a score among all scores.
pub fn place_of_score(bits: u32) -> (place: u64)
    ensures
        place == score_place(bits as int),
{
    let magnitude: u32 = bits % 0x8000_0000;
    if magnitude > 0x7f80_0000 {
        0
    } else if bits < 0x8000_0000 {
        0x8000_0000 + magnitude as u64
    } else {
        0x8000_0000 - magnitude as u64
    }
}

/// A SentencePiece BPE model.
pub struct Tokenizer {
    pieces: Vec<String>,
    /// Negated merge rank: a higher score merges earlier.
    scores: Vec<u32>,
    kinds: Vec<PieceKind>,
    index: StringHashMap<u32>,
    /// `<0x00>`..`<0xFF>`, so an unsegmentable character can still be encoded.
    byte_ids: Vec<u32>,
    unk_id: u32,
}

impl View for Tokenizer {
    type V = Seq<Piece>;

    closed spec fn view(&self) -> Seq<Piece> {
        Seq::new(
            self.pieces@.len(),
            |i: int|
                Piece {
                    text: self.pieces@[i]@,
                    score: self.scores@[i],
                    kind: self.kinds@[i],
                },
        )
    }
}

proof fn lemma_find_from(v: Seq<Piece>, text: Seq<char>, i: int)
    requires
        0 <= i <= v.len(),
    ensures
        match find_from(v, text, i) {
            Some(k) => i <= k < v.len() && v[k].text == text && forall|j: int|
                i <= j < k ==> (#[trigger] v[j]).text != text,
            None => forall|j: int| i <= j < v.len() ==> (#[trigger] v[j]).text != text,
        },
    decreases v.len() - i,
{
    if i < v.len() {
        lemma_find_from(v, text, i + 1);
    }
}

/// What finding a piece means: it is spelled like the text, and none before it
/// is.
pub proof fn law_find_is_first(v: Seq<Piece>, text: Seq<char>)
    ensures
        match find(v, text) {
            Some(k) => 0 <= k < v.len() && v[k].text == text && forall|j: int|
                0 <= j < k ==> (#[trigger] v[j]).text != text,
            None => forall|j: int| 0 <= j < v.len() ==> (#[trigger] v[j]).text != text,
        },
{
    lemma_find_from(v, text, 0);
}

/// A fallback is a byte piece of the byte it stands in for.
pub proof fn lemma_fallback_range(v: Seq<Piece>, byte: int)
    ensures
        match fallback(v, byte) {
            Some(k) => 0 <= k < v.len() && is_fallback(v[k], byte),
            None => forall|j: int| 0 <= j < v.len() ==> !is_fallback(#[trigger] v[j], byte),
        },
    decreases v.len(),
{
    if v.len() > 0 {
        lemma_fallback_range(v.drop_last(), byte);
        if !is_fallback(v.last(), byte) {
            assert forall|j: int| 0 <= j < v.len() && fallback(v, byte) is None implies !is_fallback(
                #[trigger] v[j],
                byte,
            ) by {
                if j < v.len() - 1 {
                    assert(v.drop_last()[j] == v[j]);
                }
            }
        }
    }
}

/// Of several pieces that stand for a byte the last is its fallback.
pub proof fn law_last_fallback_counts(v: Seq<Piece>, byte: int, j: int)
    requires
        0 <= j < v.len(),
        is_fallback(v[j], byte),
    ensures
        fallback(v, byte) is Some,
        j <= fallback(v, byte)->0 < v.len(),
        is_fallback(v[fallback(v, byte)->0], byte),
    decreases v.len(),
{
    if !is_fallback(v.last(), byte) {
        assert(v.drop_last()[j] == v[j]);
        law_last_fallback_counts(v.drop_last(), byte, j);
    }
}

/// The unknown id is that of the first piece that stands for the unknown, and
/// zero where none does.
pub proof fn law_unknown_is_the_first(v: Seq<Piece>, j: int)
    requires
        0 <= j < v.len(),
    ensures
        v[j].kind == PieceKind::Unknown ==> unknown_id(v) <= j && v[unknown_id(v)].kind
            == PieceKind::Unknown,
        v[unknown_id(v)].kind != PieceKind::Unknown ==> unknown_id(v) == 0,
{
    lemma_unknown_first(v, 0);
}

proof fn lemma_unknown_first(v: Seq<Piece>, i: int)
    requires
        0 <= i <= v.len(),
    ensures
        match unknown_from(v, i) {
            Some(k) => i <= k < v.len() && v[k].kind == PieceKind::Unknown && forall|j: int|
                i <= j < k ==> (#[trigger] v[j]).kind != PieceKind::Unknown,
            None => forall|j: int| i <= j < v.len() ==> (#[trigger] v[j]).kind
                != PieceKind::Unknown,
        },
    decreases v.len() - i,
{
    if i < v.len() {
        lemma_unknown_first(v, i + 1);
    }
}

proof fn lemma_unknown_from(v: Seq<Piece>, i: int)
    requires
        0 <= i <= v.len(),
    ensures
        match unknown_from(v, i) {
            Some(k) => i <= k < v.len(),
            None => true,
        },
    decreases v.len() - i,
{
    if i < v.len() {
        lemma_unknown_from(v, i + 1);
    }
}

/// The unknown id is that of a piece.
pub proof fn lemma_unknown_range(v: Seq<Piece>)
    requires
        v.len() > 0,
    ensures
        0 <= unknown_id(v) < v.len(),
{
    lemma_unknown_from(v, 0);
}

/// The byte that a spelling stands for.
fn spelled_byte(text: &String) -> (r: Option<u8>)
    ensures
        r is Some <==> byte_spelled(text@) is Some,
        r is Some ==> r->0 == byte_spelled(text@)->0,
{
    let s = text.as_str();
    if s.unicode_len() != 6 {
        return None;
    }
    if s.get_char(0) != '<' || s.get_char(1) != '0' || s.get_char(2) != 'x' || s.get_char(5)
        != '>' {
        return None;
    }
    let mut digits: Vec<char> = Vec::new();
    digits.push(s.get_char(3));
    digits.push(s.get_char(4));
    assert(digits@ =~= text@.subrange(3, 5));
    proof {
        crate::corpus::text::lemma_hex_pair_bound(digits@);
    }
    match parse_hex(&digits) {
        Some(v) => Some(v as u8),
        None => None,
    }
}

impl Tokenizer {
    /// The tables agree with the pieces.
    pub closed spec fn wf(&self) -> bool {
        &&& 0 < self.pieces@.len() <= u32::MAX
        &&& self.scores@.len() == self.pieces@.len()
        &&& self.kinds@.len() == self.pieces@.len()
        &&& forall|text: Seq<char>| #[trigger]
            self.index@.contains_key(text) <==> find(self@, text) is Some
        &&& forall|text: Seq<char>| #[trigger]
            self.index@.contains_key(text) ==> self.index@[text] == find(self@, text)->0
        &&& self.byte_ids@.len() == 256
        &&& forall|b: int|
            0 <= b < 256 ==> #[trigger] self.byte_ids@[b] == (match fallback(self@, b) {
                Some(id) => id,
                None => u32::MAX as int,
            })
        &&& self.unk_id == unknown_id(self@)
    }

    /// Loads a model from the bytes of its file. Nothing comes of a file
    /// without pieces. Every piece takes two bytes of the file or more, so a
    /// file of the length allowed has an id for each.
    pub fn load(raw: &[u8]) -> (r: Option<Self>)
        requires
            raw@.len() <= 0x1_ffff_fffe,
            raw@.len() + 8 <= usize::MAX,
        ensures
            r is Some <==> pieces_in(raw@).len() > 0,
            r is Some ==> r->0.wf() && r->0@ == pieces_in(raw@),
    {
        let bufs = read_pieces(raw);
        if bufs.len() == 0 {
            return None;
        }
        Some(Self::from_pieces(bufs))
    }

    /// Builds the lookup tables of a piece list.
    pub fn from_pieces(bufs: Vec<PieceBuf>) -> (tk: Self)
        requires
            0 < bufs@.len() <= u32::MAX,
        ensures
            tk.wf(),
            tk@ == views(bufs@),
    {
        let ghost v = views(bufs@);
        let n: usize = bufs.len();
        let mut pieces: Vec<String> = Vec::new();
        let mut scores: Vec<u32> = Vec::new();
        let mut kinds: Vec<PieceKind> = Vec::new();
        let mut index: StringHashMap<u32> = StringHashMap::new();
        let mut byte_ids: Vec<u32> = Vec::new();
        let mut b: usize = 0;
        while b < 256
            invariant
                b <= 256,
                byte_ids@.len() == b,
                forall|j: int| 0 <= j < b ==> byte_ids@[j] == u32::MAX,
            decreases 256 - b,
        {
            byte_ids.push(u32::MAX);
            b = b + 1;
        }
        let mut unk: Option<u32> = None;
        let mut id: usize = 0;
        while id < n
            invariant
                id <= n,
                n == bufs@.len(),
                n <= u32::MAX,
                v == views(bufs@),
                pieces@.len() == id,
                scores@.len() == id,
                kinds@.len() == id,
                forall|j: int| 0 <= j < id ==> (#[trigger] pieces@[j])@ == v[j].text,
                forall|j: int| 0 <= j < id ==> #[trigger] scores@[j] == v[j].score,
                forall|j: int| 0 <= j < id ==> #[trigger] kinds@[j] == v[j].kind,
                forall|text: Seq<char>| #[trigger]
                    index@.contains_key(text) <==> find(v.take(id as int), text) is Some,
                forall|text: Seq<char>| #[trigger]
                    index@.contains_key(text) ==> index@[text] == find(v.take(id as int), text)->0,
                byte_ids@.len() == 256,
                forall|j: int|
                    0 <= j < 256 ==> #[trigger] byte_ids@[j] == (match fallback(
                        v.take(id as int),
                        j,
                    ) {
                        Some(k) => k,
                        None => u32::MAX as int,
                    }),
                match unk {
                    Some(u) => unknown_from(v.take(id as int), 0) == Some(u as int),
                    None => unknown_from(v.take(id as int), 0) is None,
                },
            decreases n - id,
        {
            let p = &bufs[id];
            let ghost short = v.take(id as int);
            let ghost long = v.take(id + 1);
            proof {
                assert(long.drop_last() =~= short);
                assert(long.last() == v[id as int]);
                assert(v[id as int] == p@);
                assert forall|text: Seq<char>| true implies #[trigger] find(long, text) == (if find(
                    short,
                    text,
                ) is Some {
                    find(short, text)
                } else if v[id as int].text == text {
                    Some(id as int)
                } else {
                    None
                }) by {
                    lemma_find_grows(short, v[id as int], text, 0);
                    assert(long =~= short.push(v[id as int]));
                }
                lemma_unknown_grows(short, v[id as int], 0);
                assert(long =~= short.push(v[id as int]));
            }
            if !index.contains_key(p.text.as_str()) {
                index.insert(p.text.clone(), id as u32);
            }
            if p.kind == PieceKind::Byte {
                match spelled_byte(&p.text) {
                    Some(byte) => {
                        byte_ids.set(byte as usize, id as u32);
                    },
                    None => {},
                }
            }
            if unk.is_none() && p.kind == PieceKind::Unknown {
                unk = Some(id as u32);
            }
            pieces.push(p.text.clone());
            scores.push(p.score);
            kinds.push(p.kind);
            id = id + 1;
        }
        let unk_id: u32 = match unk {
            Some(u) => u,
            None => 0,
        };
        let tk = Tokenizer { pieces, scores, kinds, index, byte_ids, unk_id };
        proof {
            assert(v.take(id as int) =~= v);
            assert(tk@ =~= v);
        }
        tk
    }

    /// How many pieces there are.
    pub fn size(&self) -> (n: usize)
        requires
            self.wf(),
        ensures
            n == self@.len(),
            0 < n <= u32::MAX,
    {
        self.pieces.len()
    }

    /// The id of the first piece that is spelled like `text`.
    pub fn lookup(&self, text: &str) -> (r: Option<u32>)
        requires
            self.wf(),
        ensures
            r is Some <==> find(self@, text@) is Some,
            r is Some ==> r->0 == find(self@, text@)->0 && r->0 < self@.len(),
    {
        proof {
            law_find_is_first(self@, text@);
        }
        match self.index.get(text) {
            Some(id) => Some(*id),
            None => None,
        }
    }

    /// The place of a piece among those that may come out of a merge.
    pub fn merge_place(&self, id: u32) -> (r: Option<u64>)
        requires
            self.wf(),
            id < self@.len(),
        ensures
            r is Some <==> self@[id as int].kind.merges(),
            r is Some ==> r->0 == score_place(self@[id as int].score as int),
    {
        match self.kinds[id as usize] {
            PieceKind::Normal | PieceKind::UserDefined => Some(
                place_of_score(self.scores[id as usize]),
            ),
            _ => None,
        }
    }

    /// The id that a byte becomes where its character is no piece.
    pub fn byte_token(&self, b: u8) -> (id: u32)
        requires
            self.wf(),
        ensures
            id == byte_id(self@, b as int),
    {
        proof {
            lemma_fallback_range(self@, b as int);
            lemma_unknown_range(self@);
        }
        let id: u32 = self.byte_ids[b as usize];
        if id == u32::MAX {
            self.unk_id
        } else {
            id
        }
    }

    /// The spelling of a piece.
    pub fn piece(&self, id: u32) -> (text: &str)
        requires
            self.wf(),
            id < self@.len(),
        ensures
            text@ == self@[id as int].text,
    {
        self.pieces[id as usize].as_str()
    }
}

/// A new piece is found only where no earlier one is.
proof fn lemma_find_grows(v: Seq<Piece>, p: Piece, text: Seq<char>, i: int)
    requires
        0 <= i <= v.len(),
    ensures
        find_from(v.push(p), text, i) == (if find_from(v, text, i) is Some {
            find_from(v, text, i)
        } else if p.text == text {
            Some(v.len() as int)
        } else {
            None
        }),
    decreases v.len() - i,
{
    if i < v.len() {
        assert(v.push(p)[i] == v[i]);
        lemma_find_grows(v, p, text, i + 1);
    } else {
        assert(v.push(p)[i] == p);
        assert(find_from(v.push(p), text, i + 1) is None);
    }
}

proof fn lemma_unknown_grows(v: Seq<Piece>, p: Piece, i: int)
    requires
        0 <= i <= v.len(),
    ensures
        unknown_from(v.push(p), i) == (if unknown_from(v, i) is Some {
            unknown_from(v, i)
        } else if p.kind == PieceKind::Unknown {
            Some(v.len() as int)
        } else {
            None
        }),
    decreases v.len() - i,
{
    if i < v.len() {
        assert(v.push(p)[i] == v[i]);
        lemma_unknown_grows(v, p, i + 1);
    } else {
        assert(v.push(p)[i] == p);
        assert(unknown_from(v.push(p), i + 1) is None);
    }
}

/// A byte is spelled by its two digits in brackets, in either case.
pub proof fn law_bytes_are_spelled_in_digits(b: u8)
    ensures
        ({
            let (low, high) = (b as int % 16, b as int / 16);
            let d = "0123456789ABCDEF"@;
            &&& byte_spelled(seq!['<', '0', 'x', d[high], d[low], '>']) == Some(b as nat)
            &&& byte_spelled(seq!['<', '0', 'x', d[high], d[low]]) is None
        }),
        ({
            let (low, high) = (b as int % 16, b as int / 16);
            let d = "0123456789abcdef"@;
            byte_spelled(seq!['<', '0', 'x', d[high], d[low], '>']) == Some(b as nat)
        }),
{
    let (low, high) = (b as int % 16, b as int / 16);
    law_there_are_sixteen_digits(low, '0');
    law_there_are_sixteen_digits(high, '0');
    lemma_spelled("0123456789ABCDEF"@[high], "0123456789ABCDEF"@[low]);
    lemma_spelled("0123456789abcdef"@[high], "0123456789abcdef"@[low]);
}

/// What two digits in brackets spell.
proof fn lemma_spelled(high: char, low: char)
    requires
        hex_digit(high) is Some,
        hex_digit(low) is Some,
    ensures
        byte_spelled(seq!['<', '0', 'x', high, low, '>']) == Some(
            16 * hex_digit(high)->0 + hex_digit(low)->0,
        ),
{
    let text = seq!['<', '0', 'x', high, low, '>'];
    assert(text.subrange(3, 5) =~= seq![high, low]);
    assert(seq![high, low].drop_last() =~= seq![high]);
    assert(seq![high].drop_last() =~= seq![]);
    reveal_with_fuel(hex_run, 3);
}

} // verus!
