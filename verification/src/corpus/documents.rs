//! A streaming reader for the `input_text` fields of a JSON array of records.
//!
//! The reader is handed bytes as they arrive and never looks back, so memory is
//! one document, whatever the size of the file and wherever the reads fall.

use crate::corpus::text::{decoded, hex_number, lemma_hex_number_bound, lossy, parse_hex};
use vstd::prelude::*;
use vstd::string::*;
use vstd::utf8::{
    char_is_scalar, encode_scalar, encode_utf8, encode_utf8_decode_utf8, encode_utf8_first_scalar,
    encode_utf8_valid_utf8, is_scalar,
};

verus! {

/// What reading the next document out of some bytes comes to.
pub enum Outcome {
    /// The bytes end before the document does.
    More,
    /// A document and where it ends.
    Done(Seq<char>, int),
    /// A broken escape and where it ends.
    Bad(int),
    /// The second half of a surrogate pair that lies below `\udc00`, and where
    /// it ends. No code point can be joined from it.
    Stuck(int),
}

/// The key that documents are stored under, quotes and all.
pub open spec fn key() -> Seq<u8> {
    seq![34u8, 105, 110, 112, 117, 116, 95, 116, 101, 120, 116, 34]
}

/// What may stand between the key and the quote that opens its value.
pub open spec fn is_gap(b: u8) -> bool {
    b == 58 || b == 32 || b == 10 || b == 13 || b == 9
}

/// How many bytes follow a byte that starts a character.
pub open spec fn tail_len(b: u8) -> int {
    if b <= 0x7f {
        0
    } else if 0xc0 <= b <= 0xdf {
        1
    } else if 0xe0 <= b <= 0xef {
        2
    } else {
        3
    }
}

/// What a one-letter escape stands for.
pub open spec fn escaped(b: u8) -> char {
    if b == 110 {
        '\n'
    } else if b == 116 {
        '\t'
    } else if b == 114 {
        '\r'
    } else if b == 98 {
        '\u{8}'
    } else if b == 102 {
        '\u{c}'
    } else {
        b as char
    }
}

/// Bytes as the characters of the same number.
pub open spec fn latin(b: Seq<u8>) -> Seq<char> {
    b.map_values(|x: u8| x as char)
}

/// The four characters at `i` as a hexadecimal number.
pub open spec fn hex_at(s: Seq<u8>, i: int) -> Option<nat> {
    hex_number(latin(s.subrange(i, i + 4)))
}

/// Looking for the key from `i` on, its first `matched` bytes standing just
/// before `i`. A byte that breaks a match may itself be the first of the key.
pub open spec fn seek(s: Seq<u8>, i: int, matched: int) -> Outcome
    decreases s.len() - i,
{
    if i >= s.len() {
        Outcome::More
    } else if s[i] == key()[matched] {
        if matched + 1 == key().len() {
            value(s, i + 1)
        } else {
            seek(s, i + 1, matched + 1)
        }
    } else {
        seek(s, i + 1, if s[i] == key()[0] {
            1
        } else {
            0
        })
    }
}

/// Looking for the value of the key that ends at `i`. Anything but a string
/// means that the key was no key, and the search goes on.
pub open spec fn value(s: Seq<u8>, i: int) -> Outcome
    decreases s.len() - i,
{
    if i >= s.len() {
        Outcome::More
    } else if s[i] == 34 {
        body(s, i + 1, seq![])
    } else if is_gap(s[i]) {
        value(s, i + 1)
    } else {
        seek(s, i + 1, 0)
    }
}

/// Reading a string from `i` on, `text` being read already.
pub open spec fn body(s: Seq<u8>, i: int, text: Seq<char>) -> Outcome
    decreases s.len() - i,
{
    if i >= s.len() {
        Outcome::More
    } else if s[i] == 34 {
        Outcome::Done(text, i + 1)
    } else if s[i] == 92 {
        escape(s, i + 1, text)
    } else {
        let end = i + 1 + tail_len(s[i]);
        if end > s.len() {
            Outcome::More
        } else {
            body(s, end, text + decoded(s.subrange(i, end)))
        }
    }
}

/// Reading an escape whose backslash ends at `i`.
pub open spec fn escape(s: Seq<u8>, i: int, text: Seq<char>) -> Outcome
    decreases s.len() - i,
{
    if i >= s.len() {
        Outcome::More
    } else if s[i] == 117 {
        unicode(s, i + 1, text)
    } else {
        body(s, i + 1, text.push(escaped(s[i])))
    }
}

/// Reading the four digits of a `\u` escape at `i`.
pub open spec fn unicode(s: Seq<u8>, i: int, text: Seq<char>) -> Outcome
    decreases s.len() - i,
{
    if i + 4 > s.len() {
        Outcome::More
    } else {
        match hex_at(s, i) {
            None => Outcome::Bad(i + 4),
            Some(code) => if 0xD800 <= code < 0xDC00 {
                pair(s, i + 4, code, text)
            } else if is_scalar(code as u32) {
                body(s, i + 4, text.push(code as char))
            } else {
                Outcome::Bad(i + 4)
            },
        }
    }
}

/// Reading the second half of a surrogate pair at `i`. Where no second half
/// stands, the byte or the two that were looked at are gone, and so is the
/// first half.
pub open spec fn pair(s: Seq<u8>, i: int, high: nat, text: Seq<char>) -> Outcome
    decreases s.len() - i,
{
    if i >= s.len() {
        Outcome::More
    } else if s[i] != 92 {
        body(s, i + 1, text)
    } else if i + 1 >= s.len() {
        Outcome::More
    } else if s[i + 1] != 117 {
        body(s, i + 2, text)
    } else {
        low(s, i + 2, high, text)
    }
}

/// The code point of a surrogate pair.
pub open spec fn joined(high: nat, low: nat) -> int {
    0x10000 + (high - 0xD800) * 0x400 + (low - 0xDC00)
}

/// Reading the four digits of the second half of a surrogate pair at `i`.
pub open spec fn low(s: Seq<u8>, i: int, high: nat, text: Seq<char>) -> Outcome
    decreases s.len() - i,
{
    if i + 4 > s.len() {
        Outcome::More
    } else {
        match hex_at(s, i) {
            None => Outcome::Bad(i + 4),
            Some(half) => if half < 0xDC00 {
                Outcome::Stuck(i + 4)
            } else if is_scalar(joined(high, half) as u32) {
                body(s, i + 4, text.push(joined(high, half) as char))
            } else {
                Outcome::Bad(i + 4)
            },
        }
    }
}

/// What the first document in `s` is.
pub open spec fn first(s: Seq<u8>) -> Outcome {
    seek(s, 0, 0)
}

/// Where a document or a broken escape ends lies past where it was looked for.
pub open spec fn ends_within(o: Outcome, from: int, to: int) -> bool {
    match o {
        Outcome::More => true,
        Outcome::Done(_, end) => from < end <= to,
        Outcome::Bad(end) => from < end <= to,
        Outcome::Stuck(end) => from < end <= to,
    }
}

proof fn lemma_seek(s: Seq<u8>, t: Seq<u8>, i: int, matched: int)
    requires
        0 <= i,
    ensures
        ends_within(seek(s, i, matched), i, s.len() as int),
        !(seek(s, i, matched) is More) ==> seek(s + t, i, matched) == seek(s, i, matched),
    decreases s.len() - i,
{
    if i < s.len() {
        assert((s + t)[i] == s[i]);
        lemma_value(s, t, i + 1);
        lemma_seek(s, t, i + 1, matched + 1);
        lemma_seek(s, t, i + 1, 0);
        lemma_seek(s, t, i + 1, 1);
    }
}

proof fn lemma_value(s: Seq<u8>, t: Seq<u8>, i: int)
    requires
        0 <= i,
    ensures
        ends_within(value(s, i), i, s.len() as int),
        !(value(s, i) is More) ==> value(s + t, i) == value(s, i),
    decreases s.len() - i,
{
    if i < s.len() {
        assert((s + t)[i] == s[i]);
        lemma_body(s, t, i + 1, seq![]);
        lemma_value(s, t, i + 1);
        lemma_seek(s, t, i + 1, 0);
    }
}

proof fn lemma_body(s: Seq<u8>, t: Seq<u8>, i: int, text: Seq<char>)
    requires
        0 <= i,
    ensures
        ends_within(body(s, i, text), i, s.len() as int),
        !(body(s, i, text) is More) ==> body(s + t, i, text) == body(s, i, text),
    decreases s.len() - i,
{
    if i < s.len() {
        assert((s + t)[i] == s[i]);
        lemma_escape(s, t, i + 1, text);
        let end = i + 1 + tail_len(s[i]);
        if end <= s.len() {
            assert((s + t).subrange(i, end) =~= s.subrange(i, end));
            lemma_body(s, t, end, text + decoded(s.subrange(i, end)));
        }
    }
}

proof fn lemma_escape(s: Seq<u8>, t: Seq<u8>, i: int, text: Seq<char>)
    requires
        0 <= i,
    ensures
        ends_within(escape(s, i, text), i, s.len() as int),
        !(escape(s, i, text) is More) ==> escape(s + t, i, text) == escape(s, i, text),
    decreases s.len() - i,
{
    if i < s.len() {
        assert((s + t)[i] == s[i]);
        lemma_unicode(s, t, i + 1, text);
        lemma_body(s, t, i + 1, text.push(escaped(s[i])));
    }
}

proof fn lemma_unicode(s: Seq<u8>, t: Seq<u8>, i: int, text: Seq<char>)
    requires
        0 <= i,
    ensures
        ends_within(unicode(s, i, text), i, s.len() as int),
        !(unicode(s, i, text) is More) ==> unicode(s + t, i, text) == unicode(s, i, text),
    decreases s.len() - i,
{
    if i + 4 <= s.len() {
        assert((s + t).subrange(i, i + 4) =~= s.subrange(i, i + 4));
        if let Some(code) = hex_at(s, i) {
            lemma_pair(s, t, i + 4, code, text);
            lemma_body(s, t, i + 4, text.push(code as char));
        }
    }
}

proof fn lemma_pair(s: Seq<u8>, t: Seq<u8>, i: int, high: nat, text: Seq<char>)
    requires
        0 <= i,
    ensures
        ends_within(pair(s, i, high, text), i, s.len() as int),
        !(pair(s, i, high, text) is More) ==> pair(s + t, i, high, text) == pair(s, i, high, text),
    decreases s.len() - i,
{
    if i < s.len() {
        assert((s + t)[i] == s[i]);
        lemma_body(s, t, i + 1, text);
        if i + 1 < s.len() {
            assert((s + t)[i + 1] == s[i + 1]);
            lemma_body(s, t, i + 2, text);
            lemma_low(s, t, i + 2, high, text);
        }
    }
}

proof fn lemma_low(s: Seq<u8>, t: Seq<u8>, i: int, high: nat, text: Seq<char>)
    requires
        0 <= i,
    ensures
        ends_within(low(s, i, high, text), i, s.len() as int),
        !(low(s, i, high, text) is More) ==> low(s + t, i, high, text) == low(s, i, high, text),
    decreases s.len() - i,
{
    if i + 4 <= s.len() {
        assert((s + t).subrange(i, i + 4) =~= s.subrange(i, i + 4));
        if let Some(half) = hex_at(s, i) {
            lemma_body(s, t, i + 4, text.push(joined(high, half) as char));
        }
    }
}

/// A document is settled by the bytes up to its end: what comes after them
/// changes nothing.
pub proof fn law_first_is_settled(s: Seq<u8>, t: Seq<u8>)
    ensures
        ends_within(first(s), 0, s.len() as int),
        !(first(s) is More) ==> first(s + t) == first(s),
{
    lemma_seek(s, t, 0, 0);
}

/// The documents in `s`, in order, up to the end or to the first that cannot be
/// read.
pub open spec fn documents(s: Seq<u8>) -> Seq<Seq<char>>
    decreases s.len(),
{
    proof {
        law_first_is_settled(s, seq![]);
    }
    match first(s) {
        Outcome::Done(text, end) => seq![text] + documents(s.skip(end)),
        _ => seq![],
    }
}

/// The bytes after the last document that can be read.
pub open spec fn rest(s: Seq<u8>) -> Seq<u8>
    decreases s.len(),
{
    proof {
        law_first_is_settled(s, seq![]);
    }
    match first(s) {
        Outcome::Done(text, end) => rest(s.skip(end)),
        _ => s,
    }
}

/// The documents of a stream do not depend on where it is cut: reading one part
/// and then the other, from where the first left off, gives the documents of
/// the whole.
pub proof fn law_documents_survive_cuts(a: Seq<u8>, b: Seq<u8>)
    ensures
        first(rest(a)) is More ==> {
            &&& documents(a + b) == documents(a) + documents(rest(a) + b)
            &&& rest(a + b) == rest(rest(a) + b)
        },
        !(first(rest(a)) is More) ==> {
            &&& documents(a + b) == documents(a)
            &&& rest(a + b) == rest(a) + b
            &&& first(rest(a + b)) == first(rest(a))
        },
    decreases a.len(),
{
    law_first_is_settled(a, b);
    match first(a) {
        Outcome::Done(text, end) => {
            assert((a + b).skip(end) =~= a.skip(end) + b);
            law_documents_survive_cuts(a.skip(end), b);
            let d = documents(a.skip(end));
            assert(seq![text] + (d + documents(rest(a) + b)) =~= (seq![text] + d) + documents(
                rest(a) + b,
            ));
        },
        Outcome::More => {
            assert(documents(a) =~= seq![]);
            assert(documents(a) + documents(a + b) =~= documents(a + b));
        },
        _ => {},
    }
}

/// Text as it stands in a string that needs no escapes.
pub open spec fn plain(text: Seq<char>) -> bool {
    forall|k: int| 0 <= k < text.len() ==> text[k] != '"' && #[trigger] text[k] != '\\'
}

/// The bytes of one character, in a string, and what they are read as.
proof fn lemma_char(c: char)
    requires
        c != '"',
        c != '\\',
    ensures
        encode_scalar(c as u32).len() == 1 + tail_len(encode_scalar(c as u32)[0]),
        encode_scalar(c as u32)[0] != 34,
        encode_scalar(c as u32)[0] != 92,
        decoded(encode_scalar(c as u32)) == seq![c],
{
    let one = seq![c];
    assert(one.drop_first() =~= seq![]);
    assert(encode_utf8(one.drop_first()) =~= seq![]);
    assert(encode_utf8(one) =~= encode_scalar(c as u32));
    encode_utf8_valid_utf8(one);
    encode_utf8_decode_utf8(one);
    encode_utf8_first_scalar(one);
    let v = c as u32;
    char_is_scalar(c);
    assert(v <= 0x7f ==> (v & 0x7F) as u8 == v) by (bit_vector);
    assert(0xC0u8 | ((v >> 6) & 0x1F) as u8 >= 0xC0) by (bit_vector);
    assert(0xE0u8 | ((v >> 12) & 0x0F) as u8 >= 0xE0) by (bit_vector);
    assert(0xF0u8 | ((v >> 18) & 0x7) as u8 >= 0xF0) by (bit_vector);
}

proof fn lemma_plain_body(s: Seq<u8>, i: int, text: Seq<char>, more: Seq<char>)
    requires
        0 <= i,
        plain(more),
        i + encode_utf8(more).len() < s.len(),
        s.subrange(i, i + encode_utf8(more).len()) == encode_utf8(more),
        s[i + encode_utf8(more).len()] == 34,
    ensures
        body(s, i, text) == Outcome::Done(text + more, i + encode_utf8(more).len() + 1),
    decreases more.len(),
{
    let coded = encode_utf8(more);
    if more.len() == 0 {
        assert(text + more =~= text);
    } else {
        let c = more[0];
        let one = encode_scalar(c as u32);
        let tail = more.drop_first();
        lemma_char(c);
        assert(coded == one + encode_utf8(tail));
        assert(coded[0] == one[0]);
        assert(s.subrange(i, i + coded.len())[0] == s[i]);
        let end = i + one.len();
        assert(s.subrange(i, end) =~= one) by {
            assert(s.subrange(i, i + coded.len()).subrange(0, one.len() as int) =~= coded.subrange(
                0,
                one.len() as int,
            ));
        }
        assert(s.subrange(end, end + encode_utf8(tail).len()) =~= encode_utf8(tail)) by {
            assert(s.subrange(i, i + coded.len()).skip(one.len() as int) =~= coded.skip(
                one.len() as int,
            ));
            assert(coded.skip(one.len() as int) =~= encode_utf8(tail));
        }
        assert(plain(tail)) by {
            assert forall|k: int| 0 <= k < tail.len() implies tail[k] != '"' && #[trigger] tail[k]
                != '\\' by {
                assert(tail[k] == more[k + 1]);
            }
        }
        lemma_plain_body(s, end, text + seq![c], tail);
        assert((text + seq![c]) + tail =~= text + more);
    }
}

proof fn lemma_gap(s: Seq<u8>, i: int, to: int)
    requires
        0 <= i <= to < s.len(),
        forall|k: int| i <= k < to ==> is_gap(s[k]),
        s[to] == 34,
    ensures
        value(s, i) == body(s, to + 1, seq![]),
    decreases to - i,
{
    if i < to {
        lemma_gap(s, i + 1, to);
    }
}

proof fn lemma_key(s: Seq<u8>, i: int)
    requires
        0 <= i < key().len(),
        s.len() >= key().len(),
        s.take(key().len() as int) == key(),
    ensures
        seek(s, i, i) == value(s, key().len() as int),
    decreases key().len() - i,
{
    assert(s.take(key().len() as int)[i] == s[i]);
    if i + 1 < key().len() {
        lemma_key(s, i + 1);
    }
}

/// A record as it is written: the key, a colon and spaces, and the text in
/// quotes.
pub open spec fn record(gap: Seq<u8>, text: Seq<char>) -> Seq<u8> {
    key() + gap + seq![34u8] + encode_utf8(text) + seq![34u8]
}

/// Text that needs no escapes is read back as it was written, whatever
/// characters it is made of.
pub proof fn law_plain_text_comes_back(gap: Seq<u8>, text: Seq<char>)
    requires
        plain(text),
        forall|k: int| 0 <= k < gap.len() ==> is_gap(gap[k]),
    ensures
        first(record(gap, text)) == Outcome::Done(text, record(gap, text).len() as int),
{
    let s = record(gap, text);
    let n = key().len() as int;
    let to = n + gap.len();
    assert(s.take(n) =~= key());
    lemma_key(s, 0);
    assert forall|k: int| n <= k < to implies is_gap(s[k]) by {
        assert(s[k] == gap[k - n]);
    }
    lemma_gap(s, n, to);
    assert(s.subrange(to + 1, to + 1 + encode_utf8(text).len()) =~= encode_utf8(text));
    lemma_plain_body(s, to + 1, seq![], text);
    assert(Seq::<char>::empty() + text =~= text);
}

/// Whether some bytes stand for a character inside a string: as they are, as an
/// escape of one letter, as `\u` and four digits, or as two of those, the halves
/// of a surrogate pair.
pub open spec fn spells(b: Seq<u8>, c: char) -> bool {
    ||| c != '"' && c != '\\' && b == encode_scalar(c as u32)
    ||| b.len() == 2 && b[0] == 92 && b[1] != 117 && escaped(b[1]) == c
    ||| b.len() == 6 && b[0] == 92 && b[1] == 117 && hex_at(b, 2) == Some(c as nat)
    ||| {
        &&& b.len() == 12
        &&& b[0] == 92 && b[1] == 117
        &&& b[6] == 92 && b[7] == 117
        &&& hex_at(b, 2) is Some && 0xD800 <= hex_at(b, 2)->0 < 0xDC00
        &&& hex_at(b, 8) is Some && 0xDC00 <= hex_at(b, 8)->0 < 0xE000
        &&& joined(hex_at(b, 2)->0, hex_at(b, 8)->0) == c as int
    }
}

/// Bytes for each character of a text, put together.
pub open spec fn put_together(parts: Seq<Seq<u8>>) -> Seq<u8>
    decreases parts.len(),
{
    if parts.len() == 0 {
        seq![]
    } else {
        parts[0] + put_together(parts.drop_first())
    }
}

/// Bytes that stand for a character are read as that character.
proof fn lemma_spelled(s: Seq<u8>, i: int, text: Seq<char>, b: Seq<u8>, c: char)
    requires
        0 <= i,
        i + b.len() <= s.len(),
        s.subrange(i, i + b.len()) == b,
        spells(b, c),
    ensures
        b.len() > 0,
        body(s, i, text) == body(s, i + b.len(), text.push(c)),
{
    let part = s.subrange(i, i + b.len());
    char_is_scalar(c);
    if c != '"' && c != '\\' && b == encode_scalar(c as u32) {
        lemma_char(c);
        assert(part[0] == s[i]);
        assert(text + seq![c] =~= text.push(c));
    } else if b.len() == 2 {
        assert(part[0] == s[i] && part[1] == s[i + 1]);
        assert(escape(s, i + 1, text) == body(s, i + 2, text.push(c)));
    } else {
        assert(part[0] == s[i] && part[1] == s[i + 1]);
        assert(s.subrange(i + 2, i + 6) =~= b.subrange(2, 6));
        lemma_hex_number_bound(latin(b.subrange(2, 6)));
        assert(body(s, i, text) == escape(s, i + 1, text));
        assert(escape(s, i + 1, text) == unicode(s, i + 2, text));
        let code = hex_at(b, 2)->0;
        assert(hex_at(s, i + 2) == Some(code));
        if b.len() == 12 {
            let half = hex_at(b, 8)->0;
            assert(part[6] == s[i + 6] && part[7] == s[i + 7]);
            assert(s.subrange(i + 8, i + 12) =~= b.subrange(8, 12));
            assert(hex_at(s, i + 8) == Some(half));
            assert(unicode(s, i + 2, text) == pair(s, i + 6, code, text));
            assert(pair(s, i + 6, code, text) == low(s, i + 8, code, text));
            assert(joined(code, half) as u32 == c as u32);
            assert(joined(code, half) as char == c);
            assert(low(s, i + 8, code, text) == body(s, i + 12, text.push(c)));
        } else {
            assert(code as u32 == c as u32);
            assert(code as char == c);
            assert(unicode(s, i + 2, text) == body(s, i + 6, text.push(c)));
        }
    }
}

proof fn lemma_spelled_body(
    s: Seq<u8>,
    i: int,
    text: Seq<char>,
    parts: Seq<Seq<u8>>,
    more: Seq<char>,
)
    requires
        0 <= i,
        parts.len() == more.len(),
        forall|k: int| 0 <= k < more.len() ==> spells(#[trigger] parts[k], more[k]),
        i + put_together(parts).len() < s.len(),
        s.subrange(i, i + put_together(parts).len()) == put_together(parts),
        s[i + put_together(parts).len()] == 34,
    ensures
        body(s, i, text) == Outcome::Done(text + more, i + put_together(parts).len() + 1),
    decreases more.len(),
{
    let all = put_together(parts);
    if more.len() == 0 {
        assert(text + more =~= text);
    } else {
        let b = parts[0];
        let c = more[0];
        let later = parts.drop_first();
        let tail = more.drop_first();
        let end = i + b.len();
        assert(all == b + put_together(later));
        assert(s.subrange(i, end) =~= b) by {
            assert(s.subrange(i, i + all.len()).take(b.len() as int) =~= all.take(b.len() as int));
            assert(all.take(b.len() as int) =~= b);
        }
        assert(s.subrange(end, end + put_together(later).len()) =~= put_together(later)) by {
            assert(s.subrange(i, i + all.len()).skip(b.len() as int) =~= all.skip(b.len() as int));
            assert(all.skip(b.len() as int) =~= put_together(later));
        }
        assert forall|k: int| 0 <= k < tail.len() implies spells(#[trigger] later[k], tail[k]) by {
            assert(spells(parts[k + 1], more[k + 1]));
        }
        lemma_spelled(s, i, text, b, c);
        lemma_spelled_body(s, end, text.push(c), later, tail);
        assert(text.push(c) + tail =~= text + more);
    }
}

/// Every character can be written in a string, quotes and backslashes too.
pub proof fn law_every_character_can_be_written(c: char)
    ensures
        spells(
            if c == '"' {
                seq![92u8, 34]
            } else if c == '\\' {
                seq![92u8, 92]
            } else {
                encode_scalar(c as u32)
            },
            c,
        ),
{
}

/// Text is read back as it was written, whatever characters it is made of and
/// however each of them was escaped: quotes, backslashes and control characters
/// by one letter or by number, and those past `\uffff` as surrogate pairs.
pub proof fn law_escaped_text_comes_back(gap: Seq<u8>, parts: Seq<Seq<u8>>, text: Seq<char>)
    requires
        parts.len() == text.len(),
        forall|k: int| 0 <= k < text.len() ==> spells(#[trigger] parts[k], text[k]),
        forall|k: int| 0 <= k < gap.len() ==> is_gap(gap[k]),
    ensures
        ({
            let s = key() + gap + seq![34u8] + put_together(parts) + seq![34u8];
            first(s) == Outcome::Done(text, s.len() as int)
        }),
{
    let s = key() + gap + seq![34u8] + put_together(parts) + seq![34u8];
    let n = key().len() as int;
    let to = n + gap.len();
    assert(s.take(n) =~= key());
    lemma_key(s, 0);
    assert forall|k: int| n <= k < to implies is_gap(s[k]) by {
        assert(s[k] == gap[k - n]);
    }
    lemma_gap(s, n, to);
    assert(s.subrange(to + 1, to + 1 + put_together(parts).len()) =~= put_together(parts));
    lemma_spelled_body(s, to + 1, seq![], parts, text);
    assert(Seq::<char>::empty() + text =~= text);
}

/// What the reader is in the middle of.
#[derive(Clone, Copy, Debug, PartialEq, Eq, Structural)]
enum Phase {
    Seek,
    Value,
    Body,
    Escape,
    Unicode,
    PairSlash,
    PairMark,
    Low,
    Tail,
}

/// What a byte brought.
pub enum Event {
    /// Nothing yet.
    Pending,
    /// The end of a document.
    Document(String),
    /// The end of a document that cannot be read.
    Malformed,
}

/// Streams the `input_text` fields out of a JSON array of records without
/// holding the file in memory.
pub struct Documents {
    phase: Phase,
    /// How much of the key stands just before.
    matched: usize,
    /// The text of the document so far.
    text: String,
    /// The first half of a surrogate pair.
    high: u32,
    /// The bytes of a character or the digits of an escape that is not
    /// complete.
    held: Vec<u8>,
    /// Every byte since the last document.
    seen: Ghost<Seq<u8>>,
}

impl View for Documents {
    type V = Seq<u8>;

    /// The bytes taken since the last document ended.
    closed spec fn view(&self) -> Seq<u8> {
        self.seen@
    }
}

impl Documents {
    /// Where the construct that the reader is in the middle of starts.
    spec fn anchor(&self) -> int {
        match self.phase {
            Phase::Seek | Phase::Value | Phase::Body | Phase::Escape | Phase::PairSlash => {
                self.seen@.len() as int
            },
            Phase::PairMark => self.seen@.len() - 1,
            Phase::Unicode | Phase::Low | Phase::Tail => self.seen@.len() - self.held@.len(),
        }
    }

    /// How reading goes on in `s`, which starts with the bytes seen.
    spec fn resume(&self, s: Seq<u8>) -> Outcome {
        let i = self.anchor();
        match self.phase {
            Phase::Seek => seek(s, i, self.matched as int),
            Phase::Value => value(s, i),
            Phase::Body | Phase::Tail => body(s, i, self.text@),
            Phase::Escape => escape(s, i, self.text@),
            Phase::Unicode => unicode(s, i, self.text@),
            Phase::PairSlash | Phase::PairMark => pair(s, i, self.high as nat, self.text@),
            Phase::Low => low(s, i, self.high as nat, self.text@),
        }
    }

    /// What the fields say of the bytes seen.
    spec fn inner(&self) -> bool {
        let s = self.seen@;
        let n = s.len() as int;
        let k = self.held@.len() as int;
        &&& self.matched < key().len()
        &&& match self.phase {
            Phase::Seek | Phase::Value | Phase::Body | Phase::Escape => k == 0,
            Phase::PairSlash => k == 0 && 0xD800 <= self.high < 0xDC00,
            Phase::PairMark => k == 0 && n >= 1 && s[n - 1] == 92 && 0xD800 <= self.high < 0xDC00,
            Phase::Unicode => k < 4 && k <= n && s.subrange(n - k, n) == self.held@,
            Phase::Low => k < 4 && k <= n && s.subrange(n - k, n) == self.held@ && 0xD800
                <= self.high < 0xDC00,
            Phase::Tail => {
                &&& 0 < k <= n
                &&& s.subrange(n - k, n) == self.held@
                &&& self.held@[0] != 34
                &&& self.held@[0] != 92
                &&& k < 1 + tail_len(self.held@[0])
            },
        }
    }

    /// The fields are a summary of the bytes seen: whatever comes next, reading
    /// goes on from them as it would from the start.
    pub closed spec fn wf(&self) -> bool {
        &&& self.inner()
        &&& forall|t: Seq<u8>| first(#[trigger] (self.seen@ + t)) == self.resume(self.seen@ + t)
    }

    /// A reader before its first byte.
    pub fn new() -> (d: Self)
        ensures
            d.wf(),
            d@ == Seq::<u8>::empty(),
    {
        let d = Documents {
            phase: Phase::Seek,
            matched: 0,
            text: String::new(),
            high: 0,
            held: Vec::new(),
            seen: Ghost(Seq::empty()),
        };
        d
    }

    /// Whether `b` may come next. The one thing that may not is the last digit
    /// of a second surrogate half that lies below `\udc00`.
    pub open spec fn takes(&self, b: u8) -> bool {
        !(first(self@.push(b)) is Stuck)
    }

    /// What taking `b` does to the reader and what it brings.
    pub open spec fn took(self, b: u8, now: Documents, e: Event) -> bool {
        match first(self@.push(b)) {
            Outcome::More => e is Pending && now@ == self@.push(b),
            Outcome::Done(text, end) => {
                &&& e is Document
                &&& e->0@ == text
                &&& end == self@.len() + 1
                &&& now@ == Seq::<u8>::empty()
            },
            Outcome::Bad(end) => {
                &&& e is Malformed
                &&& end == self@.len() + 1
                &&& now@ == Seq::<u8>::empty()
            },
            Outcome::Stuck(_) => false,
        }
    }

    /// Back to the state before the first byte.
    fn clear(&mut self)
        ensures
            final(self).wf(),
            final(self)@ == Seq::<u8>::empty(),
    {
        self.phase = Phase::Seek;
        self.matched = 0;
        self.held.clear();
        self.text = String::new();
        self.seen = Ghost(Seq::empty());
    }

    /// What the bytes seen and one more come to, in terms of the construct the
    /// reader is in.
    proof fn lemma_resume(&self, b: u8)
        requires
            self.wf(),
        ensures
            first(self.seen@.push(b)) == self.resume(self.seen@.push(b)),
            forall|t: Seq<u8>|
                first(#[trigger] (self.seen@.push(b) + t)) == self.resume(self.seen@.push(b) + t),
    {
        let more = self.seen@.push(b);
        assert(more =~= self.seen@ + seq![b]);
        assert forall|t: Seq<u8>| first(#[trigger] (more + t)) == self.resume(more + t) by {
            assert(more + t =~= self.seen@ + (seq![b] + t));
        }
    }

    /// The reader is never past the end of a document.
    proof fn lemma_pending(&self)
        requires
            self.wf(),
        ensures
            first(self.seen@) is More,
    {
        assert(self.seen@ + Seq::<u8>::empty() =~= self.seen@);
        assert(self.resume(self.seen@) is More);
    }

    fn on_seek(&mut self, b: u8) -> (e: Event)
        requires
            old(self).wf(),
            old(self).phase == Phase::Seek,
        ensures
            final(self).wf(),
            old(self).took(b, *final(self), e),
    {
        proof {
            self.lemma_resume(b);
        }
        let expected: u8 = key_byte(self.matched);
        if b == expected {
            if self.matched == 11 {
                self.matched = 0;
                self.phase = Phase::Value;
            } else {
                self.matched = self.matched + 1;
            }
        } else if b == 34 {
            self.matched = 1;
        } else {
            self.matched = 0;
        }
        self.seen = Ghost(self.seen@.push(b));
        proof {
            self.lemma_pending();
        }
        Event::Pending
    }

    fn on_value(&mut self, b: u8) -> (e: Event)
        requires
            old(self).wf(),
            old(self).phase == Phase::Value,
        ensures
            final(self).wf(),
            old(self).took(b, *final(self), e),
    {
        proof {
            self.lemma_resume(b);
        }
        if b == 34 {
            self.text = String::new();
            self.phase = Phase::Body;
            assert(self.text@ =~= seq![]);
        } else if b == 58 || b == 32 || b == 10 || b == 13 || b == 9 {
        } else {
            self.matched = 0;
            self.phase = Phase::Seek;
        }
        self.seen = Ghost(self.seen@.push(b));
        proof {
            self.lemma_pending();
        }
        Event::Pending
    }

    fn on_body(&mut self, b: u8) -> (e: Event)
        requires
            old(self).wf(),
            old(self).phase == Phase::Body,
        ensures
            final(self).wf(),
            old(self).took(b, *final(self), e),
    {
        proof {
            self.lemma_resume(b);
        }
        if b == 34 {
            let text = self.text.clone();
            self.clear();
            return Event::Document(text);
        }
        let ghost n = self.seen@.len() as int;
        if b == 92 {
            self.phase = Phase::Escape;
        } else {
            self.held.push(b);
            assert(self.seen@.push(b).subrange(n, n + 1) =~= self.held@);
            if b <= 0x7f {
                assert(self.held@ =~= seq![b]);
                let piece = lossy(&self.held);
                self.text.append(piece.as_str());
                self.held.clear();
                assert forall|t: Seq<u8>|
                    (#[trigger] (self.seen@.push(b) + t)).subrange(n, n + 1) == seq![b] by {
                    assert((self.seen@.push(b) + t).subrange(n, n + 1) =~= seq![b]);
                }
            } else {
                self.phase = Phase::Tail;
            }
        }
        self.seen = Ghost(self.seen@.push(b));
        proof {
            self.lemma_pending();
        }
        Event::Pending
    }

    fn on_tail(&mut self, b: u8) -> (e: Event)
        requires
            old(self).wf(),
            old(self).phase == Phase::Tail,
        ensures
            final(self).wf(),
            old(self).took(b, *final(self), e),
    {
        proof {
            self.lemma_resume(b);
        }
        let ghost n = self.seen@.len() as int;
        let ghost from = self.anchor();
        let first_byte: u8 = self.held[0];
        self.held.push(b);
        let ghost held = self.held@;
        proof {
            let more = self.seen@.push(b);
            assert(more.subrange(from, n + 1) =~= held);
            assert(more[from] == held[0]);
            assert forall|t: Seq<u8>|
                (#[trigger] (more + t)).subrange(from, n + 1) == held && (more + t)[from]
                    == held[0] by {
                assert((more + t).subrange(from, n + 1) =~= held);
            }
        }
        let want: usize = if first_byte >= 0xc0 && first_byte <= 0xdf {
            2
        } else if first_byte >= 0xe0 && first_byte <= 0xef {
            3
        } else {
            4
        };
        if self.held.len() == want {
            let piece = lossy(&self.held);
            self.text.append(piece.as_str());
            self.held.clear();
            self.phase = Phase::Body;
        }
        self.seen = Ghost(self.seen@.push(b));
        proof {
            self.lemma_pending();
        }
        Event::Pending
    }

    fn on_escape(&mut self, b: u8) -> (e: Event)
        requires
            old(self).wf(),
            old(self).phase == Phase::Escape,
        ensures
            final(self).wf(),
            old(self).took(b, *final(self), e),
    {
        proof {
            self.lemma_resume(b);
        }
        if b == 117 {
            self.phase = Phase::Unicode;
            proof {
                let n = self.seen@.len() + 1;
                assert(self.held@ =~= self.seen@.push(b).subrange(n as int, n as int));
            }
        } else {
            let c: char = match b {
                110 => '\n',
                116 => '\t',
                114 => '\r',
                98 => '\u{8}',
                102 => '\u{c}',
                _ => b as char,
            };
            self.text.push(c);
            self.phase = Phase::Body;
        }
        self.seen = Ghost(self.seen@.push(b));
        proof {
            self.lemma_pending();
        }
        Event::Pending
    }

    /// The state after one more digit of an escape, the digits staying short of
    /// four.
    proof fn lemma_held(&self, b: u8, from: int)
        requires
            self.inner(),
            self.phase == Phase::Unicode || self.phase == Phase::Low,
            from == self.seen@.len() - self.held@.len(),
        ensures
            forall|t: Seq<u8>|
                (#[trigger] (self.seen@.push(b) + t)).subrange(from, self.seen@.len() as int + 1)
                    == self.held@.push(b),
            self.seen@.push(b).subrange(from, self.seen@.len() as int + 1) == self.held@.push(b),
    {
        let n = self.seen@.len() as int;
        let more = self.seen@.push(b);
        assert(more.subrange(from, n + 1) =~= self.held@.push(b)) by {
            assert(self.seen@.subrange(from, n) == self.held@);
        }
        assert forall|t: Seq<u8>|
            (#[trigger] (more + t)).subrange(from, n + 1) == self.held@.push(b) by {
            assert((more + t).subrange(from, n + 1) =~= more.subrange(from, n + 1));
        }
    }

    fn on_unicode(&mut self, b: u8) -> (e: Event)
        requires
            old(self).wf(),
            old(self).phase == Phase::Unicode,
        ensures
            final(self).wf(),
            old(self).took(b, *final(self), e),
    {
        let ghost n = self.seen@.len() as int;
        let ghost from = self.anchor();
        proof {
            self.lemma_resume(b);
            self.lemma_held(b, from);
        }
        self.held.push(b);
        if self.held.len() == 4 {
            let code: u32 = match hex4(&self.held) {
                Some(code) => code,
                None => {
                    self.clear();
                    return Event::Malformed;
                },
            };
            if code >= 0xD800 && code < 0xDC00 {
                self.high = code;
                self.phase = Phase::PairSlash;
            } else {
                match char::from_u32(code) {
                    Some(c) => {
                        self.text.push(c);
                        self.phase = Phase::Body;
                    },
                    None => {
                        self.clear();
                        return Event::Malformed;
                    },
                }
            }
            self.held.clear();
        }
        self.seen = Ghost(self.seen@.push(b));
        proof {
            self.lemma_pending();
        }
        Event::Pending
    }

    fn on_pair(&mut self, b: u8) -> (e: Event)
        requires
            old(self).wf(),
            old(self).phase == Phase::PairSlash || old(self).phase == Phase::PairMark,
        ensures
            final(self).wf(),
            old(self).took(b, *final(self), e),
    {
        proof {
            self.lemma_resume(b);
            let n = self.seen@.len() as int;
            let more = self.seen@.push(b);
            if self.phase == Phase::PairMark {
                assert(more[n - 1] == 92);
                assert forall|t: Seq<u8>| (#[trigger] (more + t))[n - 1] == 92 by {}
            }
            assert(self.held@ =~= more.subrange(n + 1, n + 1));
        }
        if self.phase == Phase::PairSlash {
            if b == 92 {
                self.phase = Phase::PairMark;
            } else {
                self.phase = Phase::Body;
            }
        } else if b == 117 {
            self.phase = Phase::Low;
        } else {
            self.phase = Phase::Body;
        }
        self.seen = Ghost(self.seen@.push(b));
        proof {
            self.lemma_pending();
        }
        Event::Pending
    }

    fn on_low(&mut self, b: u8) -> (e: Event)
        requires
            old(self).wf(),
            old(self).phase == Phase::Low,
            old(self).takes(b),
        ensures
            final(self).wf(),
            old(self).took(b, *final(self), e),
    {
        let ghost n = self.seen@.len() as int;
        let ghost from = self.anchor();
        proof {
            self.lemma_resume(b);
            self.lemma_held(b, from);
        }
        self.held.push(b);
        if self.held.len() == 4 {
            let half: u32 = match hex4(&self.held) {
                Some(half) => half,
                None => {
                    self.clear();
                    return Event::Malformed;
                },
            };
            assert(half >= 0xDC00);
            let code: u32 = 0x10000 + (self.high - 0xD800) * 0x400 + (half - 0xDC00);
            match char::from_u32(code) {
                Some(c) => {
                    self.text.push(c);
                    self.phase = Phase::Body;
                },
                None => {
                    self.clear();
                    return Event::Malformed;
                },
            }
            self.held.clear();
        }
        self.seen = Ghost(self.seen@.push(b));
        proof {
            self.lemma_pending();
        }
        Event::Pending
    }

    /// Whether `b` may come next.
    pub fn admits(&self, b: u8) -> (r: bool)
        requires
            self.wf(),
        ensures
            r == self.takes(b),
            !r ==> first(self@.push(b)) == Outcome::Stuck(self@.len() as int + 1),
    {
        proof {
            self.lemma_resume(b);
            let n = self.seen@.len() as int;
            lemma_end(self.seen@.push(b), n + 1);
            if self.phase == Phase::Tail {
                assert(self.seen@.subrange(self.anchor(), n)[0] == self.held@[0]);
            }
        }
        if self.phase != Phase::Low || self.held.len() < 3 {
            proof {
                reveal_with_fuel(seek, 2);
                reveal_with_fuel(value, 2);
                reveal_with_fuel(body, 2);
            }
            return true;
        }
        proof {
            self.lemma_held(b, self.anchor());
        }
        let mut digits: Vec<u8> = self.held.clone();
        digits.push(b);
        assert(digits@ =~= self.held@.push(b));
        match hex4(&digits) {
            Some(half) => half >= 0xDC00,
            None => true,
        }
    }

    /// Takes one byte.
    pub fn push(&mut self, b: u8) -> (e: Event)
        requires
            old(self).wf(),
            old(self).takes(b),
        ensures
            final(self).wf(),
            old(self).took(b, *final(self), e),
    {
        match self.phase {
            Phase::Seek => self.on_seek(b),
            Phase::Value => self.on_value(b),
            Phase::Body => self.on_body(b),
            Phase::Escape => self.on_escape(b),
            Phase::Unicode => self.on_unicode(b),
            Phase::PairSlash | Phase::PairMark => self.on_pair(b),
            Phase::Low => self.on_low(b),
            Phase::Tail => self.on_tail(b),
        }
    }
}

/// How far a chunk was read.
#[derive(Clone, Copy, Debug, PartialEq, Eq, Structural)]
pub enum Fed {
    /// To its end.
    All,
    /// Up to and with the byte that ends a document that cannot be read; so
    /// many bytes were taken.
    Malformed(usize),
    /// Up to a byte that may not come next; so many bytes were taken.
    Refused(usize),
}

/// The texts of some strings.
pub open spec fn texts(v: Seq<String>) -> Seq<Seq<char>> {
    v.map_values(|s: String| s@)
}

impl Documents {
    /// Takes a chunk of the stream, wherever it was cut, and appends the
    /// documents that end in it to `out`.
    pub fn feed(&mut self, chunk: &[u8], out: &mut Vec<String>) -> (r: Fed)
        requires
            old(self).wf(),
        ensures
            final(self).wf(),
            match r {
                Fed::All => {
                    let s = old(self)@ + chunk@;
                    &&& texts(final(out)@) == texts(old(out)@) + documents(s)
                    &&& final(self)@ == rest(s)
                    &&& first(rest(s)) is More
                },
                Fed::Malformed(n) => {
                    let s = old(self)@ + chunk@.take(n as int);
                    &&& 0 < n <= chunk@.len()
                    &&& texts(final(out)@) == texts(old(out)@) + documents(s)
                    &&& first(rest(s)) == Outcome::Bad(rest(s).len() as int)
                    &&& final(self)@ == Seq::<u8>::empty()
                },
                Fed::Refused(n) => {
                    let s = old(self)@ + chunk@.take(n as int);
                    &&& n < chunk@.len()
                    &&& texts(final(out)@) == texts(old(out)@) + documents(s)
                    &&& final(self)@ == rest(s)
                    &&& first(rest(s)) is More
                    &&& first(rest(s).push(chunk@[n as int])) is Stuck
                },
            },
    {
        let ghost before = self@;
        let ghost held = texts(out@);
        let mut i: usize = 0;
        proof {
            self.lemma_pending();
            assert(before + chunk@.take(0) =~= before);
            assert(held + documents(before) =~= held);
        }
        while i < chunk.len()
            invariant
                i <= chunk@.len(),
                self.wf(),
                before == old(self)@,
                held == texts(old(out)@),
                self@ == rest(before + chunk@.take(i as int)),
                first(self@) is More,
                texts(out@) == held + documents(before + chunk@.take(i as int)),
            decreases chunk@.len() - i,
        {
            let b: u8 = chunk[i];
            if !self.admits(b) {
                return Fed::Refused(i);
            }
            let ghost was = self@;
            let ghost part = before + chunk@.take(i as int);
            let ghost had = texts(out@);
            proof {
                law_documents_survive_cuts(part, seq![b]);
                assert(part + seq![b] =~= before + chunk@.take(i + 1));
                assert(was + seq![b] =~= was.push(b));
                law_first_is_settled(was.push(b), seq![]);
            }
            match self.push(b) {
                Event::Pending => {
                    proof {
                        assert(documents(was.push(b)) =~= seq![]);
                        assert(held + (documents(part) + seq![]) =~= held + documents(part));
                        assert(documents(part) + seq![] =~= documents(part));
                    }
                },
                Event::Document(text) => {
                    out.push(text);
                    proof {
                        let all = was.push(b);
                        assert(all.skip(all.len() as int) =~= seq![]);
                        self.lemma_pending();
                        assert(documents(seq![]) =~= seq![]);
                        assert(rest(seq![]) =~= seq![]);
                        assert(documents(all) =~= seq![text@]);
                        assert(texts(out@) =~= had.push(text@));
                        assert(had.push(text@) =~= held + (documents(part) + seq![text@]));
                    }
                },
                Event::Malformed => {
                    proof {
                        let all = was.push(b);
                        assert(documents(all) =~= seq![]);
                        assert(documents(part) + seq![] =~= documents(part));
                        assert(rest(all) == all);
                    }
                    return Fed::Malformed(i + 1);
                },
            }
            i = i + 1;
        }
        assert(chunk@.take(i as int) =~= chunk@);
        Fed::All
    }
}

/// What looking for the next document in a chunk came to.
pub enum Found {
    /// Nothing: the chunk was read to its end.
    Nothing,
    /// A document, and where in the chunk reading goes on.
    Document(String, usize),
    /// A document that cannot be read, and where in the chunk reading goes on.
    Malformed(usize),
    /// A byte of the chunk that may not come next.
    Refused(usize),
}

impl Documents {
    /// Reads on in a chunk of the stream, from `from`, until a document ends.
    pub fn next(&mut self, chunk: &[u8], from: usize) -> (r: Found)
        requires
            old(self).wf(),
            from <= chunk@.len(),
        ensures
            final(self).wf(),
            ({
                let held = old(self)@;
                let o = first(held + chunk@.skip(from as int));
                match r {
                    Found::Nothing => {
                        &&& o is More
                        &&& final(self)@ == held + chunk@.skip(from as int)
                    },
                    Found::Document(text, to) => {
                        &&& from < to <= chunk@.len()
                        &&& o == Outcome::Done(text@, held.len() + to - from)
                        &&& final(self)@ == Seq::<u8>::empty()
                    },
                    Found::Malformed(to) => {
                        &&& from < to <= chunk@.len()
                        &&& o == Outcome::Bad(held.len() + to - from)
                        &&& final(self)@ == Seq::<u8>::empty()
                    },
                    Found::Refused(at) => {
                        &&& from <= at < chunk@.len()
                        &&& o == Outcome::Stuck(held.len() + at + 1 - from)
                        &&& final(self)@ == held + chunk@.subrange(from as int, at as int)
                    },
                }
            }),
    {
        let ghost held = self@;
        let ghost all = chunk@.skip(from as int);
        let mut i: usize = from;
        proof {
            self.lemma_pending();
            assert(held + chunk@.subrange(from as int, from as int) =~= held);
        }
        while i < chunk.len()
            invariant
                from <= i <= chunk@.len(),
                self.wf(),
                held == old(self)@,
                all == chunk@.skip(from as int),
                self@ == held + chunk@.subrange(from as int, i as int),
                first(self@) is More,
            decreases chunk@.len() - i,
        {
            let b: u8 = chunk[i];
            let ghost was = self@;
            let ghost later = chunk@.skip(i + 1);
            proof {
                assert(held + chunk@.subrange(from as int, i + 1) =~= was.push(b));
                assert(was.push(b) + later =~= held + all);
                law_first_is_settled(was.push(b), later);
            }
            if !self.admits(b) {
                return Found::Refused(i);
            }
            match self.push(b) {
                Event::Pending => {},
                Event::Document(text) => {
                    return Found::Document(text, i + 1);
                },
                Event::Malformed => {
                    return Found::Malformed(i + 1);
                },
            }
            i = i + 1;
        }
        assert(chunk@.subrange(from as int, i as int) =~= all);
        Found::Nothing
    }
}

/// What a call for the next document gives, out of the bytes that are left.
pub open spec fn answer(s: Seq<u8>) -> Option<Seq<char>> {
    match first(s) {
        Outcome::Done(text, _) => Some(text),
        _ => None,
    }
}

/// The bytes that a call for the next document leaves.
pub open spec fn left(s: Seq<u8>) -> Seq<u8> {
    match first(s) {
        Outcome::More => seq![],
        Outcome::Done(_, end) => s.skip(end),
        Outcome::Bad(end) => s.skip(end),
        Outcome::Stuck(end) => s.skip(end),
    }
}

/// What a call for the next document gives where the bytes come in reads, `held`
/// being read already, and the reads that are left after it.
pub open spec fn pull(held: Seq<u8>, reads: Seq<Seq<u8>>) -> (Option<Seq<char>>, Seq<Seq<u8>>)
    decreases reads.len(),
{
    if reads.len() == 0 {
        (None, seq![])
    } else {
        let s = held + reads[0];
        let later = reads.drop_first();
        match first(s) {
            Outcome::More => pull(s, later),
            Outcome::Done(text, end) => (Some(text), seq![s.skip(end)] + later),
            Outcome::Bad(end) => (None, seq![s.skip(end)] + later),
            Outcome::Stuck(end) => (None, seq![s.skip(end)] + later),
        }
    }
}

/// What the call number `k` for a document gives where the bytes come in reads.
pub open spec fn pulled(reads: Seq<Seq<u8>>, k: nat) -> Option<Seq<char>>
    decreases k,
{
    if k == 0 {
        pull(seq![], reads).0
    } else {
        pulled(pull(seq![], reads).1, (k - 1) as nat)
    }
}

proof fn lemma_pull(held: Seq<u8>, reads: Seq<Seq<u8>>)
    requires
        first(held) is More,
    ensures
        pull(held, reads).0 == answer(held + put_together(reads)),
        put_together(pull(held, reads).1) == left(held + put_together(reads)),
    decreases reads.len(),
{
    let all = held + put_together(reads);
    if reads.len() == 0 {
        assert(all =~= held);
    } else {
        let s = held + reads[0];
        let later = reads.drop_first();
        assert(all =~= s + put_together(later));
        law_first_is_settled(s, put_together(later));
        if first(s) is More {
            lemma_pull(s, later);
        } else {
            let end = match first(s) {
                Outcome::Done(_, end) => end,
                Outcome::Bad(end) => end,
                Outcome::Stuck(end) => end,
                Outcome::More => 0,
            };
            let after = seq![s.skip(end)] + later;
            assert(after.drop_first() =~= later);
            assert(put_together(after) =~= s.skip(end) + put_together(later));
            assert(all.skip(end) =~= s.skip(end) + put_together(later));
        }
    }
}

/// Every call for a document gives the same wherever the reads end, inside the
/// key, an escape or a character too: the documents depend on the bytes alone.
pub proof fn law_reads_do_not_matter(a: Seq<Seq<u8>>, b: Seq<Seq<u8>>, k: nat)
    requires
        put_together(a) == put_together(b),
    ensures
        pulled(a, k) == pulled(b, k),
    decreases k,
{
    let none = Seq::<u8>::empty();
    assert(first(none) is More);
    assert(none + put_together(a) =~= put_together(a));
    assert(none + put_together(b) =~= put_together(b));
    lemma_pull(none, a);
    lemma_pull(none, b);
    if k > 0 {
        law_reads_do_not_matter(pull(none, a).1, pull(none, b).1, (k - 1) as nat);
    }
}

/// Whatever is being read, it is not complete where the bytes end.
proof fn lemma_end(s: Seq<u8>, i: int)
    requires
        i >= s.len(),
    ensures
        forall|m: int| seek(s, i, m) is More,
        value(s, i) is More,
        forall|t: Seq<char>| body(s, i, t) is More,
        forall|t: Seq<char>| escape(s, i, t) is More,
        forall|t: Seq<char>| unicode(s, i, t) is More,
        forall|h: nat, t: Seq<char>| pair(s, i, h, t) is More,
        forall|h: nat, t: Seq<char>| low(s, i, h, t) is More,
{
}

/// The number that four digits spell.
fn hex4(held: &Vec<u8>) -> (r: Option<u32>)
    requires
        held@.len() == 4,
    ensures
        r is Some <==> hex_number(latin(held@)) is Some,
        r is Some ==> r->0 == hex_number(latin(held@))->0,
        r is Some ==> r->0 <= 0xffff,
{
    let mut digits: Vec<char> = Vec::new();
    let mut i: usize = 0;
    while i < 4
        invariant
            i <= 4,
            held@.len() == 4,
            digits@.len() == i,
            forall|j: int| 0 <= j < i ==> digits@[j] == held@[j] as char,
        decreases 4 - i,
    {
        digits.push(held[i] as char);
        i = i + 1;
    }
    assert(digits@ =~= latin(held@));
    proof {
        lemma_hex_number_bound(digits@);
    }
    parse_hex(&digits)
}

/// One byte of the key.
fn key_byte(i: usize) -> (b: u8)
    requires
        i < key().len(),
    ensures
        b == key()[i as int],
{
    match i {
        0 => 34,
        1 => 105,
        2 => 110,
        3 => 112,
        4 => 117,
        5 => 116,
        6 => 95,
        7 => 116,
        8 => 101,
        9 => 120,
        10 => 116,
        _ => 34,
    }
}

/// What documents are stored under, what may stand before a value, and what the
/// escapes of one letter stand for.
pub proof fn law_records_are_written_in_json(b: u8)
    ensures
        latin(key()) == "\"input_text\""@,
        is_gap(b) <==> b as char == ':' || b as char == ' ' || b as char == '\n' || b as char
            == '\r' || b as char == '\t',
        b as char == 'n' ==> escaped(b) == '\n',
        b as char == 't' ==> escaped(b) == '\t',
        b as char == 'r' ==> escaped(b) == '\r',
        b as char == 'b' ==> escaped(b) == '\u{8}',
        b as char == 'f' ==> escaped(b) == '\u{c}',
        b as char == '"' || b as char == '\\' || b as char == '/' ==> escaped(b) == b as char,
{
    reveal_strlit("\"input_text\"");
    assert(latin(key()) =~= "\"input_text\""@);
}

/// The halves of a surrogate pair join to a character past the sixteen-bit ones:
/// the first of either give the first of those, the next second half the next
/// character, and the next first half the one a thousand and twenty-four on.
pub proof fn law_surrogates_join_in_order(high: nat, low: nat)
    requires
        0xD800 <= high < 0xDC00,
        0xDC00 <= low < 0xE000,
    ensures
        joined(0xD800, 0xDC00) == 0x1_0000,
        joined(high, low + 1) == joined(high, low) + 1,
        joined(high + 1, low) == joined(high, low) + 1024,
        0x1_0000 <= joined(high, low) < 0x11_0000,
{
}

/// A first half of a pair with no second half is dropped, together with the
/// character or the mark that stands where the second half should: nothing is put
/// in its place.
pub proof fn law_lone_halves_are_dropped(s: Seq<u8>, i: int, high: nat, text: Seq<char>)
    requires
        0 <= i,
        i + 2 <= s.len(),
    ensures
        s[i] as char != '\\' ==> pair(s, i, high, text) == body(s, i + 1, text),
        s[i] as char == '\\' && s[i + 1] as char != 'u' ==> pair(s, i, high, text) == body(
            s,
            i + 2,
            text,
        ),
{
}

/// A byte that begins no character is taken for the first of four.
pub proof fn law_lengths_are_read_off_the_first_byte(b: u8)
    ensures
        b < 128 ==> tail_len(b) == 0,
        b >= 192 && b < 224 ==> tail_len(b) + 1 == 2,
        b >= 224 && b < 240 ==> tail_len(b) + 1 == 3,
        b >= 240 || (b >= 128 && b < 192) ==> tail_len(b) + 1 == 4,
{
}

} // verus!
