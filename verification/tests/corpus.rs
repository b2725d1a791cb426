use annp::corpus::documents::{Documents, Event, Fed, Found};
use annp::corpus::stream::{absorb, stream};
use annp::corpus::text::{hex_digit_value, parse_hex};
use annp::corpus::tokenizer::{place_of_score, Tokenizer};
use annp::corpus::vocabulary::{read_piece, read_pieces};
use annp::corpus::wire::{PieceKind, Wire};

#[test]
fn the_documents_reader_survives_chunk_boundaries() {
    let json = r#"[{"input_text": "first\nline"},{"input_text": "café 😀 end"}]"#;
    for chunk in [1usize, 2, 3, 7, 64] {
        let mut reader = Documents::new();
        let mut docs: Vec<String> = Vec::new();
        for part in json.as_bytes().chunks(chunk) {
            assert!(matches!(reader.feed(part, &mut docs), Fed::All));
        }
        assert_eq!(
            docs,
            vec!["first\nline", "café 😀 end"],
            "chunk size {chunk}"
        );
    }
}

#[test]
fn every_call_gives_the_same_wherever_reads_end() {
    let json = "{\"input_text\": \"caf\u{e9}\"},{\"input_text\": \"\\u00zz\"},{\"input_text\": \"\\ud83d\\ude00\"}";
    for size in [1usize, 2, 3, 5, 8, 200] {
        let mut reader = Documents::new();
        let mut calls: Vec<Option<String>> = Vec::new();
        for part in json.as_bytes().chunks(size) {
            let mut at = 0;
            loop {
                match reader.next(part, at) {
                    Found::Nothing => break,
                    Found::Document(text, to) => {
                        calls.push(Some(text));
                        at = to;
                    }
                    Found::Malformed(to) => {
                        calls.push(None);
                        at = to;
                    }
                    Found::Refused(_) => panic!("nothing to refuse"),
                }
            }
        }
        let expected = vec![Some("café".to_string()), None, Some("😀".to_string())];
        assert_eq!(calls, expected, "reads of {size}");
    }
    let mut reader = Documents::new();
    let bad = b"x\"input_text\":\"\\ud83d\\u0041";
    assert!(matches!(reader.next(bad, 1), Found::Refused(at) if at + 1 == bad.len()));
}

fn read_all(json: &str) -> Vec<String> {
    let mut reader = Documents::new();
    let mut docs: Vec<String> = Vec::new();
    reader.feed(json.as_bytes(), &mut docs);
    docs
}

#[test]
fn escapes_stand_for_their_characters() {
    let json = "{\"input_text\": \"a\\n\\t\\r\\b\\f\\\"\\\\\\/\\u0041\\u00e9 end\"}";
    assert_eq!(read_all(json), vec!["a\n\t\r\u{8}\u{c}\"\\/Aé end"]);
}

#[test]
fn surrogate_pairs_join() {
    assert_eq!(read_all("{\"input_text\": \"\\ud83d\\ude00\"}"), vec!["😀"]);
}

#[test]
fn other_fields_are_passed_over() {
    let json = "{\"id\": 7, \"input_text\": \"x\", \"note\": \"input\", \"input_text\": \"y\"}";
    assert_eq!(read_all(json), vec!["x", "y"]);
}

#[test]
fn an_unfinished_document_is_not_given() {
    assert_eq!(read_all("{\"input_text\": \"cut"), Vec::<String>::new());
}

#[test]
fn a_bad_escape_is_malformed() {
    for json in [
        &b"{\"input_text\": \"\\u00zz\"}"[..],
        &b"{\"input_text\": \"\\ude00\"}"[..],
        &b"{\"input_text\": \"\\ud83d\\uzzzz\"}"[..],
    ] {
        let mut reader = Documents::new();
        let mut docs: Vec<String> = Vec::new();
        match reader.feed(json, &mut docs) {
            Fed::Malformed(n) => assert!(n < json.len()),
            other => panic!("expected a malformed document, got {other:?}"),
        }
        assert!(docs.is_empty());
    }
}

#[test]
fn an_unknown_escape_is_the_character_itself() {
    assert_eq!(read_all("{\"input_text\": \"\\q\"}"), vec!["q"]);
}

#[test]
fn a_broken_pair_is_refused_byte_by_byte() {
    let mut reader = Documents::new();
    let mut docs: Vec<String> = Vec::new();
    let json = b"{\"input_text\": \"\\ud83d\\u0041\"}";
    match reader.feed(json, &mut docs) {
        Fed::Refused(n) => {
            assert!(n < json.len());
            assert!(!reader.admits(json[n]));
        }
        other => panic!("expected a refusal, got {other:?}"),
    }
}

#[test]
fn bytes_can_be_pushed_one_by_one() {
    let mut reader = Documents::new();
    let mut found = 0;
    for b in b"{\"input_text\": \"ok\"}" {
        assert!(reader.admits(*b));
        if let Event::Document(text) = reader.push(*b) {
            assert_eq!(text, "ok");
            found += 1;
        }
    }
    assert_eq!(found, 1);
}

#[test]
fn hexadecimal_digits_have_their_values() {
    assert_eq!(hex_digit_value('0'), Some(0));
    assert_eq!(hex_digit_value('f'), Some(15));
    assert_eq!(hex_digit_value('F'), Some(15));
    assert_eq!(hex_digit_value('g'), None);
    assert_eq!(parse_hex(&['0', '0', 'e', '9']), Some(0xe9));
    assert_eq!(parse_hex(&['+', '0', '4', '1']), Some(0x41));
    assert_eq!(parse_hex(&['x']), None);
}

fn varint(mut v: u64, out: &mut Vec<u8>) {
    while v >= 0x80 {
        out.push((v as u8 & 0x7f) | 0x80);
        v >>= 7;
    }
    out.push(v as u8);
}

fn piece(text: &str, score: f32, kind: u64) -> Vec<u8> {
    let mut sub: Vec<u8> = vec![0x0a];
    varint(text.len() as u64, &mut sub);
    sub.extend_from_slice(text.as_bytes());
    sub.push(0x15);
    sub.extend_from_slice(&score.to_le_bytes());
    sub.push(0x18);
    varint(kind, &mut sub);
    sub
}

fn model(pieces: &[(&str, f32, u64)]) -> Vec<u8> {
    let mut raw: Vec<u8> = Vec::new();
    for (text, score, kind) in pieces {
        let sub = piece(text, *score, *kind);
        raw.push(0x0a);
        varint(sub.len() as u64, &mut raw);
        raw.extend_from_slice(&sub);
    }
    raw
}

fn small_model() -> Tokenizer {
    let raw = model(&[
        ("<unk>", 0.0, 2),
        ("a", -10.0, 1),
        ("b", -11.0, 1),
        ("c", -12.0, 1),
        ("ab", -1.0, 1),
        ("bc", -2.0, 1),
        ("abc", -3.0, 1),
        ("\u{2581}", -13.0, 1),
        ("\u{2581}a", -4.0, 1),
        ("<0xC3>", 0.0, 6),
        ("<0xA9>", 0.0, 6),
    ]);
    Tokenizer::load(&raw).expect("a model with pieces")
}

fn ids(tk: &Tokenizer, text: &str) -> Vec<u32> {
    let mut out: Vec<u32> = Vec::new();
    tk.encode(text, &mut out);
    out
}

#[test]
fn the_highest_score_merges_first() {
    let tk = small_model();
    assert_eq!(tk.size(), 11);
    // `ab` beats `bc`, and then joins `c`.
    assert_eq!(ids(&tk, "abc"), vec![6]);
    assert_eq!(ids(&tk, "bc"), vec![5]);
    assert_eq!(ids(&tk, "cab"), vec![3, 4]);
    assert_eq!(ids(&tk, ""), Vec::<u32>::new());
}

#[test]
fn spaces_are_escaped() {
    let tk = small_model();
    // `ab` merges before the space and the letter do.
    assert_eq!(ids(&tk, " ab"), vec![7, 4]);
    assert_eq!(ids(&tk, " a"), vec![8]);
}

#[test]
fn tokens_give_the_text_back() {
    let tk = small_model();
    for text in ["abc cab", " a b", "aébc", ""] {
        let mut bytes: Vec<u8> = Vec::new();
        for id in ids(&tk, text) {
            match tk.piece(id) {
                "<0xC3>" => bytes.push(0xc3),
                "<0xA9>" => bytes.push(0xa9),
                piece => bytes.extend_from_slice(piece.as_bytes()),
            }
        }
        let back = String::from_utf8(bytes).unwrap().replace('\u{2581}', " ");
        assert_eq!(back, text);
    }
}

#[test]
fn unknown_characters_fall_back_to_bytes() {
    let tk = small_model();
    assert_eq!(ids(&tk, "é"), vec![9, 10]);
    // Bytes without a piece become the unknown one.
    assert_eq!(ids(&tk, "\u{7f}"), vec![0]);
    assert_eq!(tk.byte_token(0xc3), 9);
    assert_eq!(tk.byte_token(0x00), 0);
}

#[test]
fn encoding_appends() {
    let tk = small_model();
    let mut out: Vec<u32> = vec![77];
    tk.encode("bc", &mut out);
    assert_eq!(out, vec![77, 5]);
}

#[test]
fn pieces_can_be_looked_up() {
    let tk = small_model();
    assert_eq!(tk.lookup("ab"), Some(4));
    assert_eq!(tk.lookup("zz"), None);
    assert_eq!(tk.piece(6), "abc");
    assert!(tk.merge_place(4) > tk.merge_place(5));
    assert_eq!(tk.merge_place(9), None);
}

#[test]
fn a_file_without_pieces_is_no_model() {
    assert!(Tokenizer::load(&[]).is_none());
    // A field that is no piece is skipped.
    assert!(Tokenizer::load(&[0x10, 0x05]).is_none());
}

#[test]
fn ill_formed_text_is_replaced() {
    let mut sub: Vec<u8> = vec![0x0a, 0x02];
    sub.extend_from_slice(&[0x61, 0xff]);
    let p = read_piece(&sub);
    assert_eq!(p.text, "a\u{fffd}");
    assert!(p.kind == PieceKind::Normal);
}

#[test]
fn pieces_keep_their_fields() {
    let raw = model(&[("x", 1.5, 4)]);
    let v = read_pieces(&raw);
    assert_eq!(v.len(), 1);
    assert_eq!(v[0].text, "x");
    assert_eq!(v[0].score, 1.5f32.to_bits());
    assert!(v[0].kind == PieceKind::UserDefined);
}

#[test]
fn places_order_scores() {
    let scores = [f32::NEG_INFINITY, -2.0, -0.5, 0.0, 0.5, 3.0, f32::INFINITY];
    for pair in scores.windows(2) {
        assert!(place_of_score(pair[0].to_bits()) < place_of_score(pair[1].to_bits()));
    }
    assert_eq!(
        place_of_score((-0.0f32).to_bits()),
        place_of_score(0.0f32.to_bits())
    );
    assert_eq!(place_of_score(f32::NAN.to_bits()), 0);
}

#[test]
fn the_wire_is_read_field_by_field() {
    let data = [0xac, 0x02, 0x03, 1, 2, 3, 0x78, 0x56, 0x34, 0x12];
    let mut w = Wire::new(&data);
    assert_eq!(w.varint(), Some(300));
    assert_eq!(w.bytes(), Some(&[1u8, 2, 3][..]));
    assert_eq!(w.fixed32(), Some(0x12345678));
    assert!(w.done());
    assert_eq!(w.varint(), None);
}

#[test]
fn the_wire_skips_what_it_does_not_know() {
    let data = [0x05, 0x02, 9, 9, 0x01];
    let mut w = Wire::new(&data);
    assert!(w.skip(0).is_some());
    assert!(w.skip(2).is_some());
    assert_eq!(w.varint(), Some(1));
    let mut bad = Wire::new(&data);
    assert!(bad.skip(3).is_none());
}

#[test]
fn a_corpus_is_cut_at_its_limit() {
    let tk = small_model();
    let mut raw: Vec<u32> = Vec::new();
    assert!(!absorb(&tk, "bc", 3, &mut raw));
    assert!(absorb(&tk, "c b a", 3, &mut raw));
    assert_eq!(raw.len(), 3);
}

#[test]
fn frequent_pieces_keep_an_id_of_their_own() {
    let tk = small_model();
    let raw = [5u32, 1, 5, 2, 5, 1, 3];
    let s = stream(&tk, &raw, 2, 3);
    // `bc` is the commonest, `a` comes next, the rest share the last id.
    assert_eq!(s.tokens, vec![0, 1, 0, 2, 0, 1, 2]);
    assert_eq!(s.distinct_pieces, 4);
    assert_eq!(s.misses, 2);
    assert_eq!(s.documents, 2);
    assert_eq!(s.commonest[0], "bc");
    assert_eq!(s.commonest[1], "a");
    let all = stream(&tk, &raw, 2, 16);
    assert_eq!(all.misses, 0);
}

#[test]
fn kinds_are_numbered_from_one() {
    let kinds = [
        PieceKind::Normal,
        PieceKind::Normal,
        PieceKind::Unknown,
        PieceKind::Control,
        PieceKind::UserDefined,
        PieceKind::Unused,
        PieceKind::Byte,
        PieceKind::Normal,
    ];
    for (v, kind) in kinds.iter().enumerate() {
        assert!(PieceKind::from_proto(v as u64) == *kind);
    }
    assert!(PieceKind::from_proto(u64::MAX) == PieceKind::Normal);
}
