//! Text primitives: what the standard library does with strings and code
//! points, and hexadecimal numbers.

use vstd::arithmetic::power::pow;
use vstd::prelude::*;
use vstd::utf8::{decode_utf8, is_scalar, valid_utf8};

verus! {

/// `String::push` appends one character.
pub assume_specification[ String::push ](s: &mut String, c: char)
    ensures
        final(s)@ == old(s)@.push(c),
;

/// `char::from_u32` gives back the character of a code point, exactly where
/// the code point is a Unicode scalar value.
pub assume_specification[ char::from_u32 ](i: u32) -> (c: Option<char>)
    ensures
        c is Some <==> is_scalar(i),
        c is Some ==> c->0 == i as char,
;

/// What `String::from_utf8_lossy` makes of bytes that are not well-formed UTF-8.
pub uninterp spec fn lossy_text(bytes: Seq<u8>) -> Seq<char>;

/// `String::from_utf8_lossy`, as an owned string. Well-formed UTF-8 is decoded
/// as it stands. What the replacement characters of an ill-formed sequence
/// are, and where they go, is named by `lossy_text` and not spelled out.
#[verifier::external_body]
pub(crate) fn lossy(bytes: &[u8]) -> (text: String)
    ensures
        valid_utf8(bytes@) ==> text@ == decode_utf8(bytes@),
        !valid_utf8(bytes@) ==> text@ == lossy_text(bytes@),
{
    String::from_utf8_lossy(bytes).into_owned()
}

/// The text that some bytes are read as.
pub open spec fn decoded(bytes: Seq<u8>) -> Seq<char> {
    if valid_utf8(bytes) {
        decode_utf8(bytes)
    } else {
        lossy_text(bytes)
    }
}

/// The value of a hexadecimal digit, in either case.
pub open spec fn hex_digit(c: char) -> Option<nat> {
    if '0' <= c <= '9' {
        Some((c as nat - '0' as nat) as nat)
    } else if 'a' <= c <= 'f' {
        Some((c as nat - 'a' as nat + 10) as nat)
    } else if 'A' <= c <= 'F' {
        Some((c as nat - 'A' as nat + 10) as nat)
    } else {
        None
    }
}

/// The number a run of hexadecimal digits spells; an empty run spells zero.
pub open spec fn hex_run(s: Seq<char>) -> Option<nat>
    decreases s.len(),
{
    if s.len() == 0 {
        Some(0)
    } else {
        match (hex_run(s.drop_last()), hex_digit(s.last())) {
            (Some(v), Some(d)) => Some(16 * v + d),
            _ => None,
        }
    }
}

/// A hexadecimal number as text: digits, at least one, with a plus sign in
/// front of them or not.
pub open spec fn hex_number(s: Seq<char>) -> Option<nat> {
    let digits = if s.len() > 0 && s[0] == '+' {
        s.drop_first()
    } else {
        s
    };
    if digits.len() == 0 {
        None
    } else {
        hex_run(digits)
    }
}

/// The value of a hexadecimal digit, in either case.
pub fn hex_digit_value(c: char) -> (r: Option<u32>)
    ensures
        r is Some <==> hex_digit(c) is Some,
        r is Some ==> r->0 == hex_digit(c)->0 && r->0 < 16,
{
    if '0' <= c && c <= '9' {
        Some(c as u32 - '0' as u32)
    } else if 'a' <= c && c <= 'f' {
        Some(c as u32 - 'a' as u32 + 10)
    } else if 'A' <= c && c <= 'F' {
        Some(c as u32 - 'A' as u32 + 10)
    } else {
        None
    }
}

/// A run with a bad digit in front stays bad.
proof fn lemma_hex_run_bad(s: Seq<char>, k: int)
    requires
        0 <= k <= s.len(),
        hex_run(s.take(k)) is None,
    ensures
        hex_run(s) is None,
    decreases s.len() - k,
{
    if k < s.len() {
        assert(s.take(k + 1).drop_last() =~= s.take(k));
        lemma_hex_run_bad(s, k + 1);
    } else {
        assert(s.take(k) =~= s);
    }
}

proof fn lemma_hex_run_bound(s: Seq<char>)
    ensures
        hex_run(s) is Some ==> hex_run(s)->0 < pow(16, s.len()),
    decreases s.len(),
{
    reveal(pow);
    if s.len() > 0 {
        lemma_hex_run_bound(s.drop_last());
    }
}

/// Four characters spell no more than sixteen bits.
pub proof fn lemma_hex_number_bound(s: Seq<char>)
    requires
        s.len() == 4,
    ensures
        hex_number(s) is Some ==> hex_number(s)->0 <= 0xffff,
{
    lemma_hex_run_bound(s);
    lemma_hex_run_bound(s.drop_first());
    assert(pow(16, 3) == 0x1000 && pow(16, 4) == 0x1_0000) by {
        reveal_with_fuel(pow, 5);
    }
}

/// Two characters spell no more than eight bits.
pub proof fn lemma_hex_pair_bound(s: Seq<char>)
    requires
        s.len() == 2,
    ensures
        hex_number(s) is Some ==> hex_number(s)->0 <= 0xff,
{
    lemma_hex_run_bound(s);
    lemma_hex_run_bound(s.drop_first());
    assert(pow(16, 1) == 0x10 && pow(16, 2) == 0x100) by {
        reveal_with_fuel(pow, 3);
    }
}

/// Reads a hexadecimal number of at most seven characters.
pub fn parse_hex(s: &[char]) -> (r: Option<u32>)
    requires
        s@.len() <= 7,
    ensures
        r is Some <==> hex_number(s@) is Some,
        r is Some ==> r->0 == hex_number(s@)->0,
{
    let mut from: usize = 0;
    if s.len() > 0 && s[0] == '+' {
        from = 1;
    }
    if from == s.len() {
        return None;
    }
    let ghost digits = s@.skip(from as int);
    assert(from == 1 ==> digits =~= s@.drop_first());
    assert(from == 0 ==> digits =~= s@);
    let mut v: u32 = 0;
    let mut i: usize = from;
    while i < s.len()
        invariant
            from <= i <= s@.len() <= 7,
            digits == s@.skip(from as int),
            hex_run(digits.take(i - from)) == Some(v as nat),
            i - from == 0 ==> v < 0x1,
            i - from == 1 ==> v < 0x10,
            i - from == 2 ==> v < 0x100,
            i - from == 3 ==> v < 0x1000,
            i - from == 4 ==> v < 0x1_0000,
            i - from == 5 ==> v < 0x10_0000,
            i - from == 6 ==> v < 0x100_0000,
            hex_number(s@) == hex_run(digits),
        decreases s@.len() - i,
    {
        proof {
            assert(digits.take(i - from + 1).drop_last() =~= digits.take(i - from));
            assert(digits.take(i - from + 1).last() == s@[i as int]);
        }
        match hex_digit_value(s[i]) {
            Some(d) => {
                v = 16 * v + d;
            },
            None => {
                proof {
                    lemma_hex_run_bad(digits, i - from + 1);
                }
                return None;
            },
        }
        i = i + 1;
    }
    assert(digits.take(i - from) =~= digits);
    Some(v)
}

/// The sixteen digits have their values in order, in either case, and nothing else
/// is a digit.
pub proof fn law_there_are_sixteen_digits(d: int, c: char)
    requires
        0 <= d < 16,
    ensures
        "0123456789abcdef"@.len() == 16,
        "0123456789ABCDEF"@.len() == 16,
        hex_digit("0123456789abcdef"@[d]) == Some(d as nat),
        hex_digit("0123456789ABCDEF"@[d]) == Some(d as nat),
        hex_digit(c) is Some <==> "0123456789abcdefABCDEF"@.contains(c),
{
    reveal_strlit("0123456789abcdef");
    reveal_strlit("0123456789ABCDEF");
    reveal_strlit("0123456789abcdefABCDEF");
    let all = "0123456789abcdefABCDEF"@;
    if '0' <= c <= '9' {
        assert(all[c as int - '0' as int] == c);
    } else if 'a' <= c <= 'f' {
        assert(all[c as int - 'a' as int + 10] == c);
    } else if 'A' <= c <= 'F' {
        assert(all[c as int - 'A' as int + 16] == c);
    }
}

/// Digits in front of others are worth sixteen times as much for each of those.
pub proof fn law_digits_in_front_are_worth_more(a: Seq<char>, b: Seq<char>)
    ensures
        hex_run(a + b) is Some <==> hex_run(a) is Some && hex_run(b) is Some,
        hex_run(a + b) is Some ==> hex_run(a + b)->0 as int == hex_run(a)->0 * pow(16, b.len())
            + hex_run(b)->0,
    decreases b.len(),
{
    reveal(pow);
    if b.len() == 0 {
        assert(a + b =~= a);
    } else {
        let short = b.drop_last();
        law_digits_in_front_are_worth_more(a, short);
        assert((a + b).drop_last() =~= a + short);
        assert((a + b).last() == b.last());
        if hex_run(a + b) is Some {
            let (x, y, p) = (hex_run(a)->0 as int, hex_run(short)->0 as int, pow(16, short.len()));
            assert(16 * (x * p + y) == x * (16 * p) + 16 * y) by (nonlinear_arith);
        }
    }
}

/// A digit by itself is worth its value, and a plus sign in front changes nothing.
pub proof fn law_digits_spell_numbers(c: char, digits: Seq<char>)
    ensures
        hex_run(seq![c]) == hex_digit(c),
        digits.len() > 0 && digits[0] != '+' ==> hex_number(digits) == hex_run(digits)
            && hex_number(seq!['+'] + digits) == hex_run(digits),
        hex_number(seq![]) is None,
        hex_number(seq!['+']) is None,
{
    reveal_with_fuel(hex_run, 2);
    assert(seq![c].drop_last() =~= seq![]);
    assert((seq!['+'] + digits).drop_first() =~= digits);
    assert(seq!['+'].drop_first() =~= seq![]);
}

} // verus!
