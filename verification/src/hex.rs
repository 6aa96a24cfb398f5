//! Hexadecimal text of SHA-256 digests.
use vstd::prelude::*;

use crate::headers;
use crate::text;
use crate::text::trimmed_chars;

verus! {

/// The lower-case hexadecimal digit of a value below sixteen.
pub open spec fn hex_char(d: int) -> char {
    if d < 10 {
        ('0' as u32 + d) as char
    } else {
        ('a' as u32 + (d - 10)) as char
    }
}

/// The value of a hexadecimal digit of either case.
pub open spec fn hex_value(c: char) -> Option<int> {
    if '0' <= c <= '9' {
        Some(c as int - '0' as int)
    } else if 'a' <= c <= 'f' {
        Some(c as int - 'a' as int + 10)
    } else if 'A' <= c <= 'F' {
        Some(c as int - 'A' as int + 10)
    } else {
        None
    }
}

/// The lower-case hexadecimal text of `bytes`, two digits each.
pub open spec fn hex_text(bytes: Seq<u8>) -> Seq<char> {
    Seq::new(
        2 * bytes.len(),
        |i: int|
            if i % 2 == 0 {
                hex_char(bytes[i / 2] as int / 16)
            } else {
                hex_char(bytes[i / 2] as int % 16)
            },
    )
}

/// The digest that `s` writes: sixty-four hexadecimal digits, with white space
/// around them.
pub open spec fn parsed_digest(s: Seq<char>) -> Option<Seq<u8>> {
    let t = text::trimmed(s);
    if t.len() == 64 && (forall|i: int| 0 <= i < 64 ==> #[trigger] hex_value(t[i]) is Some) {
        Some(
            Seq::new(
                32,
                |i: int| (hex_value(t[2 * i])->0 * 16 + hex_value(t[2 * i + 1])->0) as u8,
            ),
        )
    } else {
        None
    }
}

/// The one-character string of a hexadecimal digit.
fn hex_str(d: u8) -> (s: &'static str)
    requires
        d < 16,
    ensures
        s@ == seq![hex_char(d as int)],
{
    proof {
        reveal_strlit("0");
        reveal_strlit("1");
        reveal_strlit("2");
        reveal_strlit("3");
        reveal_strlit("4");
        reveal_strlit("5");
        reveal_strlit("6");
        reveal_strlit("7");
        reveal_strlit("8");
        reveal_strlit("9");
        reveal_strlit("a");
        reveal_strlit("b");
        reveal_strlit("c");
        reveal_strlit("d");
        reveal_strlit("e");
        reveal_strlit("f");
    }
    match d {
        0 => "0",
        1 => "1",
        2 => "2",
        3 => "3",
        4 => "4",
        5 => "5",
        6 => "6",
        7 => "7",
        8 => "8",
        9 => "9",
        10 => "a",
        11 => "b",
        12 => "c",
        13 => "d",
        14 => "e",
        _ => "f",
    }
}

/// Writes `bytes` in lower-case hexadecimal.
pub fn hex_encode(bytes: &[u8]) -> (s: String)
    ensures
        s@ == hex_text(bytes@),
{
    let mut out = String::new();
    let n: usize = bytes.len();
    let mut i: usize = 0;
    while i < n
        invariant
            0 <= i <= n,
            n == bytes@.len(),
            out@ == hex_text(bytes@.take(i as int)),
        decreases n - i,
    {
        let b: u8 = bytes[i];
        out.append(hex_str(b / 16));
        out.append(hex_str(b % 16));
        i = i + 1;
        assert(out@ =~= hex_text(bytes@.take(i as int)));
    }
    assert(bytes@.take(n as int) =~= bytes@);
    out
}

/// The value of a hexadecimal digit.
fn hex_digit(c: char) -> (r: Option<u8>)
    ensures
        match r {
            Some(v) => hex_value(c) == Some(v as int) && v < 16,
            None => hex_value(c) is None,
        },
{
    let u: u32 = c as u32;
    if 48 <= u && u <= 57 {
        Some((u - 48) as u8)
    } else if 97 <= u && u <= 102 {
        Some((u - 87) as u8)
    } else if 65 <= u && u <= 70 {
        Some((u - 55) as u8)
    } else {
        None
    }
}

/// Reads a digest written as sixty-four hexadecimal digits.
pub fn parse_hex_sha256(hex: &str) -> (r: Option<[u8; 32]>)
    ensures
        match r {
            Some(d) => parsed_digest(hex@) == Some(d@),
            None => parsed_digest(hex@) is None,
        },
{
    let t: Vec<char> = trimmed_chars(hex);
    if t.len() != 64 {
        return None;
    }
    let mut out: [u8; 32] = [0u8;32];
    let mut i: usize = 0;
    while i < 32
        invariant
            0 <= i <= 32,
            t@ == text::trimmed(hex@),
            t@.len() == 64,
            forall|k: int| 0 <= k < 2 * i ==> #[trigger] hex_value(t@[k]) is Some,
            forall|k: int|
                0 <= k < i ==> #[trigger] out@[k] == (hex_value(t@[2 * k])->0 * 16 + hex_value(
                    t@[2 * k + 1],
                )->0) as u8,
        decreases 32 - i,
    {
        let hi: u8 = match hex_digit(t[2 * i]) {
            Some(v) => v,
            None => {
                return None;
            },
        };
        let lo: u8 = match hex_digit(t[2 * i + 1]) {
            Some(v) => v,
            None => {
                return None;
            },
        };
        out[i] = hi * 16 + lo;
        i = i + 1;
    }
    assert(out@ =~= parsed_digest(hex@)->0);
    Some(out)
}

/// A digest can be read back from its own hexadecimal text.
pub proof fn law_hex_round_trip(d: Seq<u8>)
    requires
        d.len() == 32,
    ensures
        parsed_digest(hex_text(d)) == Some(d),
{
    let t = hex_text(d);
    assert forall|i: int| 0 <= i < 64 implies ({
        &&& #[trigger] hex_value(t[i]) is Some
        &&& hex_value(t[i])->0 == (if i % 2 == 0 {
            d[i / 2] as int / 16
        } else {
            d[i / 2] as int % 16
        })
        &&& !text::is_white_space(t[i])
    }) by {
        let b = d[i / 2] as int;
        assert(0 <= b / 16 < 16 && 0 <= b % 16 < 16);
    }
    assert(hex_value(t[0]) is Some && hex_value(t[63]) is Some);
    assert(text::trim_start(t) == t);
    assert(text::trim_end(t) == t);
    assert(text::trimmed(t) == t);
    assert forall|i: int| 0 <= i < 32 implies #[trigger] parsed_digest(t)->0[i] == d[i] by {
        assert(hex_value(t[2 * i]) is Some);
        assert(hex_value(t[2 * i + 1]) is Some);
        assert((2 * i + 1) / 2 == i && (2 * i) / 2 == i);
        let b = d[i] as int;
        assert(b == (b / 16) * 16 + b % 16);
    }
    assert(parsed_digest(t)->0 =~= d);
}

/// White space around a digest makes no difference.
pub proof fn law_digest_ignores_space_around(s: Seq<char>)
    ensures
        parsed_digest(text::trimmed(s)) == parsed_digest(s),
{
    text::lemma_trimmed_twice(s);
}

/// The text of a digest writes each byte as two digits, the higher half first.
pub proof fn law_two_digits_per_byte(bytes: Seq<u8>, i: int)
    requires
        0 <= i < bytes.len(),
    ensures
        hex_text(bytes).len() == 2 * bytes.len(),
        hex_text(bytes)[2 * i] == "0123456789abcdef"@[bytes[i] as int / 16],
        hex_text(bytes)[2 * i + 1] == "0123456789abcdef"@[bytes[i] as int % 16],
{
    reveal_strlit("0123456789abcdef");
    let b = bytes[i] as int;
    assert(0 <= b / 16 < 16 && 0 <= b % 16 < 16);
    lemma_hex_char(b / 16);
    lemma_hex_char(b % 16);
    assert((2 * i + 1) / 2 == i && (2 * i) / 2 == i);
}

/// The digits in order.
proof fn lemma_hex_char(d: int)
    requires
        0 <= d < 16,
    ensures
        hex_char(d) == "0123456789abcdef"@[d],
        hex_value(hex_char(d)) == Some(d),
{
    reveal_strlit("0123456789abcdef");
}

/// A text writes a digest exactly if, without the white space around it and in lower case, it
/// is the text of that digest.
pub proof fn law_texts_of_a_digest(s: Seq<char>, d: Seq<u8>)
    requires
        d.len() == 32,
    ensures
        parsed_digest(s) == Some(d) <==> headers::lowered(text::trimmed(s)) == hex_text(d),
        parsed_digest(s) is Some ==> parsed_digest(s)->0.len() == 32,
{
    let t = text::trimmed(s);
    let low = headers::lowered(t);
    if low == hex_text(d) {
        assert(low.len() == t.len() && hex_text(d).len() == 64);
        assert forall|i: int| 0 <= i < 64 implies ({
            &&& #[trigger] hex_value(t[i]) is Some
            &&& hex_value(t[i])->0 == (if i % 2 == 0 {
                d[i / 2] as int / 16
            } else {
                d[i / 2] as int % 16
            })
        }) by {
            let b = d[i / 2] as int;
            assert(0 <= b / 16 < 16 && 0 <= b % 16 < 16);
            lemma_hex_char(b / 16);
            lemma_hex_char(b % 16);
            assert(low[i] == headers::lower_char(t[i]));
            lemma_either_case(t[i]);
        }
        assert forall|i: int| 0 <= i < 32 implies #[trigger] parsed_digest(s)->0[i] == d[i] by {
            assert(hex_value(t[2 * i]) is Some);
            assert(hex_value(t[2 * i + 1]) is Some);
            assert((2 * i + 1) / 2 == i && (2 * i) / 2 == i);
            let b = d[i] as int;
            assert(b == (b / 16) * 16 + b % 16);
        }
        assert(parsed_digest(s)->0 =~= d);
    }
    if parsed_digest(s) == Some(d) {
        assert forall|i: int| 0 <= i < 64 implies low[i] == hex_text(d)[i] by {
            assert(hex_value(t[i]) is Some);
            let k = i / 2;
            assert(hex_value(t[2 * k]) is Some && hex_value(t[2 * k + 1]) is Some);
            lemma_either_case(t[2 * k]);
            lemma_either_case(t[2 * k + 1]);
            let hi = hex_value(t[2 * k])->0;
            let lo = hex_value(t[2 * k + 1])->0;
            assert(d[k] == (hi * 16 + lo) as u8);
            assert(d[k] as int == hi * 16 + lo);
            assert(d[k] as int / 16 == hi && d[k] as int % 16 == lo);
            assert(i == 2 * k || i == 2 * k + 1);
            assert(low[i] == headers::lower_char(t[i]));
        }
        assert(low =~= hex_text(d));
    }
}

/// A digit has the same value in either case, and in lower case it is the digit of its value.
proof fn lemma_either_case(c: char)
    ensures
        hex_value(headers::lower_char(c)) == hex_value(c),
        hex_value(c) is Some ==> 0 <= hex_value(c)->0 < 16 && hex_char(hex_value(c)->0)
            == headers::lower_char(c),
{
}

} // verus!
