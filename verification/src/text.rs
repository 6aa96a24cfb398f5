//! Small text building blocks: decimal numerals, decimal parsing, white space.
use vstd::prelude::*;

verus! {

/// The character for a digit below ten.
pub open spec fn digit_char(d: nat) -> char {
    ('0' as u32 + d) as char
}

/// The decimal numeral of `n`, without leading zeros.
pub open spec fn decimal(n: nat) -> Seq<char>
    decreases n,
{
    if n < 10 {
        seq![digit_char(n)]
    } else {
        decimal(n / 10).push(digit_char(n % 10))
    }
}

/// The one-character string of a digit below ten.
fn digit_str(d: u64) -> (s: &'static str)
    requires
        d < 10,
    ensures
        s@ == seq![digit_char(d as nat)],
{
    proof {
        reveal_strlit("0");
        reveal_strlit("1");
        reveal_strlit("2");
        reveal_strlit("3");
        reveal_strlit("4");
        reveal_strlit("5");
        reveal_strlit("6");
        reveal_strlit("7");
        reveal_strlit("8");
        reveal_strlit("9");
    }
    match d {
        0 => "0",
        1 => "1",
        2 => "2",
        3 => "3",
        4 => "4",
        5 => "5",
        6 => "6",
        7 => "7",
        8 => "8",
        _ => "9",
    }
}

/// Writes `n` in decimal.
pub fn decimal_text(n: u64) -> (s: String)
    ensures
        s@ == decimal(n as nat),
    decreases n,
{
    if n < 10 {
        digit_str(n).to_owned()
    } else {
        let mut s = decimal_text(n / 10);
        s.append(digit_str(n % 10));
        s
    }
}

/// Whether `c` has the Unicode property White_Space.
pub open spec fn is_white_space(c: char) -> bool {
    let u = c as u32;
    ||| 0x09 <= u <= 0x0d
    ||| u == 0x20
    ||| u == 0x85
    ||| u == 0xa0
    ||| u == 0x1680
    ||| 0x2000 <= u <= 0x200a
    ||| u == 0x2028
    ||| u == 0x2029
    ||| u == 0x202f
    ||| u == 0x205f
    ||| u == 0x3000
}

/// `s` without its leading white space.
pub open spec fn trim_start(s: Seq<char>) -> Seq<char>
    decreases s.len(),
{
    if s.len() > 0 && is_white_space(s[0]) {
        trim_start(s.drop_first())
    } else {
        s
    }
}

/// `s` without its trailing white space.
pub open spec fn trim_end(s: Seq<char>) -> Seq<char>
    decreases s.len(),
{
    if s.len() > 0 && is_white_space(s.last()) {
        trim_end(s.drop_last())
    } else {
        s
    }
}

/// `s` without its leading and trailing white space.
pub open spec fn trimmed(s: Seq<char>) -> Seq<char> {
    trim_end(trim_start(s))
}

/// Dropping leading white space leaves a text that starts with none.
proof fn lemma_trim_start(s: Seq<char>)
    ensures
        trim_start(s).len() > 0 ==> !is_white_space(trim_start(s)[0]),
    decreases s.len(),
{
    if s.len() > 0 && is_white_space(s[0]) {
        lemma_trim_start(s.drop_first());
    }
}

/// Dropping trailing white space leaves a prefix that ends with none.
proof fn lemma_trim_end(s: Seq<char>)
    ensures
        trim_end(s).len() <= s.len(),
        trim_end(s) == s.take(trim_end(s).len() as int),
        trim_end(s).len() > 0 ==> !is_white_space(trim_end(s).last()),
    decreases s.len(),
{
    if s.len() > 0 && is_white_space(s.last()) {
        lemma_trim_end(s.drop_last());
        assert(s.drop_last().take(trim_end(s).len() as int) =~= s.take(trim_end(s).len() as int));
    } else {
        assert(s.take(s.len() as int) =~= s);
    }
}

/// Trimming a second time changes nothing.
pub proof fn lemma_trimmed_twice(s: Seq<char>)
    ensures
        trimmed(trimmed(s)) == trimmed(s),
{
    let a = trim_start(s);
    let t = trim_end(a);
    lemma_trim_start(s);
    lemma_trim_end(a);
    if t.len() > 0 {
        assert(t[0] == a[0]);
    }
    assert(trim_start(t) == t);
}

/// Tells whether `c` is white space.
pub fn white_space(c: char) -> (b: bool)
    ensures
        b == is_white_space(c),
{
    let u: u32 = c as u32;
    (0x09 <= u && u <= 0x0d) || u == 0x20 || u == 0x85 || u == 0xa0 || u == 0x1680 || (0x2000 <= u
        && u <= 0x200a) || u == 0x2028 || u == 0x2029 || u == 0x202f || u == 0x205f || u == 0x3000
}

/// The characters of `s`.
pub fn chars_of(s: &str) -> (v: Vec<char>)
    ensures
        v@ == s@,
{
    let mut v: Vec<char> = Vec::new();
    for c in it: s.chars()
        invariant
            it.seq() == s@,
            v@ == s@.take(it.index() as int),
    {
        v.push(c);
    }
    v
}

/// The characters of `s` without the white space around them.
pub fn trimmed_chars(s: &str) -> (v: Vec<char>)
    ensures
        v@ == trimmed(s@),
{
    let all = chars_of(s);
    let n: usize = all.len();
    let mut lo: usize = 0;
    assert(all@.skip(0) =~= all@);
    while lo < n && white_space(all[lo])
        invariant
            n == all.len(),
            lo <= n,
            trim_start(all@.skip(lo as int)) == trim_start(all@),
        decreases n - lo,
    {
        assert(all@.skip(lo as int).drop_first() =~= all@.skip(lo + 1));
        lo = lo + 1;
    }
    let ghost rest = all@.skip(lo as int);
    assert(trim_start(all@) == rest);
    let mut hi: usize = n;
    assert(rest.take(n - lo) =~= rest);
    while hi > lo && white_space(all[hi - 1])
        invariant
            n == all.len(),
            lo <= hi <= n,
            rest == all@.skip(lo as int),
            trim_end(rest.take(hi - lo)) == trim_end(rest),
        decreases hi,
    {
        assert(rest.take(hi - lo).drop_last() =~= rest.take(hi - 1 - lo));
        hi = hi - 1;
    }
    assert(trim_end(rest.take(hi - lo)) == rest.take(hi - lo));
    let mut v: Vec<char> = Vec::new();
    let mut k: usize = lo;
    while k < hi
        invariant
            n == all.len(),
            lo <= k <= hi <= n,
            v@ == all@.subrange(lo as int, k as int),
        decreases hi - k,
    {
        v.push(all[k]);
        k = k + 1;
    }
    assert(v@ =~= rest.take(hi - lo));
    v
}

/// Whether `b` is an ASCII digit.
pub open spec fn is_digit(b: u8) -> bool {
    '0' as u8 <= b <= '9' as u8
}

/// The number that a run of ASCII digits writes.
pub open spec fn digits_value(s: Seq<u8>) -> nat
    decreases s.len(),
{
    if s.len() == 0 {
        0
    } else {
        digits_value(s.drop_last()) * 10 + (s.last() - '0' as u8) as nat
    }
}

/// `s` without a leading plus sign.
pub open spec fn without_plus(s: Seq<u8>) -> Seq<u8> {
    if s.len() > 0 && s[0] == '+' as u8 {
        s.skip(1)
    } else {
        s
    }
}

/// The number that `s` writes: one or more digits, after an optional plus sign,
/// whose value fits in 64 bits.
pub open spec fn parsed_u64(s: Seq<u8>) -> Option<u64> {
    let digits = without_plus(s);
    if digits.len() > 0 && (forall|i: int| 0 <= i < digits.len() ==> is_digit(#[trigger] digits[i]))
        && digits_value(digits) <= u64::MAX {
        Some(digits_value(digits) as u64)
    } else {
        None
    }
}

/// A prefix writes no larger number than the whole run.
proof fn lemma_digits_value_prefix(s: Seq<u8>, k: int)
    requires
        0 <= k <= s.len(),
        forall|i: int| 0 <= i < s.len() ==> is_digit(#[trigger] s[i]),
    ensures
        digits_value(s.take(k)) <= digits_value(s),
    decreases s.len() - k,
{
    if k < s.len() {
        assert(s.take(k + 1).drop_last() =~= s.take(k));
        lemma_digits_value_prefix(s, k + 1);
    } else {
        assert(s.take(k) =~= s);
    }
}

/// Parses the text from position `from` on as a decimal number.
pub fn parse_u64(bytes: &[u8], from: usize) -> (r: Option<u64>)
    requires
        from <= bytes@.len(),
    ensures
        r == parsed_u64(bytes@.skip(from as int)),
{
    let n: usize = bytes.len();
    let ghost s = bytes@.skip(from as int);
    let mut start: usize = from;
    if from < n && bytes[from] == 43 {
        start = from + 1;
    }
    let ghost digits = bytes@.skip(start as int);
    assert(digits =~= without_plus(s));
    if start == n {
        return None;
    }
    let mut acc: u64 = 0;
    let mut i: usize = start;
    while i < n
        invariant
            n == bytes@.len(),
            start <= i <= n,
            digits == bytes@.skip(start as int),
            digits == without_plus(bytes@.skip(from as int)),
            forall|k: int| 0 <= k < i - start ==> is_digit(#[trigger] digits[k]),
            acc == digits_value(digits.take(i - start)),
        ensures
            i == n,
        decreases n - i,
    {
        let b: u8 = bytes[i];
        assert(b == digits[i - start]);
        if b < 48 || b > 57 {
            return None;
        }
        let d: u64 = (b - 48) as u64;
        assert(digits.take(i + 1 - start).drop_last() =~= digits.take(i - start));
        if acc > (u64::MAX - d) / 10 {
            proof {
                if forall|k: int| 0 <= k < digits.len() ==> is_digit(#[trigger] digits[k]) {
                    lemma_digits_value_prefix(digits, i + 1 - start);
                }
            }
            return None;
        }
        acc = acc * 10 + d;
        i = i + 1;
    }
    assert(digits.take(n - start) =~= digits);
    Some(acc)
}

/// Trimming drops white space at both ends, all of it, and nothing else: what is left begins and
/// ends with other characters, and what was dropped is white space throughout.
pub proof fn law_trimming(s: Seq<char>) -> (r: (int, int))
    ensures
        0 <= r.0 <= r.1 <= s.len(),
        trimmed(s) == s.subrange(r.0, r.1),
        forall|i: int|
            0 <= i < r.0 || r.1 <= i < s.len() ==> is_white_space(#[trigger] s[i]),
        r.0 < r.1 ==> !is_white_space(s[r.0]) && !is_white_space(s[r.1 - 1]),
{
    let lo = lemma_start_dropped(s);
    let a = trim_start(s);
    let n = lemma_end_dropped(a);
    lemma_trim_start(s);
    lemma_trim_end(a);
    let hi = lo + n;
    assert(trimmed(s) =~= s.subrange(lo, hi));
    assert forall|i: int| 0 <= i < lo || hi <= i < s.len() implies is_white_space(
        #[trigger] s[i],
    ) by {
        if hi <= i {
            assert(a[i - lo] == s[i]);
        }
    }
    if lo < hi {
        assert(s[lo] == a[0]);
        assert(s[hi - 1] == trimmed(s).last());
    }
    (lo, hi)
}

/// How many characters of white space are dropped at the beginning.
proof fn lemma_start_dropped(s: Seq<char>) -> (lo: int)
    ensures
        0 <= lo <= s.len(),
        trim_start(s) == s.skip(lo),
        forall|i: int| 0 <= i < lo ==> is_white_space(#[trigger] s[i]),
    decreases s.len(),
{
    if s.len() > 0 && is_white_space(s[0]) {
        let rest = s.drop_first();
        let p = lemma_start_dropped(rest);
        assert(rest.skip(p) =~= s.skip(p + 1));
        assert forall|i: int| 0 <= i < p + 1 implies is_white_space(#[trigger] s[i]) by {
            if i > 0 {
                assert(rest[i - 1] == s[i]);
            }
        }
        p + 1
    } else {
        assert(s.skip(0) =~= s);
        0
    }
}

/// How many characters are left when white space is dropped at the end.
proof fn lemma_end_dropped(s: Seq<char>) -> (hi: int)
    ensures
        0 <= hi <= s.len(),
        trim_end(s) == s.take(hi),
        forall|i: int| hi <= i < s.len() ==> is_white_space(#[trigger] s[i]),
    decreases s.len(),
{
    if s.len() > 0 && is_white_space(s.last()) {
        let rest = s.drop_last();
        let p = lemma_end_dropped(rest);
        assert(rest.take(p) =~= s.take(p));
        assert forall|i: int| p <= i < s.len() implies is_white_space(#[trigger] s[i]) by {
            if i < rest.len() {
                assert(rest[i] == s[i]);
            }
        }
        p
    } else {
        assert(s.take(s.len() as int) =~= s);
        s.len() as int
    }
}

/// The bytes of a text of ASCII characters.
pub open spec fn ascii_bytes(s: Seq<char>) -> Seq<u8> {
    s.map_values(|c: char| c as u8)
}

/// A number can be read back from its own numeral, with a plus sign or without one, and the
/// numeral has no leading zero.
pub proof fn law_numbers_round_trip(n: u64)
    ensures
        parsed_u64(ascii_bytes(decimal(n as nat))) == Some(n),
        parsed_u64(seq!['+' as u8] + ascii_bytes(decimal(n as nat))) == Some(n),
        n > 0 ==> decimal(n as nat)[0] != '0',
        n == 0 ==> decimal(n as nat) == seq!['0'],
{
    let t = ascii_bytes(decimal(n as nat));
    lemma_decimal(n as nat);
    assert(is_digit(t[0]));
    assert(without_plus(t) == t);
    assert((seq!['+' as u8] + t).skip(1) =~= t);
}

/// The numeral of a number is made of digits and writes that number.
proof fn lemma_decimal(n: nat)
    ensures
        decimal(n).len() > 0,
        forall|i: int|
            0 <= i < decimal(n).len() ==> '0' <= (#[trigger] decimal(n)[i]) <= '9',
        forall|i: int|
            0 <= i < decimal(n).len() ==> is_digit(#[trigger] ascii_bytes(decimal(n))[i]),
        digits_value(ascii_bytes(decimal(n))) == n,
        n > 0 ==> decimal(n)[0] != '0',
    decreases n,
{
    let d = decimal(n);
    let t = ascii_bytes(d);
    if n < 10 {
        assert(t.drop_last() =~= Seq::<u8>::empty());
        assert(digits_value(t.drop_last()) == 0);
    } else {
        lemma_decimal(n / 10);
        assert(t.drop_last() =~= ascii_bytes(decimal(n / 10)));
        assert forall|i: int| 0 <= i < d.len() implies '0' <= (#[trigger] d[i]) <= '9' by {
            if i < d.len() - 1 {
                assert(d[i] == decimal(n / 10)[i]);
            }
        }
        assert forall|i: int| 0 <= i < d.len() implies is_digit(#[trigger] t[i]) by {
            assert('0' <= d[i] <= '9');
        }
    }
}

/// A numeral holds digits only.
pub proof fn law_numerals_are_digits(n: u64)
    ensures
        decimal(n as nat).len() > 0,
        forall|i: int|
            0 <= i < decimal(n as nat).len() ==> '0' <= (#[trigger] decimal(n as nat)[i]) <= '9',
{
    lemma_decimal(n as nat);
}

/// Only digits, after an optional plus sign, are read as a number; each further digit makes it
/// ten times as large and adds its own value.
pub proof fn law_only_digits_are_numbers(s: Seq<u8>, digit: u8)
    requires
        parsed_u64(s) is Some,
    ensures
        s.len() > 0,
        forall|i: int| 1 <= i < s.len() ==> 48 <= #[trigger] s[i] <= 57,
        s[0] == 43 || 48 <= s[0] <= 57,
        s[0] == 43 ==> s.len() >= 2,
        48 <= digit <= 57 && parsed_u64(s)->0 * 10 + (digit - 48) <= u64::MAX ==> parsed_u64(
            s.push(digit),
        ) == Some((parsed_u64(s)->0 * 10 + (digit - 48)) as u64),
        48 <= digit <= 57 && parsed_u64(s)->0 * 10 + (digit - 48) > u64::MAX ==> parsed_u64(
            s.push(digit),
        ) is None,
        !(48 <= digit <= 57) ==> parsed_u64(s.push(digit)) is None,
{
    let d = without_plus(s);
    assert(is_digit(d[0]));
    assert forall|i: int| 1 <= i < s.len() implies 48 <= #[trigger] s[i] <= 57 by {
        if s[0] == 43 {
            assert(is_digit(d[i - 1]));
        } else {
            assert(is_digit(d[i]));
        }
    }
    let e = without_plus(s.push(digit));
    assert(e =~= d.push(digit));
    assert(e.drop_last() =~= d);
    assert(e[e.len() - 1] == digit);
    if is_digit(digit) {
        assert forall|i: int| 0 <= i < e.len() implies is_digit(#[trigger] e[i]) by {
            if i < d.len() {
                assert(e[i] == d[i]);
            }
        }
    }
}

/// Of the ASCII characters the space, the tabulators, the feeds and the returns are white space,
/// and no others.
pub proof fn law_ascii_white_space(c: char)
    requires
        c <= '~',
    ensures
        is_white_space(c) <==> c == ' ' || c == '\t' || c == '\n' || c == '\r' || c as u32 == 11
            || c as u32 == 12,
{
}

} // verus!
