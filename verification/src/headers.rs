//! Request headers and what is read off response headers.
use vstd::prelude::*;
use vstd::utf8;

use crate::text;
use crate::text::parse_u64;

verus! {

/// The header map of HTTP requests and responses.
#[verifier::external_type_specification]
#[verifier::external_body]
#[verifier::reject_recursive_types(T)]
pub struct ExHeaderMap<T>(reqwest::header::HeaderMap<T>);

/// The value of a header, as HTTP libraries hold it.
#[verifier::external_type_specification]
#[verifier::external_body]
pub struct ExHeaderValue(reqwest::header::HeaderValue);

/// What a header map holds: for each name, in lower case, the bytes of its values
/// in order.
pub uninterp spec fn header_contents(
    map: reqwest::header::HeaderMap<reqwest::header::HeaderValue>,
) -> Map<Seq<char>, Seq<Seq<u8>>>;

/// The contents of an empty header map.
pub open spec fn no_headers() -> Map<Seq<char>, Seq<Seq<u8>>> {
    Map::empty()
}

/// A header map with more names than this may refuse another.
pub const SAFE_HEADER_COUNT: usize = 6553;

/// `c` may stand in a header name.
pub open spec fn is_token_char(c: char) -> bool {
    ||| 'a' <= c <= 'z'
    ||| 'A' <= c <= 'Z'
    ||| '0' <= c <= '9'
    ||| c == '!' || c == '#' || c == '$' || c == '%' || c == '&' || c == '\'' || c == '*' || c
        == '+' || c == '-' || c == '.' || c == '^' || c == '_' || c == '`' || c == '|' || c == '~'
}

/// `name` can be a header name.
pub open spec fn is_token(name: Seq<char>) -> bool {
    &&& 1 <= name.len() <= 65535
    &&& forall|i: int| 0 <= i < name.len() ==> is_token_char(#[trigger] name[i])
}

/// The lower-case form of an ASCII letter; any other character as it is.
pub open spec fn lower_char(c: char) -> char {
    if 'A' <= c <= 'Z' {
        (c as u32 + 32) as char
    } else {
        c
    }
}

/// `name` with its ASCII letters in lower case.
pub open spec fn lowered(name: Seq<char>) -> Seq<char> {
    name.map_values(|c: char| lower_char(c))
}

/// `value` can be a header value: among its bytes are no control characters but the
/// tabulator.
pub open spec fn is_field_value(value: Seq<char>) -> bool {
    forall|i: int|
        0 <= i < utf8::encode_utf8(value).len() ==> {
            let b = #[trigger] utf8::encode_utf8(value)[i];
            32 <= b && b != 127 || b == 9
        }
}

/// What a header map holds once `pairs` have been put into it in order: a pair that is
/// no header is left out, and a later one takes the place of an earlier one of the
/// same name.
pub open spec fn merged(pairs: Seq<(String, String)>) -> Map<Seq<char>, Seq<Seq<u8>>>
    decreases pairs.len(),
{
    if pairs.len() == 0 {
        no_headers()
    } else {
        let before = merged(pairs.drop_last());
        let pair = pairs.last();
        if is_header(pair) {
            before.insert(lowered(pair.0@), seq![utf8::encode_utf8(pair.1@)])
        } else {
            before
        }
    }
}

/// `pair` can be a header.
pub open spec fn is_header(pair: (String, String)) -> bool {
    is_token(pair.0@) && is_field_value(pair.1@)
}

/// An empty header map, from `reqwest::header::HeaderMap::new`.
#[verifier::external_body]
fn empty_headers() -> (m: reqwest::header::HeaderMap<reqwest::header::HeaderValue>)
    ensures
        header_contents(m) == no_headers(),
{
    reqwest::header::HeaderMap::new()
}

/// Parses a header name with `reqwest::header::HeaderName::from_str`: it accepts
/// exactly the tokens of up to 65535 characters.
#[verifier::external_body]
fn header_name(name: &str) -> (r: bool)
    ensures
        r == is_token(name@),
{
    name.parse::<reqwest::header::HeaderName>().is_ok()
}

/// Parses a header value with `reqwest::header::HeaderValue::from_str`: it accepts
/// exactly the texts without control characters other than the tabulator.
#[verifier::external_body]
fn header_value(value: &str) -> (r: bool)
    ensures
        r == is_field_value(value@),
{
    value.parse::<reqwest::header::HeaderValue>().is_ok()
}

/// Puts a header into the map with `reqwest::header::HeaderMap::try_insert`, in place
/// of any with that name, whose letters count as lower case. The map may refuse it once it is full, and is then as it
/// was; it never refuses while it holds no more than `SAFE_HEADER_COUNT` names. When
/// exactly a fuller map refuses depends on its history and is not said.
#[verifier::external_body]
fn insert_header(
    map: &mut reqwest::header::HeaderMap<reqwest::header::HeaderValue>,
    name: &str,
    value: &str,
) -> (done: bool)
    requires
        is_token(name@),
        is_field_value(value@),
    ensures
        done ==> header_contents(*final(map)) == header_contents(*old(map)).insert(
            lowered(name@),
            seq![utf8::encode_utf8(value@)],
        ),
        !done ==> header_contents(*final(map)) == header_contents(*old(map)),
        header_contents(*old(map)).dom().len() <= SAFE_HEADER_COUNT ==> done,
{
    match (
        name.parse::<reqwest::header::HeaderName>(),
        value.parse::<reqwest::header::HeaderValue>(),
    ) {
        (Ok(n), Ok(v)) => map.try_insert(n, v).is_ok(),
        _ => false,
    }
}

/// The first value of a header, from `reqwest::header::HeaderMap::get`.
#[verifier::external_body]
fn first_value(
    map: &reqwest::header::HeaderMap<reqwest::header::HeaderValue>,
    name: &str,
) -> (r: Option<Vec<u8>>)
    requires
        is_token(name@),
    ensures
        match r {
            Some(v) => {
                &&& header_contents(*map).contains_key(lowered(name@))
                &&& header_contents(*map)[lowered(name@)].len() > 0
                &&& v@ == header_contents(*map)[lowered(name@)][0]
            },
            None => !header_contents(*map).contains_key(lowered(name@)),
        },
{
    map.get(name).map(|v| v.as_bytes().to_vec())
}

/// Puts `pairs` into `map` in order. It stops if the map refuses one, which it does
/// not while there are no more than `SAFE_HEADER_COUNT` different names.
fn put_all(
    map: &mut reqwest::header::HeaderMap<reqwest::header::HeaderValue>,
    pairs: &Vec<(String, String)>,
    Ghost(before): Ghost<Seq<(String, String)>>,
) -> (done: bool)
    requires
        header_contents(*old(map)) == merged(before),
    ensures
        done ==> header_contents(*final(map)) == merged(before + pairs@),
        merged(before + pairs@).dom().len() <= SAFE_HEADER_COUNT ==> done,
{
    let n: usize = pairs.len();
    let mut i: usize = 0;
    assert(before + pairs@.take(0) =~= before);
    while i < n
        invariant
            n == pairs@.len(),
            0 <= i <= n,
            header_contents(*map) == merged(before + pairs@.take(i as int)),
        decreases n - i,
    {
        let name: &str = pairs[i].0.as_str();
        let value: &str = pairs[i].1.as_str();
        let ghost done_pairs = before + pairs@.take(i as int);
        proof {
            let next = before + pairs@.take(i + 1);
            assert(next.drop_last() =~= done_pairs);
            assert(next.last() == pairs@[i as int]);
            assert(before + pairs@ =~= done_pairs + pairs@.skip(i as int));
            lemma_merged_grows(done_pairs, pairs@.skip(i as int));
        }
        if header_name(name) && header_value(value) {
            if !insert_header(map, name, value) {
                return false;
            }
        }
        i = i + 1;
    }
    assert(pairs@.take(n as int) =~= pairs@);
    true
}

/// Further pairs take no name away.
proof fn lemma_merged_grows(pairs: Seq<(String, String)>, more: Seq<(String, String)>)
    ensures
        merged(pairs).dom().finite(),
        merged(pairs + more).dom().finite(),
        merged(pairs).dom().subset_of(merged(pairs + more).dom()),
        merged(pairs).dom().len() <= merged(pairs + more).dom().len(),
    decreases pairs.len() + more.len(),
{
    if more.len() == 0 {
        assert(pairs + more =~= pairs);
        if pairs.len() > 0 {
            lemma_merged_grows(pairs.drop_last(), more);
            assert(pairs.drop_last() + more =~= pairs.drop_last());
        }
    } else {
        lemma_merged_grows(pairs, more.drop_last());
        assert((pairs + more).drop_last() =~= pairs + more.drop_last());
    }
    vstd::set_lib::lemma_len_subset(merged(pairs).dom(), merged(pairs + more).dom());
}

/// The request headers of a task: the shared ones, then the task's own, which take
/// precedence. Pairs that are no headers are left out. Nothing is returned if there
/// are more than a header map can hold, which up to `SAFE_HEADER_COUNT` different names
/// never happens.
pub fn merge_headers(shared: &Vec<(String, String)>, own: &Vec<(String, String)>) -> (r: Option<
    reqwest::header::HeaderMap<reqwest::header::HeaderValue>,
>)
    ensures
        r is Some ==> header_contents(r->0) == merged(shared@ + own@),
        merged(shared@ + own@).dom().len() <= SAFE_HEADER_COUNT ==> r is Some,
{
    let mut map = empty_headers();
    let ghost none = Seq::<(String, String)>::empty();
    assert(none + shared@ =~= shared@);
    proof {
        lemma_merged_grows(shared@, own@);
    }
    if !put_all(&mut map, shared, Ghost(none)) {
        return None;
    }
    if !put_all(&mut map, own, Ghost(shared@)) {
        return None;
    }
    Some(map)
}

/// Of several pairs with the same name the last one that is a header counts: so a
/// task's own header takes the place of a shared one.
pub proof fn law_last_header_counts(pairs: Seq<(String, String)>, i: int)
    requires
        0 <= i < pairs.len(),
        is_header(pairs[i]),
        forall|j: int|
            i < j < pairs.len() && is_header(#[trigger] pairs[j]) ==> lowered(pairs[j].0@)
                != lowered(pairs[i].0@),
    ensures
        merged(pairs).contains_key(lowered(pairs[i].0@)),
        merged(pairs)[lowered(pairs[i].0@)] == seq![utf8::encode_utf8(pairs[i].1@)],
    decreases pairs.len(),
{
    let n = pairs.len() - 1;
    if i < n {
        let rest = pairs.drop_last();
        assert(rest[i] == pairs[i]);
        assert forall|j: int| i < j < rest.len() && is_header(#[trigger] rest[j]) implies lowered(
            rest[j].0@,
        ) != lowered(rest[i].0@) by {
            assert(rest[j] == pairs[j]);
        }
        law_last_header_counts(rest, i);
        assert(pairs[n] == pairs.last());
    }
}

/// Every header comes from one of the pairs.
pub proof fn law_no_header_from_nowhere(pairs: Seq<(String, String)>, name: Seq<char>)
    requires
        merged(pairs).contains_key(name),
    ensures
        exists|i: int|
            0 <= i < pairs.len() && is_header(#[trigger] pairs[i]) && lowered(pairs[i].0@) == name,
    decreases pairs.len(),
{
    if pairs.len() > 0 {
        let n = pairs.len() - 1;
        if is_header(pairs[n]) && lowered(pairs[n].0@) == name {
        } else {
            let rest = pairs.drop_last();
            law_no_header_from_nowhere(rest, name);
            let i = choose|i: int|
                0 <= i < rest.len() && is_header(#[trigger] rest[i]) && lowered(rest[i].0@) == name;
            assert(pairs[i] == rest[i]);
        }
    }
}

/// `value` can be read as text: it holds visible ASCII characters, spaces and
/// tabulators only.
pub open spec fn is_visible(value: Seq<u8>) -> bool {
    forall|i: int|
        0 <= i < value.len() ==> {
            let b = #[trigger] value[i];
            32 <= b < 127 || b == 9
        }
}

/// Whether a header value can be read as text.
fn readable(value: &Vec<u8>) -> (b: bool)
    ensures
        b == is_visible(value@),
{
    let n: usize = value.len();
    let mut i: usize = 0;
    while i < n
        invariant
            n == value@.len(),
            0 <= i <= n,
            forall|k: int|
                0 <= k < i ==> {
                    let b = #[trigger] value@[k];
                    32 <= b < 127 || b == 9
                },
        decreases n - i,
    {
        let b: u8 = value[i];
        if !(32 <= b && b < 127 || b == 9) {
            assert(value@[i as int] == b);
            return false;
        }
        i = i + 1;
    }
    true
}

/// The length that the value of a `Content-Length` header states.
pub open spec fn stated_length(value: Option<Seq<u8>>) -> Option<u64> {
    match value {
        Some(v) => if is_visible(v) {
            text::parsed_u64(v)
        } else {
            None
        },
        None => None,
    }
}

/// Whether the value of an `Accept-Ranges` header names bytes, in whatever case.
pub open spec fn offers_bytes(value: Option<Seq<u8>>) -> bool {
    value is Some && is_visible(value->0) && exists|i: int| #[trigger] names_bytes_at(value->0, i)
}

/// At position `i` the value reads `bytes`, in whatever case.
pub open spec fn names_bytes_at(v: Seq<u8>, i: int) -> bool {
    &&& 0 <= i <= v.len() - 5
    &&& v[i] == 'b' as u8 || v[i] == 'B' as u8
    &&& v[i + 1] == 'y' as u8 || v[i + 1] == 'Y' as u8
    &&& v[i + 2] == 't' as u8 || v[i + 2] == 'T' as u8
    &&& v[i + 3] == 'e' as u8 || v[i + 3] == 'E' as u8
    &&& v[i + 4] == 's' as u8 || v[i + 4] == 'S' as u8
}

/// Behind the last slash of `v` stands what follows position `i`; without a slash
/// that is all of `v`.
pub open spec fn starts_tail(v: Seq<u8>, i: int) -> bool {
    &&& 0 <= i <= v.len()
    &&& i == 0 || v[i - 1] == '/' as u8
    &&& forall|k: int| i <= k < v.len() ==> #[trigger] v[k] != '/' as u8
}

/// What stands behind the last slash of `v`.
pub open spec fn tail(v: Seq<u8>) -> Seq<u8> {
    v.skip(choose|i: int| #[trigger] starts_tail(v, i))
}

/// The size of the whole file that the value of a `Content-Range` header states.
pub open spec fn stated_total(value: Option<Seq<u8>>) -> Option<u64> {
    match value {
        Some(v) => if is_visible(v) {
            text::parsed_u64(tail(v))
        } else {
            None
        },
        None => None,
    }
}

/// The bytes of an optional header value.
pub open spec fn bytes_of(value: Option<Vec<u8>>) -> Option<Seq<u8>> {
    match value {
        Some(v) => Some(v@),
        None => None,
    }
}

/// Reads the length off the value of a `Content-Length` header.
pub fn read_length(value: Option<Vec<u8>>) -> (r: Option<u64>)
    ensures
        r == stated_length(bytes_of(value)),
{
    match value {
        Some(v) => {
            if !readable(&v) {
                return None;
            }
            assert(v@.skip(0) =~= v@);
            parse_u64(v.as_slice(), 0)
        },
        None => None,
    }
}

/// Reads off the value of an `Accept-Ranges` header whether ranges of bytes are
/// served.
pub fn read_accept_ranges(value: Option<Vec<u8>>) -> (r: bool)
    ensures
        r == offers_bytes(bytes_of(value)),
{
    let v: Vec<u8> = match value {
        Some(v) => v,
        None => {
            return false;
        },
    };
    if !readable(&v) {
        return false;
    }
    let n: usize = v.len();
    let mut i: usize = 0;
    while i < n
        invariant
            n == v@.len(),
            0 <= i <= n,
            is_visible(v@),
            bytes_of(value) == Some(v@),
            forall|k: int| 0 <= k < i ==> !#[trigger] names_bytes_at(v@, k),
        decreases n - i,
    {
        if n - i >= 5 && (v[i] == 98 || v[i] == 66) && (v[i + 1] == 121 || v[i + 1] == 89) && (
        v[i + 2] == 116 || v[i + 2] == 84) && (v[i + 3] == 101 || v[i + 3] == 69) && (v[i + 4]
            == 115 || v[i + 4] == 83) {
            assert(names_bytes_at(v@, i as int));
            return true;
        }
        i = i + 1;
    }
    false
}

/// There is only one place behind the last slash.
proof fn lemma_tail(v: Seq<u8>, i: int)
    requires
        starts_tail(v, i),
    ensures
        tail(v) == v.skip(i),
{
    let j = choose|j: int| #[trigger] starts_tail(v, j);
    assert(starts_tail(v, j));
    if i < j {
        assert(v[j - 1] != '/' as u8);
    } else if j < i {
        assert(v[i - 1] != '/' as u8);
    }
}

/// Reads the size of the whole file off the value of a `Content-Range` header.
pub fn read_content_range(value: Option<Vec<u8>>) -> (r: Option<u64>)
    ensures
        r == stated_total(bytes_of(value)),
{
    let v: Vec<u8> = match value {
        Some(v) => v,
        None => {
            return None;
        },
    };
    if !readable(&v) {
        return None;
    }
    let n: usize = v.len();
    let mut i: usize = n;
    while i > 0 && v[i - 1] != 47
        invariant
            n == v@.len(),
            0 <= i <= n,
            forall|k: int| i <= k < n ==> #[trigger] v@[k] != '/' as u8,
        decreases i,
    {
        i = i - 1;
    }
    proof {
        assert(starts_tail(v@, i as int));
        lemma_tail(v@, i as int);
    }
    parse_u64(v.as_slice(), i)
}

/// What a header map holds first under a name.
pub open spec fn first_of(
    map: reqwest::header::HeaderMap<reqwest::header::HeaderValue>,
    name: Seq<char>,
) -> Option<Seq<u8>> {
    if header_contents(map).contains_key(name) {
        Some(header_contents(map)[name][0])
    } else {
        None
    }
}

/// The name is a token in lower case.
proof fn lemma_known_names()
    ensures
        is_token("content-length"@) && lowered("content-length"@) == "content-length"@,
        is_token("accept-ranges"@) && lowered("accept-ranges"@) == "accept-ranges"@,
        is_token("content-range"@) && lowered("content-range"@) == "content-range"@,
{
    reveal_strlit("content-length");
    reveal_strlit("accept-ranges");
    reveal_strlit("content-range");
    assert(lowered("content-length"@) =~= "content-length"@);
    assert(lowered("accept-ranges"@) =~= "accept-ranges"@);
    assert(lowered("content-range"@) =~= "content-range"@);
}

/// The length that response headers state, where they do.
pub fn content_length(headers: &reqwest::header::HeaderMap<reqwest::header::HeaderValue>) -> (r:
    Option<u64>)
    ensures
        r == stated_length(first_of(*headers, "content-length"@)),
{
    proof {
        lemma_known_names();
    }
    read_length(first_value(headers, "content-length"))
}

/// Whether response headers offer ranges of bytes.
pub fn accept_ranges_bytes(
    headers: &reqwest::header::HeaderMap<reqwest::header::HeaderValue>,
) -> (r: bool)
    ensures
        r == offers_bytes(first_of(*headers, "accept-ranges"@)),
{
    proof {
        lemma_known_names();
    }
    read_accept_ranges(first_value(headers, "accept-ranges"))
}

/// The size of the whole file that the headers of a partial response state.
pub fn content_range_total(
    headers: &reqwest::header::HeaderMap<reqwest::header::HeaderValue>,
) -> (r: Option<u64>)
    ensures
        r == stated_total(first_of(*headers, "content-range"@)),
{
    proof {
        lemma_known_names();
    }
    read_content_range(first_value(headers, "content-range"))
}

/// The length that a server writes down as a numeral is the length that is read.
pub proof fn law_length_is_read(n: u64)
    ensures
        stated_length(Some(text::ascii_bytes(text::decimal(n as nat)))) == Some(n),
        stated_length(None) is None,
{
    lemma_numeral_visible(n);
    text::law_numbers_round_trip(n);
}

/// A numeral is visible and holds no slash.
proof fn lemma_numeral_visible(n: u64)
    ensures
        is_visible(text::ascii_bytes(text::decimal(n as nat))),
        forall|i: int|
            0 <= i < text::decimal(n as nat).len() ==> 48 <= #[trigger] text::ascii_bytes(
                text::decimal(n as nat),
            )[i] <= 57,
{
    let t = text::ascii_bytes(text::decimal(n as nat));
    text::law_numerals_are_digits(n);
    assert forall|i: int| 0 <= i < t.len() implies 48 <= #[trigger] t[i] <= 57 by {
        assert('0' <= text::decimal(n as nat)[i] <= '9');
    }
}

/// The size that a server writes down behind the slash of a range is the size that is read,
/// whatever range stands before it; a star there is no size.
pub proof fn law_size_behind_the_slash_is_read(range: Seq<u8>, n: u64)
    requires
        is_visible(range),
    ensures
        stated_total(
            Some(range + seq!['/' as u8] + text::ascii_bytes(text::decimal(n as nat))),
        ) == Some(n),
        stated_total(Some(range + seq!['/' as u8, '*' as u8])) is None,
        stated_total(None) is None,
{
    let t = text::ascii_bytes(text::decimal(n as nat));
    lemma_numeral_visible(n);
    text::law_numbers_round_trip(n);
    let v = range + seq!['/' as u8] + t;
    let k = range.len() + 1;
    assert forall|i: int| 0 <= i < v.len() implies ({
        let b = #[trigger] v[i];
        32 <= b < 127 || b == 9
    }) by {
        if i < range.len() {
            assert(v[i] == range[i]);
        } else if i >= k {
            assert(v[i] == t[i - k]);
        }
    }
    assert forall|i: int| k <= i < v.len() implies #[trigger] v[i] != '/' as u8 by {
        assert(v[i] == t[i - k]);
    }
    assert(starts_tail(v, k as int));
    lemma_tail(v, k as int);
    assert(v.skip(k as int) =~= t);
    let w = range + seq!['/' as u8, '*' as u8];
    assert(starts_tail(w, k as int));
    lemma_tail(w, k as int);
    assert(w.skip(k as int) =~= seq!['*' as u8]);
    assert(!text::is_digit(w.skip(k as int)[0]));
}

/// Ranges are offered exactly where the value, in lower case, holds the word `bytes`; a server
/// that states nothing offers none.
pub proof fn law_ranges_are_offered_by_name(value: Seq<u8>)
    requires
        is_visible(value),
    ensures
        offers_bytes(Some(value)) <==> exists|i: int|
            0 <= i <= value.len() - 5 && #[trigger] word_at(value, i, 5) == "bytes"@,
        !offers_bytes(None),
{
    reveal_strlit("bytes");
    let t = as_text(value);
    if offers_bytes(Some(value)) {
        let i = choose|i: int| #[trigger] names_bytes_at(value, i);
        assert(word_at(value, i, 5) =~= "bytes"@);
    }
    if exists|i: int|
        0 <= i <= value.len() - 5 && #[trigger] word_at(value, i, 5) == "bytes"@ {
        let i = choose|i: int|
            0 <= i <= value.len() - 5 && #[trigger] word_at(value, i, 5) == "bytes"@;
        let w = t.subrange(i, i + 5);
        let low = lowered(w);
        assert(low[0] == 'b' && low[1] == 'y' && low[2] == 't' && low[3] == 'e' && low[4] == 's');
        assert(lower_char(w[0]) == 'b');
        assert(lower_char(w[1]) == 'y');
        assert(lower_char(w[2]) == 't');
        assert(lower_char(w[3]) == 'e');
        assert(lower_char(w[4]) == 's');
        assert(w[0] as u8 == value[i]);
        assert(w[1] as u8 == value[i + 1]);
        assert(w[2] as u8 == value[i + 2]);
        assert(w[3] as u8 == value[i + 3]);
        assert(w[4] as u8 == value[i + 4]);
        let stated = Some(value);
        assert(stated->0 == value && is_visible(stated->0));
        assert(names_bytes_at(stated->0, i));
    }
}

/// The `n` characters of `value` from `i` on, in lower case.
pub open spec fn word_at(value: Seq<u8>, i: int, n: int) -> Seq<char> {
    lowered(as_text(value).subrange(i, i + n))
}

/// Bytes as the characters with these numbers.
pub open spec fn as_text(value: Seq<u8>) -> Seq<char> {
    value.map_values(|b: u8| b as char)
}

/// What cannot be read as text states nothing: visible characters, spaces and tabulators can.
pub proof fn law_unreadable_values_state_nothing(value: Seq<u8>, i: int)
    requires
        0 <= i < value.len(),
        value[i] < 32 && value[i] != 9 || value[i] >= 127,
    ensures
        stated_length(Some(value)) is None,
        stated_total(Some(value)) is None,
        !offers_bytes(Some(value)),
{
    assert(!is_visible(value));
}

/// A header map with a task's own headers behind the shared ones: under each name that the task
/// sets stands the task's value, and under each that only the settings set, theirs.
pub proof fn law_own_headers_take_precedence(
    shared: Seq<(String, String)>,
    own: Seq<(String, String)>,
    i: int,
)
    ensures
        0 <= i < own.len() && is_header(own[i]) && (forall|j: int|
            i < j < own.len() && is_header(#[trigger] own[j]) ==> lowered(own[j].0@) != lowered(
                own[i].0@,
            )) ==> merged(shared + own).contains_key(lowered(own[i].0@)) && merged(
            shared + own,
        )[lowered(own[i].0@)] == seq![utf8::encode_utf8(own[i].1@)],
        0 <= i < shared.len() && is_header(shared[i]) && (forall|j: int|
            i < j < shared.len() && is_header(#[trigger] shared[j]) ==> lowered(shared[j].0@)
                != lowered(shared[i].0@)) && (forall|j: int|
            0 <= j < own.len() && is_header(#[trigger] own[j]) ==> lowered(own[j].0@) != lowered(
                shared[i].0@,
            )) ==> merged(shared + own).contains_key(lowered(shared[i].0@)) && merged(
            shared + own,
        )[lowered(shared[i].0@)] == seq![utf8::encode_utf8(shared[i].1@)],
{
    let all = shared + own;
    let n = shared.len() as int;
    if 0 <= i < own.len() && is_header(own[i]) && (forall|j: int|
        i < j < own.len() && is_header(#[trigger] own[j]) ==> lowered(own[j].0@) != lowered(
            own[i].0@,
        )) {
        assert(all[n + i] == own[i]);
        assert forall|j: int| n + i < j < all.len() && is_header(#[trigger] all[j]) implies lowered(
            all[j].0@,
        ) != lowered(all[n + i].0@) by {
            assert(all[j] == own[j - n]);
        }
        law_last_header_counts(all, n + i);
    }
    if 0 <= i < shared.len() && is_header(shared[i]) && (forall|j: int|
        i < j < shared.len() && is_header(#[trigger] shared[j]) ==> lowered(shared[j].0@) != lowered(
            shared[i].0@,
        )) && (forall|j: int|
        0 <= j < own.len() && is_header(#[trigger] own[j]) ==> lowered(own[j].0@) != lowered(
            shared[i].0@,
        )) {
        assert(all[i] == shared[i]);
        assert forall|j: int| i < j < all.len() && is_header(#[trigger] all[j]) implies lowered(
            all[j].0@,
        ) != lowered(all[i].0@) by {
            if j < n {
                assert(all[j] == shared[j]);
            } else {
                assert(all[j] == own[j - n]);
            }
        }
        law_last_header_counts(all, i);
    }
}

/// Text that can be read is made of visible ASCII characters, spaces and tabulators.
pub proof fn law_what_can_be_read(value: Seq<u8>)
    ensures
        is_visible(value) <==> forall|i: int|
            0 <= i < value.len() ==> ' ' as u8 <= #[trigger] value[i] <= '~' as u8 || value[i]
                == '\t' as u8,
        is_visible(value) ==> stated_length(Some(value)) == text::parsed_u64(value),
{
}

} // verus!
