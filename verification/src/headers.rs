//! Headers of HTTP messages: reading a line as text, and replacing, adding and
//! removing lines.

use crate::text;
use axum::http::header::InvalidHeaderValue;
use axum::http::{HeaderMap, HeaderValue};
use vstd::prelude::*;

verus! {

#[verifier::external_type_specification]
#[verifier::external_body]
#[verifier::reject_recursive_types(T)]
pub struct ExHeaderMap<T>(axum::http::HeaderMap<T>);

#[verifier::external_type_specification]
#[verifier::external_body]
pub struct ExHeaderValue(axum::http::HeaderValue);

#[verifier::external_type_specification]
#[verifier::external_body]
pub struct ExInvalidHeaderValue(axum::http::header::InvalidHeaderValue);

/// What a header map holds: under each name, in lower case, the bytes of its
/// values in the order in which they came.
pub uninterp spec fn header_lines(headers: HeaderMap<HeaderValue>) -> Map<Seq<char>, Seq<Seq<u8>>>;

/// The bytes of a header value.
pub uninterp spec fn value_bytes(value: HeaderValue) -> Seq<u8>;

/// A letter of the Latin alphabet in lower case; any other character as it is.
pub open spec fn lower(c: char) -> char {
    if 'A' <= c && c <= 'Z' {
        (c as u32 + 32) as char
    } else {
        c
    }
}

/// A header name in lower case.
pub open spec fn lower_name(name: Seq<char>) -> Seq<char> {
    name.map_values(|c: char| lower(c))
}

/// Whether a character may stand in the name of a header that is looked for.
pub open spec fn is_name_char(c: char) -> bool {
    ||| 'a' <= c && c <= 'z'
    ||| 'A' <= c && c <= 'Z'
    ||| '0' <= c && c <= '9'
    ||| c == '!' || c == '#' || c == '$' || c == '%' || c == '&' || c == '\'' || c == '*'
    ||| c == '+' || c == '-' || c == '.' || c == '^' || c == '_' || c == '`' || c == '|'
    ||| c == '~'
}

/// Whether a header with this name can be looked for. A map may hold others, as
/// HTTP/2 allows a quotation mark in a name, which are not looked for.
pub open spec fn is_name(name: Seq<char>) -> bool {
    forall|i: int| 0 <= i < name.len() ==> is_name_char(#[trigger] name[i])
}

/// Whether `name` is a header name of lower-case letters and hyphens.
pub open spec fn is_plain_name(name: Seq<char>) -> bool {
    &&& 0 < name.len() <= 64
    &&& forall|i: int|
        0 <= i < name.len() ==> 'a' <= #[trigger] name[i] && name[i] <= 'z' || name[i] == '-'
}

/// The number of names that a header map takes whatever the names are: a map
/// grows early where its names fall together, and it grows to 32768 places.
pub const MOST_NAMES: usize = 6553;

/// Whether there are lines under `n` different names.
pub open spec fn has_names(lines: Map<Seq<char>, Seq<Seq<u8>>>, n: int) -> bool {
    lines.dom().finite() && lines.dom().len() == n
}

/// Whether header lines leave room for `more` names in any case.
pub open spec fn leaves_room(lines: Map<Seq<char>, Seq<Seq<u8>>>, more: int) -> bool {
    &&& lines.dom().finite()
    &&& lines.dom().len() + more <= MOST_NAMES + 1
}

/// Whether the header map has room for `more` names in any case. One with more
/// names may have room too.
pub open spec fn has_room(headers: HeaderMap<HeaderValue>, more: int) -> bool {
    leaves_room(header_lines(headers), more)
}

/// Whether a byte may stand in a header value.
pub open spec fn is_value_byte(b: u8) -> bool {
    (b >= 32 && b != 127) || b == 9
}

/// Whether a byte of a header value reads as text.
pub open spec fn is_visible(b: u8) -> bool {
    (b >= 32 && b < 127) || b == 9
}

/// `HeaderValue::from_str`: the value with the bytes of a text, which none of
/// the control characters but the tab may be part of.
pub assume_specification[ HeaderValue::from_str ](src: &str) -> (r: Result<
    HeaderValue,
    InvalidHeaderValue,
>)
    ensures
        r is Ok <==> forall|i: int|
            0 <= i < text::utf8(src@).len() ==> is_value_byte(#[trigger] text::utf8(src@)[i]),
        r is Ok ==> value_bytes(r->Ok_0) == text::utf8(src@),
;

/// `HeaderMap::get` with a text for a name, whose case does not count: the
/// first of the values under the name, if there is one.
#[verifier::external_body]
fn first_value(headers: &HeaderMap<HeaderValue>, name: &str) -> (r: Option<Vec<u8>>)
    requires
        is_name(name@),
    ensures
        match r {
            Some(bytes) => {
                let lines = header_lines(*headers);
                &&& lines.contains_key(lower_name(name@))
                &&& lines[lower_name(name@)].len() > 0
                &&& bytes@ == lines[lower_name(name@)][0]
            },
            None => !header_lines(*headers).contains_key(lower_name(name@)),
        },
{
    headers.get(name).map(|value| value.as_bytes().to_vec())
}

/// `HeaderMap::keys_len`: the number of names.
#[verifier::external_body]
fn count_names(headers: &HeaderMap<HeaderValue>) -> (n: usize)
    ensures
        has_names(header_lines(*headers), n as int),
{
    headers.keys_len()
}

/// Whether the header map has room for `more` names.
pub fn room_for(headers: &HeaderMap<HeaderValue>, more: usize) -> (r: bool)
    ensures
        r == has_room(*headers, more as int),
{
    let n: usize = count_names(headers);
    n <= MOST_NAMES + 1 && more <= MOST_NAMES + 1 - n
}

/// `HeaderMap::remove` with a text for a name: takes all values under the name
/// away.
#[verifier::external_body]
pub(crate) fn remove_lines(headers: &mut HeaderMap<HeaderValue>, name: &str)
    requires
        is_plain_name(name@),
    ensures
        header_lines(*final(headers)) == header_lines(*old(headers)).remove(name@),
{
    headers.remove(name);
}

/// `HeaderMap::try_insert`: puts the value under the name in place of all that
/// were there. It may fail where the map is full, and then leaves the lines as
/// they are.
#[verifier::external_body]
pub(crate) fn try_replace_lines(
    headers: &mut HeaderMap<HeaderValue>,
    name: &'static str,
    value: HeaderValue,
) -> (r: bool)
    requires
        is_plain_name(name@),
    ensures
        header_lines(*final(headers)) == if r {
            header_lines(*old(headers)).insert(name@, seq![value_bytes(value)])
        } else {
            header_lines(*old(headers))
        },
        has_room(*old(headers), 1) ==> r,
{
    headers.try_insert(name, value).is_ok()
}

/// The values under `name`, none where there is no such name.
pub open spec fn lines_under(lines: Map<Seq<char>, Seq<Seq<u8>>>, name: Seq<char>) -> Seq<Seq<u8>> {
    if lines.contains_key(name) {
        lines[name]
    } else {
        Seq::empty()
    }
}

/// Header lines with one value more under `name`, behind those that are there.
pub open spec fn with_line(
    lines: Map<Seq<char>, Seq<Seq<u8>>>,
    name: Seq<char>,
    value: Seq<u8>,
) -> Map<Seq<char>, Seq<Seq<u8>>> {
    lines.insert(name, lines_under(lines, name).push(value))
}

/// `HeaderMap::try_append`: adds a value under the name, behind those that are
/// there. It may fail where the map is full, and then leaves it as it is.
#[verifier::external_body]
pub(crate) fn try_add_line(
    headers: &mut HeaderMap<HeaderValue>,
    name: &'static str,
    value: HeaderValue,
) -> (r: bool)
    requires
        is_plain_name(name@),
    ensures
        header_lines(*final(headers)) == if r {
            with_line(header_lines(*old(headers)), name@, value_bytes(value))
        } else {
            header_lines(*old(headers))
        },
        has_room(*old(headers), 1) ==> r,
{
    headers.try_append(name, value).is_ok()
}

/// `HeaderMap::clone`: a map with the same lines.
#[verifier::external_body]
pub(crate) fn copy_headers(headers: &HeaderMap<HeaderValue>) -> (r: HeaderMap<HeaderValue>)
    ensures
        header_lines(r) == header_lines(*headers),
{
    headers.clone()
}

/// Whether all of these bytes read as text.
pub open spec fn all_visible(bytes: Seq<u8>) -> bool {
    forall|i: int| 0 <= i < bytes.len() ==> is_visible(#[trigger] bytes[i])
}

/// Bytes below 128 as the characters that they stand for.
pub open spec fn ascii_text(bytes: Seq<u8>) -> Seq<char> {
    bytes.map_values(|b: u8| b as char)
}

/// The first value under `name` as a text, if the name can be looked for and
/// there is a value that reads as text.
pub open spec fn header_text(lines: Map<Seq<char>, Seq<Seq<u8>>>, name: Seq<char>) -> Option<
    Seq<char>,
> {
    let lower = lower_name(name);
    if is_name(name) && lines.contains_key(lower) && all_visible(lines[lower][0]) {
        Some(ascii_text(lines[lower][0]))
    } else {
        None
    }
}

/// Whether a header with this name can be looked for.
fn can_be_looked_for(name: &str) -> (r: bool)
    ensures
        r == is_name(name@),
{
    let chars = text::chars_of(name);
    let n: usize = chars.len();
    let mut i: usize = 0;
    while i < n
        invariant
            i <= n,
            n == chars@.len(),
            chars@ == name@,
            forall|k: int| 0 <= k < i ==> is_name_char(#[trigger] name@[k]),
        decreases n - i,
    {
        let c: char = chars[i];
        let letter = ('a' <= c && c <= 'z') || ('A' <= c && c <= 'Z');
        let digit = '0' <= c && c <= '9';
        let mark = c == '!' || c == '#' || c == '$' || c == '%' || c == '&' || c == '\'' || c == '*'
            || c == '+' || c == '-' || c == '.' || c == '^' || c == '_' || c == '`' || c == '|' || c
            == '~';
        if !letter && !digit && !mark {
            assert(!is_name_char(name@[i as int]));
            return false;
        }
        i = i + 1;
    }
    true
}

/// The first value under `name` as a text.
pub fn text_of_header(headers: &HeaderMap<HeaderValue>, name: &str) -> (r: Option<String>)
    ensures
        text::opt_text(r) == header_text(header_lines(*headers), name@),
{
    if !can_be_looked_for(name) {
        return None;
    }
    match first_value(headers, name) {
        Some(bytes) => visible_text(&bytes),
        None => None,
    }
}

/// Bytes as a text, if all of them read as text.
fn visible_text(bytes: &Vec<u8>) -> (r: Option<String>)
    ensures
        text::opt_text(r) == if all_visible(bytes@) {
            Some(ascii_text(bytes@))
        } else {
            None
        },
{
    let mut text = String::new();
    let n: usize = bytes.len();
    let mut i: usize = 0;
    while i < n
        invariant
            i <= n,
            n == bytes@.len(),
            text@ == ascii_text(bytes@.take(i as int)),
            forall|k: int| 0 <= k < i ==> is_visible(#[trigger] bytes@[k]),
        decreases n - i,
    {
        let b: u8 = bytes[i];
        if !((b >= 32 && b < 127) || b == 9) {
            assert(!is_visible(bytes@[i as int]));
            return None;
        }
        text.push(b as char);
        assert(text@ =~= ascii_text(bytes@.take(i + 1)));
        i = i + 1;
    }
    assert(bytes@.take(n as int) =~= bytes@);
    Some(text)
}

/// What a header says is the first of its values, byte for byte, if all of its
/// bytes are visible characters, spaces or tabs; nothing where there is no such
/// header.
pub proof fn a_header_says_its_first_value(
    lines: Map<Seq<char>, Seq<Seq<u8>>>,
    name: Seq<char>,
    value: Seq<char>,
)
    requires
        forall|i: int|
            0 <= i < name.len() ==> 'a' <= (#[trigger] name[i]) && name[i] <= 'z' || '0' <= name[i]
                && name[i] <= '9' || name[i] == '-',
    ensures
        header_text(lines, name) == Some(value) <==> {
            &&& lines.contains_key(name)
            &&& lines[name][0].len() == value.len()
            &&& forall|i: int|
                0 <= i < value.len() ==> {
                    let b = #[trigger] lines[name][0][i];
                    (b == 9 || 32 <= b <= 126) && value[i] == b as char
                }
        },
        !lines.contains_key(name) ==> header_text(lines, name) is None,
{
    assert(lower_name(name) =~= name);
    assert(is_name(name)) by {
        assert forall|i: int| 0 <= i < name.len() implies is_name_char(#[trigger] name[i]) by {}
    }
    let bytes = lines[name][0];
    if header_text(lines, name) == Some(value) {
        assert forall|i: int| 0 <= i < value.len() implies {
            let b = #[trigger] lines[name][0][i];
            (b == 9 || 32 <= b <= 126) && value[i] == b as char
        } by {
            assert(is_visible(bytes[i]));
            assert(value[i] == ascii_text(bytes)[i]);
        }
    }
    if lines.contains_key(name) && bytes.len() == value.len() && (forall|i: int|
        0 <= i < value.len() ==> {
            let b = #[trigger] lines[name][0][i];
            (b == 9 || 32 <= b <= 126) && value[i] == b as char
        }) {
        assert(all_visible(bytes)) by {
            assert forall|i: int| 0 <= i < bytes.len() implies is_visible(#[trigger] bytes[i]) by {
                assert(lines[name][0][i] == bytes[i]);
            }
        }
        assert(ascii_text(bytes) =~= value) by {
            assert forall|i: int| 0 <= i < bytes.len() implies ascii_text(bytes)[i] == value[i] by {
                assert(lines[name][0][i] == bytes[i]);
            }
        }
    }
}

/// The case of the letters in the name of a header does not count.
pub proof fn the_case_of_a_name_does_not_count(
    lines: Map<Seq<char>, Seq<Seq<u8>>>,
    name: Seq<char>,
    other: Seq<char>,
)
    requires
        name.len() == other.len(),
        forall|i: int|
            0 <= i < name.len() ==> (#[trigger] name[i]) == other[i] || 'A' <= other[i] && other[i]
                <= 'Z' && name[i] == (other[i] as u32 + 32) as char,
    ensures
        header_text(lines, name) == header_text(lines, other),
{
    assert forall|i: int| 0 <= i < name.len() implies lower(name[i]) == lower(other[i]) by {
    }
    assert(lower_name(name) =~= lower_name(other));
    assert forall|i: int| 0 <= i < name.len() implies is_name_char(name[i]) == is_name_char(
        other[i],
    ) by {
        if name[i] != other[i] {
            assert('a' <= name[i] && name[i] <= 'z');
        }
    }
    if is_name(name) {
        assert forall|i: int| 0 <= i < other.len() implies is_name_char(#[trigger] other[i]) by {
            assert(is_name_char(name[i]));
        }
    }
    if is_name(other) {
        assert forall|i: int| 0 <= i < name.len() implies is_name_char(#[trigger] name[i]) by {
            assert(is_name_char(other[i]));
        }
    }
}

} // verus!
