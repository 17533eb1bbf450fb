//! Reading JSON texts member by member.
//!
//! The values of an object or an array are handed on as the texts that they
//! were written with, to be read for what each of them is expected to be.

use crate::text;
use serde::de::IgnoredAny;
use serde_json::value::RawValue;
use serde_json::Value;
use std::collections::BTreeMap;
use vstd::prelude::*;

verus! {

/// What the audience of a token is, where it is read from JSON.
#[derive(Debug)]
pub enum Audience {
    /// There is none.
    Absent,
    /// A text.
    One(String),
    /// An array, with the texts among its elements.
    Many(Vec<Option<String>>),
    /// Anything else.
    Other,
}

/// An audience as the contracts see it.
pub enum AudienceView {
    Absent,
    One(Seq<char>),
    Many(Seq<Option<Seq<char>>>),
    Other,
}

impl View for Audience {
    type V = AudienceView;

    open spec fn view(&self) -> AudienceView {
        match *self {
            Audience::Absent => AudienceView::Absent,
            Audience::One(s) => AudienceView::One(s@),
            Audience::Many(v) => AudienceView::Many(v@.map_values(|s: Option<String>| text::opt_text(s))),
            Audience::Other => AudienceView::Other,
        }
    }
}

/// Whether a JSON text is an object, whatever the values of its members are.
pub uninterp spec fn json_is_object(json: Seq<u8>) -> bool;

/// The texts of the elements of the array that a JSON text is, if it is one.
pub uninterp spec fn json_elements(json: Seq<u8>) -> Option<Seq<Seq<u8>>>;

/// The string that a JSON text is, if it is one.
pub uninterp spec fn json_string(json: Seq<u8>) -> Option<Seq<char>>;

/// The string that a JSON text is, or nothing for `null`, if it is one of
/// these.
pub uninterp spec fn json_optional_string(json: Seq<u8>) -> Option<Option<Seq<char>>>;

/// The integer that a JSON text is, or nothing for `null`, if it is one of
/// these.
pub uninterp spec fn json_optional_integer(json: Seq<u8>) -> Option<Option<i64>>;

/// Whether a JSON text is an array of one value that can be held: its strings
/// are Unicode texts, its numbers are not too large, and it is not nested too
/// deep.
pub uninterp spec fn json_holds_one(json: Seq<u8>) -> bool;

/// Members, as their contracts see them: the texts of the name and of the value.
pub open spec fn member_views(members: Seq<(Vec<u8>, Vec<u8>)>) -> Seq<(Seq<u8>, Seq<u8>)> {
    members.map_values(|m: (Vec<u8>, Vec<u8>)| (m.0@, m.1@))
}

/// A list that may be missing, by the views of its elements.
pub open spec fn opt_elements(r: Option<Vec<Vec<u8>>>) -> Option<Seq<Seq<u8>>> {
    match r {
        Some(v) => Some(v@.map_values(|e: Vec<u8>| e@)),
        None => None,
    }
}

/// A text of letters and digits, which JSON writes as it is.
pub open spec fn is_plain(s: Seq<char>) -> bool {
    forall|i: int| 0 <= i < s.len() ==> is_plain_char(#[trigger] s[i])
}

pub open spec fn is_plain_char(c: char) -> bool {
    ('a' <= c && c <= 'z') || ('A' <= c && c <= 'Z') || ('0' <= c && c <= '9')
}

/// A plain text as a JSON string.
pub open spec fn quoted(s: Seq<char>) -> Seq<char> {
    seq!['"'] + s + seq!['"']
}

/// A JSON object of two members whose values are plain texts.
pub open spec fn object_of_two(a: Seq<char>, x: Seq<char>, b: Seq<char>, y: Seq<char>) -> Seq<
    char,
> {
    seq!['{'] + quoted(a) + seq![':'] + quoted(x) + seq![','] + quoted(b) + seq![':'] + quoted(y)
        + seq!['}']
}

/// `serde_json::from_slice` into a map of values that are passed over: whether a
/// JSON text is an object. The names of its members are read, their values are
/// only gone over. Which texts are objects is named; of an object of two plain
/// members it is also said.
#[verifier::external_body]
pub(crate) fn reads_as_object(json: &[u8]) -> (r: bool)
    ensures
        r == json_is_object(json@),
        forall|a: Seq<char>, x: Seq<char>, b: Seq<char>, y: Seq<char>|
            is_plain(a) && is_plain(x) && is_plain(b) && is_plain(y) && json@ == text::utf8(
                #[trigger] object_of_two(a, x, b, y),
            ) ==> r,
{
    serde_json::from_slice::<BTreeMap<String, IgnoredAny>>(json).is_ok()
}

/// `serde_json::from_slice` into a list of raw values: reads a JSON array,
/// keeping the text of each element. What the elements of a text are is named.
#[verifier::external_body]
pub(crate) fn read_elements(json: &[u8]) -> (r: Option<Vec<Vec<u8>>>)
    ensures
        opt_elements(r) == json_elements(json@),
{
    let read: Option<Vec<Box<RawValue>>> = serde_json::from_slice(json).ok();
    read.map(|l| l.into_iter().map(|v| v.get().as_bytes().to_vec()).collect())
}

/// `serde_json::from_slice` into a `String`: reads a JSON string. What the
/// string of a text is is named; of a plain text in quotes it is also said.
#[verifier::external_body]
pub(crate) fn read_string(json: &[u8]) -> (r: Option<String>)
    ensures
        text::opt_text(r) == json_string(json@),
        forall|x: Seq<char>|
            is_plain(x) && json@ == text::utf8(#[trigger] quoted(x)) ==> text::opt_text(r) == Some(x),
{
    serde_json::from_slice(json).ok()
}

/// A string that may be missing and may be null, as its characters.
pub open spec fn opt_opt_text(r: Option<Option<String>>) -> Option<Option<Seq<char>>> {
    match r {
        Some(s) => Some(text::opt_text(s)),
        None => None,
    }
}

/// `serde_json::from_slice` into an `Option<String>`: reads a JSON string or
/// `null`. What it reads is named.
#[verifier::external_body]
pub(crate) fn read_optional_string(json: &[u8]) -> (r: Option<Option<String>>)
    ensures
        opt_opt_text(r) == json_optional_string(json@),
{
    serde_json::from_slice(json).ok()
}

/// `serde_json::from_slice` into an `Option<i64>`: reads a JSON number that is
/// an integer of 64 bits, or `null`. What it reads is named.
#[verifier::external_body]
pub(crate) fn read_optional_integer(json: &[u8]) -> (r: Option<Option<i64>>)
    ensures
        r == json_optional_integer(json@),
{
    serde_json::from_slice(json).ok()
}

/// An audience that may be missing, by its view.
pub open spec fn opt_audience(r: Option<Audience>) -> Option<AudienceView> {
    match r {
        Some(a) => Some(a@),
        None => None,
    }
}

/// A JSON text as the only element of an array.
pub open spec fn array_of_one(json: Seq<u8>) -> Seq<u8> {
    seq![OPEN_BRACKET] + json + seq![CLOSE_BRACKET]
}

/// Puts a JSON text into an array.
pub fn put_into_array(json: &[u8]) -> (r: Vec<u8>)
    ensures
        r@ == array_of_one(json@),
{
    let n: usize = json.len();
    let mut r: Vec<u8> = Vec::new();
    r.push(OPEN_BRACKET);
    let mut i: usize = 0;
    assert(r@ =~= seq![OPEN_BRACKET] + json@.take(0));
    while i < n
        invariant
            i <= n,
            n == json@.len(),
            r@ == seq![OPEN_BRACKET] + json@.take(i as int),
        decreases n - i,
    {
        r.push(json[i]);
        i = i + 1;
        assert(r@ =~= seq![OPEN_BRACKET] + json@.take(i as int));
    }
    r.push(CLOSE_BRACKET);
    assert(r@ =~= array_of_one(json@));
    r
}

/// `serde_json::from_slice` into a tuple of one `Value`: reads an array of any
/// one JSON value. Whether it succeeds is named.
#[verifier::external_body]
fn reads_one(json: &[u8]) -> (r: bool)
    ensures
        r == json_holds_one(json@),
{
    serde_json::from_slice::<(Value,)>(json).is_ok()
}

/// The audience that a value stands for, if it can be held. It may be nested as
/// deep as where it was found, inside an object or an array, which is why it is
/// tried inside one.
pub open spec fn audience_of(value: Seq<u8>) -> Option<AudienceView> {
    if !json_holds_one(array_of_one(value)) {
        None
    } else {
        match json_optional_string(value) {
            Some(Some(s)) => Some(AudienceView::One(s)),
            Some(None) => Some(AudienceView::Absent),
            None => match json_elements(value) {
                Some(elements) => Some(
                    AudienceView::Many(elements.map_values(|e: Seq<u8>| json_string(e))),
                ),
                None => Some(AudienceView::Other),
            },
        }
    }
}

/// Reads the audience that a value stands for.
pub fn read_audience(value: &[u8]) -> (r: Option<Audience>)
    ensures
        opt_audience(r) == audience_of(value@),
{
    if !reads_one(put_into_array(value).as_slice()) {
        return None;
    }
    match read_optional_string(value) {
        Some(Some(s)) => Some(Audience::One(s)),
        Some(None) => Some(Audience::Absent),
        None => match read_elements(value) {
            Some(elements) => {
                let strings = read_strings(&elements);
                Some(Audience::Many(strings))
            },
            None => Some(Audience::Other),
        },
    }
}

/// The strings among the elements of an array.
fn read_strings(elements: &Vec<Vec<u8>>) -> (r: Vec<Option<String>>)
    ensures
        r@.map_values(|s: Option<String>| text::opt_text(s)) == elements@.map_values(
            |e: Vec<u8>| e@,
        ).map_values(|e: Seq<u8>| json_string(e)),
{
    let n: usize = elements.len();
    let mut r: Vec<Option<String>> = Vec::new();
    let mut i: usize = 0;
    while i < n
        invariant
            i <= n,
            n == elements@.len(),
            r@.len() == i,
            forall|k: int|
                0 <= k < i ==> text::opt_text(#[trigger] r@[k]) == json_string(elements@[k]@),
        decreases n - i,
    {
        r.push(read_string(elements[i].as_slice()));
        i = i + 1;
    }
    assert(r@.map_values(|s: Option<String>| text::opt_text(s)) =~= elements@.map_values(
        |e: Vec<u8>| e@,
    ).map_values(|e: Seq<u8>| json_string(e)));
    r
}

/// Where a string that is open at place `i` ends: behind the next quote that
/// no backslash stands before, or at the end of the text.
pub open spec fn string_end(json: Seq<u8>, i: int) -> int
    decreases json.len() - i,
{
    if i >= json.len() {
        json.len() as int
    } else if json[i] == QUOTE {
        i + 1
    } else if json[i] == BACKSLASH && i + 1 < json.len() {
        string_end(json, i + 2)
    } else {
        string_end(json, i + 1)
    }
}

/// Where the first colon from place `i` on stands, or the end of the text.
pub open spec fn colon_from(json: Seq<u8>, i: int) -> int
    decreases json.len() - i,
{
    if i >= json.len() {
        json.len() as int
    } else if json[i] == COLON {
        i
    } else {
        colon_from(json, i + 1)
    }
}

/// Where a value ends that has been gone over to place `i`, which stands `depth`
/// brackets deep in it: before the comma or bracket that follows it, or at the
/// end of the text.
pub open spec fn value_end(json: Seq<u8>, i: int, depth: nat) -> int
    decreases json.len() - i,
{
    if i >= json.len() {
        json.len() as int
    } else if json[i] == QUOTE {
        proof {
            lemma_string_end(json, i + 1);
        }
        value_end(json, string_end(json, i + 1), depth)
    } else if json[i] == OPEN_BRACE || json[i] == OPEN_BRACKET {
        value_end(json, i + 1, depth + 1)
    } else if json[i] == CLOSE_BRACE || json[i] == CLOSE_BRACKET {
        if depth == 0 {
            i
        } else {
            value_end(json, i + 1, (depth - 1) as nat)
        }
    } else if json[i] == COMMA && depth == 0 {
        i
    } else {
        value_end(json, i + 1, depth)
    }
}

/// Where the value of a member begins whose name ends at place `i`.
pub open spec fn value_start(json: Seq<u8>, i: int) -> int {
    let colon = colon_from(json, i);
    if colon < json.len() {
        colon + 1
    } else {
        colon
    }
}

/// The members of a JSON object from place `i` on, which no member stands
/// across: the texts of their names and of their values.
pub open spec fn members_from(json: Seq<u8>, i: int) -> Seq<(Seq<u8>, Seq<u8>)>
    decreases json.len() - i,
{
    if i >= json.len() {
        Seq::empty()
    } else if json[i] == QUOTE {
        let end = string_end(json, i + 1);
        let start = value_start(json, end);
        let stop = value_end(json, start, 0);
        proof {
            lemma_member_bounds(json, i);
        }
        seq![(json.subrange(i, end), json.subrange(start, stop))] + members_from(json, stop)
    } else {
        members_from(json, i + 1)
    }
}

/// `"`
pub const QUOTE: u8 = 34;

/// `,`
pub const COMMA: u8 = 44;

/// `:`
pub const COLON: u8 = 58;

/// `[`
pub const OPEN_BRACKET: u8 = 91;

/// `\`
pub const BACKSLASH: u8 = 92;

/// `]`
pub const CLOSE_BRACKET: u8 = 93;

/// `{`
pub const OPEN_BRACE: u8 = 123;

/// `}`
pub const CLOSE_BRACE: u8 = 125;

/// A string ends within the text, and not before it begins.
pub proof fn lemma_string_end(json: Seq<u8>, i: int)
    ensures
        string_end(json, i) <= json.len(),
        i <= json.len() ==> i <= string_end(json, i),
    decreases json.len() - i,
{
    if i < json.len() && json[i] != QUOTE {
        if json[i] == BACKSLASH && i + 1 < json.len() {
            lemma_string_end(json, i + 2);
        } else {
            lemma_string_end(json, i + 1);
        }
    }
}

/// Where the string that is open at place `i` ends.
fn skip_string(json: &[u8], i: usize) -> (end: usize)
    requires
        i <= json@.len(),
    ensures
        end == string_end(json@, i as int),
        i <= end <= json@.len(),
{
    let n: usize = json.len();
    let mut at: usize = i;
    while at < n
        invariant
            i <= at <= n,
            n == json@.len(),
            string_end(json@, at as int) == string_end(json@, i as int),
        decreases n - at,
    {
        if json[at] == QUOTE {
            return at + 1;
        }
        if json[at] == BACKSLASH && n - at > 1 {
            at = at + 2;
        } else {
            at = at + 1;
        }
    }
    n
}

proof fn lemma_colon_from(json: Seq<u8>, i: int)
    ensures
        colon_from(json, i) <= json.len(),
        i <= json.len() ==> i <= colon_from(json, i),
    decreases json.len() - i,
{
    if i < json.len() && json[i] != COLON {
        lemma_colon_from(json, i + 1);
    }
}

proof fn lemma_value_end(json: Seq<u8>, i: int, depth: nat)
    ensures
        value_end(json, i, depth) <= json.len(),
        i <= json.len() ==> i <= value_end(json, i, depth),
    decreases json.len() - i,
{
    if i < json.len() {
        if json[i] == QUOTE {
            lemma_string_end(json, i + 1);
            lemma_value_end(json, string_end(json, i + 1), depth);
        } else if json[i] == OPEN_BRACE || json[i] == OPEN_BRACKET {
            lemma_value_end(json, i + 1, depth + 1);
        } else if json[i] == CLOSE_BRACE || json[i] == CLOSE_BRACKET {
            if depth > 0 {
                lemma_value_end(json, i + 1, (depth - 1) as nat);
            }
        } else {
            lemma_value_end(json, i + 1, depth);
        }
    }
}

/// The name of a member stands before its value, and both within the text.
pub proof fn lemma_member_bounds(json: Seq<u8>, i: int)
    requires
        i < json.len(),
    ensures
        ({
            let end = string_end(json, i + 1);
            let start = value_start(json, end);
            i < end <= start <= value_end(json, start, 0) <= json.len()
        }),
{
    lemma_string_end(json, i + 1);
    lemma_colon_from(json, string_end(json, i + 1));
    lemma_value_end(json, value_start(json, string_end(json, i + 1)), 0);
}

/// Where the value of a member begins whose name ends at place `i`.
fn skip_colon(json: &[u8], i: usize) -> (start: usize)
    requires
        i <= json@.len(),
    ensures
        start == value_start(json@, i as int),
        i <= start <= json@.len(),
{
    let n: usize = json.len();
    let mut at: usize = i;
    while at < n
        invariant
            i <= at <= n,
            n == json@.len(),
            colon_from(json@, at as int) == colon_from(json@, i as int),
        decreases n - at,
    {
        if json[at] == COLON {
            return at + 1;
        }
        at = at + 1;
    }
    n
}

/// Where the value ends that begins at place `i`.
fn skip_value(json: &[u8], i: usize) -> (end: usize)
    requires
        i <= json@.len(),
    ensures
        end == value_end(json@, i as int, 0),
        i <= end <= json@.len(),
{
    let n: usize = json.len();
    let mut at: usize = i;
    let mut depth: usize = 0;
    while at < n
        invariant
            i <= at <= n,
            n == json@.len(),
            depth <= at,
            value_end(json@, at as int, depth as nat) == value_end(json@, i as int, 0),
        decreases n - at,
    {
        let b: u8 = json[at];
        if b == QUOTE {
            at = skip_string(json, at + 1);
        } else if b == OPEN_BRACE || b == OPEN_BRACKET {
            depth = depth + 1;
            at = at + 1;
        } else if b == CLOSE_BRACE || b == CLOSE_BRACKET {
            if depth == 0 {
                return at;
            }
            depth = depth - 1;
            at = at + 1;
        } else if b == COMMA && depth == 0 {
            return at;
        } else {
            at = at + 1;
        }
    }
    n
}

/// The members of the object that a JSON text is, in their order: the texts of
/// their names and of their values.
pub fn members(json: &[u8]) -> (r: Vec<(Vec<u8>, Vec<u8>)>)
    ensures
        member_views(r@) == members_from(json@, 0),
{
    let n: usize = json.len();
    let mut r: Vec<(Vec<u8>, Vec<u8>)> = Vec::new();
    let ghost all = members_from(json@, 0);
    let mut i: usize = 0;
    assert(member_views(r@) + all =~= all);
    while i < n
        invariant
            i <= n,
            n == json@.len(),
            member_views(r@) + members_from(json@, i as int) == all,
        decreases n - i,
    {
        if json[i] == QUOTE {
            let end: usize = skip_string(json, i + 1);
            let start: usize = skip_colon(json, end);
            let stop: usize = skip_value(json, start);
            let ghost found = member_views(r@);
            let name = text::bytes_between(json, i, end);
            let value = text::bytes_between(json, start, stop);
            proof {
                lemma_member_bounds(json@, i as int);
                let rest = members_from(json@, stop as int);
                assert(found.push((name@, value@)) + rest =~= found + (seq![(name@, value@)]
                    + rest));
            }
            r.push((name, value));
            assert(member_views(r@) =~= found.push((name@, value@)));
            i = stop;
        } else {
            i = i + 1;
        }
    }
    assert(member_views(r@) + Seq::<(Seq<u8>, Seq<u8>)>::empty() =~= member_views(r@));
    r
}

proof fn lemma_plain_run(json: Seq<u8>, i: int, j: int)
    requires
        0 <= i <= j < json.len(),
        json[j] == QUOTE,
        forall|k: int| i <= k < j ==> #[trigger] json[k] != QUOTE && json[k] != BACKSLASH,
    ensures
        string_end(json, i) == j + 1,
    decreases j - i,
{
    if i < j {
        assert(json[i] != QUOTE);
        lemma_plain_run(json, i + 1, j);
    }
}

/// A plain text in quotes is a string that ends at its second quote.
proof fn lemma_quoted_at(json: Seq<u8>, i: int, s: Seq<char>)
    requires
        is_plain(s),
        0 <= i,
        i + s.len() + 2 <= json.len(),
        forall|k: int| 0 <= k < s.len() + 2 ==> json[i + k] == #[trigger] quoted(s)[k] as u8,
    ensures
        json[i] == QUOTE,
        string_end(json, i + 1) == i + s.len() + 2,
        json.subrange(i, i + s.len() + 2) == text::utf8(quoted(s)),
{
    let q = quoted(s);
    assert(q.len() == s.len() + 2);
    assert(json[i + 0] == q[0] as u8);
    let j = i + s.len() + 1;
    let last = s.len() as int + 1;
    assert(json[i + last] == q[last] as u8);
    assert forall|k: int| i + 1 <= k < j implies #[trigger] json[k] != QUOTE && json[k]
        != BACKSLASH by {
        assert(json[i + (k - i)] == q[k - i] as u8);
        assert(q[k - i] == s[k - i - 1]);
        assert(is_plain_char(s[k - i - 1]));
    }
    lemma_plain_run(json, i + 1, j);
    lemma_quoted_is_ascii(s);
    vstd::utf8::is_ascii_chars_encode_utf8(q);
    assert forall|k: int| 0 <= k < q.len() implies json.subrange(i, i + s.len() + 2)[k]
        == text::utf8(q)[k] by {
        assert(json[i + k] == q[k] as u8);
    }
    assert(json.subrange(i, i + s.len() + 2) =~= text::utf8(q));
}

/// The members of an object of two plain members are those that it was made of.
pub proof fn members_of_object_of_two(a: Seq<char>, x: Seq<char>, b: Seq<char>, y: Seq<char>)
    requires
        is_plain(a),
        is_plain(x),
        is_plain(b),
        is_plain(y),
    ensures
        members_from(text::utf8(object_of_two(a, x, b, y)), 0) == seq![
            (text::utf8(quoted(a)), text::utf8(quoted(x))),
            (text::utf8(quoted(b)), text::utf8(quoted(y))),
        ],
{
    let o = object_of_two(a, x, b, y);
    let at_a = 1int;
    let at_x = at_a + a.len() + 3;
    let at_b = at_x + x.len() + 3;
    let at_y = at_b + b.len() + 3;
    let end = at_y + y.len() + 2;
    assert(o.len() == end + 1);
    assert forall|k: int| 0 <= k < a.len() + 2 implies o[at_a + k] == #[trigger] quoted(a)[k] by {}
    assert forall|k: int| 0 <= k < x.len() + 2 implies o[at_x + k] == #[trigger] quoted(x)[k] by {}
    assert forall|k: int| 0 <= k < b.len() + 2 implies o[at_b + k] == #[trigger] quoted(b)[k] by {}
    assert forall|k: int| 0 <= k < y.len() + 2 implies o[at_y + k] == #[trigger] quoted(y)[k] by {}
    assert(o[0] == '{' && o[at_x - 1] == ':' && o[at_b - 1] == ',' && o[at_y - 1] == ':' && o[end]
        == '}');
    assert(vstd::utf8::is_ascii_chars(o)) by {
        lemma_quoted_is_ascii(a);
        lemma_quoted_is_ascii(x);
        lemma_quoted_is_ascii(b);
        lemma_quoted_is_ascii(y);
    }
    vstd::utf8::is_ascii_chars_encode_utf8(o);
    let json = text::utf8(o);
    assert(json.len() == o.len());
    assert forall|k: int| 0 <= k < a.len() + 2 implies json[at_a + k] == #[trigger] quoted(a)[k] as u8 by {
        assert(o[at_a + k] == quoted(a)[k]);
    }
    assert forall|k: int| 0 <= k < x.len() + 2 implies json[at_x + k] == #[trigger] quoted(x)[k] as u8 by {
        assert(o[at_x + k] == quoted(x)[k]);
    }
    assert forall|k: int| 0 <= k < b.len() + 2 implies json[at_b + k] == #[trigger] quoted(b)[k] as u8 by {
        assert(o[at_b + k] == quoted(b)[k]);
    }
    assert forall|k: int| 0 <= k < y.len() + 2 implies json[at_y + k] == #[trigger] quoted(y)[k] as u8 by {
        assert(o[at_y + k] == quoted(y)[k]);
    }
    lemma_quoted_at(json, at_a, a);
    lemma_quoted_at(json, at_x, x);
    lemma_quoted_at(json, at_b, b);
    lemma_quoted_at(json, at_y, y);
    assert(json[0] == OPEN_BRACE);
    assert(json[at_x - 1] == COLON);
    assert(json[at_b - 1] == COMMA);
    assert(json[at_y - 1] == COLON);
    assert(json[end] == CLOSE_BRACE);
    assert(value_end(json, at_x + x.len() + 2, 0) == at_b - 1);
    assert(value_end(json, at_x, 0) == at_b - 1);
    assert(value_end(json, at_y + y.len() + 2, 0) == end);
    assert(value_end(json, at_y, 0) == end);
    assert(members_from(json, end + 1) =~= Seq::<(Seq<u8>, Seq<u8>)>::empty());
    assert(members_from(json, end) =~= Seq::<(Seq<u8>, Seq<u8>)>::empty());
    let second = (text::utf8(quoted(b)), text::utf8(quoted(y)));
    assert(value_start(json, at_b + b.len() + 2) == at_y);
    assert(members_from(json, at_b) =~= seq![second]);
    assert(members_from(json, at_b - 1) =~= seq![second]);
    let first = (text::utf8(quoted(a)), text::utf8(quoted(x)));
    assert(value_start(json, at_a + a.len() + 2) == at_x);
    assert(members_from(json, at_a) =~= seq![first, second]);
}

proof fn lemma_quoted_is_ascii(s: Seq<char>)
    requires
        is_plain(s),
    ensures
        vstd::utf8::is_ascii_chars(quoted(s)),
{
    assert forall|k: int| 0 <= k < quoted(s).len() implies '\0' <= #[trigger] quoted(s)[k]
        <= '\u{7f}' by {
        if 0 < k <= s.len() {
            assert(quoted(s)[k] == s[k - 1]);
            assert(is_plain_char(s[k - 1]));
        }
    }
}

/// An audience is a string, an array in which the strings count, or nothing,
/// which `null` is too. Any other value is none that a token is meant for.
pub proof fn audiences_are_strings_or_arrays(value: Seq<u8>)
    requires
        json_holds_one(seq![91u8] + value + seq![93u8]),
    ensures
        match audience_of(value) {
            Some(AudienceView::One(s)) => json_optional_string(value) == Some(Some(s)),
            Some(AudienceView::Absent) => json_optional_string(value)
                == Some(None::<Seq<char>>),
            Some(AudienceView::Many(list)) => {
                &&& json_optional_string(value) is None
                &&& json_elements(value) is Some
                &&& list.len() == json_elements(value)->0.len()
                &&& forall|i: int|
                    0 <= i < list.len() ==> #[trigger] list[i] == json_string(
                        json_elements(value)->0[i],
                    )
            },
            Some(AudienceView::Other) => json_optional_string(value) is None && json_elements(value)
                is None,
            None => false,
        },
{
}

/// Where a reader of a JSON text stands: how many brackets deep, and whether in a
/// string and there behind a backslash.
pub struct Stand {
    pub depth: int,
    pub in_string: bool,
    pub escaped: bool,
}

/// Where a reader stands behind the first `n` bytes.
pub open spec fn stand_behind(json: Seq<u8>, n: int) -> Stand
    decreases n,
{
    if n <= 0 {
        Stand { depth: 0, in_string: false, escaped: false }
    } else {
        let s = stand_behind(json, n - 1);
        let b = json[n - 1];
        if s.in_string {
            if s.escaped {
                Stand { escaped: false, ..s }
            } else if b == 92 {
                Stand { escaped: true, ..s }
            } else if b == 34 {
                Stand { in_string: false, ..s }
            } else {
                s
            }
        } else if b == 34 {
            Stand { in_string: true, ..s }
        } else if b == 123 || b == 91 {
            Stand { depth: s.depth + 1, ..s }
        } else if b == 125 || b == 93 {
            Stand { depth: s.depth - 1, ..s }
        } else {
            s
        }
    }
}

/// Whether a text may stand for a value: its strings are closed, as are its
/// brackets, and outside of both there is no comma.
pub open spec fn is_closed_value(v: Seq<u8>) -> bool {
    &&& stand_behind(v, v.len() as int) == (Stand { depth: 0, in_string: false, escaped: false })
    &&& forall|k: int|
        0 <= k < v.len() ==> {
            let s = #[trigger] stand_behind(v, k);
            &&& s.depth >= 0
            &&& s.depth == 0 && !s.in_string ==> v[k] != 44 && v[k] != 125 && v[k] != 93
        }
}

/// Whether a text is a string in quotes, which ends with the second of them that
/// no backslash makes part of it.
pub open spec fn is_closed_string(v: Seq<u8>) -> bool {
    &&& v.len() >= 2
    &&& v[0] == 34
    &&& forall|k: int| 0 < k < v.len() ==> (#[trigger] stand_behind(v, k)).in_string
    &&& !stand_behind(v, v.len() as int).in_string
}

/// A member as it is written: what stands before its name, its name and its
/// value.
pub struct WrittenMember {
    pub lead: Seq<u8>,
    pub name: Seq<u8>,
    pub value: Seq<u8>,
}

/// Whether a member is written so that it can be told from what stands around it.
pub open spec fn is_written_well(m: WrittenMember) -> bool {
    &&& !m.lead.contains(34)
    &&& is_closed_string(m.name)
    &&& is_closed_value(m.value)
}

/// Members with a colon between each name and its value and commas between them.
pub open spec fn written(members: Seq<WrittenMember>) -> Seq<u8>
    decreases members.len(),
{
    if members.len() == 0 {
        Seq::empty()
    } else {
        let m = members[0];
        let first = m.lead + m.name + seq![58u8] + m.value;
        if members.len() == 1 {
            first
        } else {
            first + seq![44u8] + written(members.drop_first())
        }
    }
}

proof fn lemma_open_string(pre: Seq<u8>, v: Seq<u8>, post: Seq<u8>, k: int) -> (m: int)
    requires
        0 <= k <= v.len(),
        stand_behind(v, k).in_string,
        !stand_behind(v, k).escaped,
        !stand_behind(v, v.len() as int).in_string,
    ensures
        k < m <= v.len(),
        string_end(pre + v + post, pre.len() + k) == pre.len() + m,
        !stand_behind(v, m).in_string,
        stand_behind(v, m).depth == stand_behind(v, k).depth,
        !stand_behind(v, m).escaped,
        forall|l: int| k < l < m ==> (#[trigger] stand_behind(v, l)).in_string,
    decreases v.len() - k,
{
    let json = pre + v + post;
    let i = pre.len() + k;
    assert(k < v.len());
    assert(json[i] == v[k]);
    assert(stand_behind(v, k + 1).depth == stand_behind(v, k).depth);
    if v[k] == QUOTE {
        k + 1
    } else if v[k] == BACKSLASH {
        assert(stand_behind(v, k + 1).in_string);
        assert(k + 1 < v.len());
        assert(stand_behind(v, k + 2).in_string && !stand_behind(v, k + 2).escaped);
        let m = lemma_open_string(pre, v, post, k + 2);
        assert forall|l: int| k < l < m implies (#[trigger] stand_behind(v, l)).in_string by {
            assert(l == k + 1 || l == k + 2 || l > k + 2);
        }
        m
    } else {
        let m = lemma_open_string(pre, v, post, k + 1);
        assert forall|l: int| k < l < m implies (#[trigger] stand_behind(v, l)).in_string by {
            assert(l == k + 1 || l > k + 1);
        }
        m
    }
}

proof fn lemma_open_value(pre: Seq<u8>, v: Seq<u8>, post: Seq<u8>, k: int)
    requires
        is_closed_value(v),
        0 <= k <= v.len(),
        !stand_behind(v, k).in_string,
        !stand_behind(v, k).escaped,
        post.len() > 0,
        post[0] == 44 || post[0] == 125 || post[0] == 93,
    ensures
        value_end(pre + v + post, pre.len() + k, stand_behind(v, k).depth as nat) == pre.len()
            + v.len(),
    decreases v.len() - k,
{
    let json = pre + v + post;
    let i = pre.len() + k;
    let s = stand_behind(v, k);
    if k == v.len() {
        assert(json[i] == post[0]);
    } else {
        assert(json[i] == v[k]);
        assert(s.depth >= 0);
        if v[k] == QUOTE {
            assert(stand_behind(v, k + 1).in_string && !stand_behind(v, k + 1).escaped);
            assert(stand_behind(v, k + 1).depth == s.depth);
            let m = lemma_open_string(pre, v, post, k + 1);
            lemma_open_value(pre, v, post, m);
        } else {
            let next = stand_behind(v, k + 1);
            assert(!next.in_string && !next.escaped);
            if k + 1 < v.len() {
                assert(next.depth >= 0);
            }
            lemma_open_value(pre, v, post, k + 1);
        }
    }
}

/// A value ends where the strings and brackets that are opened in it are closed,
/// however deep they nest and whatever its strings hold.
pub proof fn a_value_ends_where_it_is_closed(pre: Seq<u8>, v: Seq<u8>, post: Seq<u8>)
    requires
        is_closed_value(v),
        post.len() > 0,
        post[0] == 44 || post[0] == 125 || post[0] == 93,
    ensures
        value_end(pre + v + post, pre.len() as int, 0) == pre.len() + v.len(),
{
    lemma_open_value(pre, v, post, 0);
}

/// A string ends with the first quote that no backslash makes part of it.
pub proof fn a_string_ends_where_it_is_closed(pre: Seq<u8>, v: Seq<u8>, post: Seq<u8>)
    requires
        is_closed_string(v),
    ensures
        string_end(pre + v + post, pre.len() as int + 1) == pre.len() + v.len(),
{
    reveal_with_fuel(stand_behind, 2);
    assert(stand_behind(v, 1).in_string && !stand_behind(v, 1).escaped);
    let m = lemma_open_string(pre, v, post, 1);
    if m < v.len() {
        assert(stand_behind(v, m).in_string);
    }
}

proof fn lemma_lead(json: Seq<u8>, i: int, n: int)
    requires
        0 <= i <= i + n <= json.len(),
        forall|k: int| i <= k < i + n ==> #[trigger] json[k] != 34,
    ensures
        members_from(json, i) == members_from(json, i + n),
    decreases n,
{
    if n > 0 {
        assert(json[i] != 34);
        lemma_lead(json, i + 1, n - 1);
    }
}

proof fn lemma_written(pre: Seq<u8>, members: Seq<WrittenMember>)
    requires
        forall|k: int| 0 <= k < members.len() ==> is_written_well(#[trigger] members[k]),
    ensures
        members_from(pre + written(members) + seq![125u8], pre.len() as int)
            == members.map_values(|m: WrittenMember| (m.name, m.value)),
    decreases members.len(),
{
    let json = pre + written(members) + seq![125u8];
    let views = members.map_values(|m: WrittenMember| (m.name, m.value));
    let i = pre.len() as int;
    if members.len() == 0 {
        assert(json[i] == 125);
        reveal_with_fuel(members_from, 2);
        assert(members_from(json, i) =~= views);
    } else {
        let m = members[0];
        let rest = members.drop_first();
        assert(is_written_well(m));
        let post = if members.len() == 1 {
            seq![125u8]
        } else {
            seq![44u8] + written(rest) + seq![125u8]
        };
        let at_name = pre + m.lead;
        let at_value = at_name + m.name + seq![58u8];
        assert(json =~= at_name + m.name + (seq![58u8] + m.value + post));
        assert(json =~= at_value + m.value + post);
        let n = at_name.len() as int;
        assert forall|k: int| i <= k < n implies #[trigger] json[k] != 34 by {
            assert(json[k] == m.lead[k - i]);
            assert(m.lead.contains(m.lead[k - i]));
        }
        lemma_lead(json, i, m.lead.len() as int);
        a_string_ends_where_it_is_closed(at_name, m.name, seq![58u8] + m.value + post);
        let end = n + m.name.len();
        assert(json[n] == m.name[0]);
        assert(json[end] == 58);
        assert(colon_from(json, end) == end);
        let start = end + 1;
        assert(start == at_value.len());
        a_value_ends_where_it_is_closed(at_value, m.value, post);
        let stop = start + m.value.len();
        assert(json.subrange(n, end) =~= m.name);
        assert(json.subrange(start, stop) =~= m.value);
        assert(members_from(json, i) == seq![(m.name, m.value)] + members_from(json, stop));
        assert(json[stop] == post[0]);
        if members.len() == 1 {
            reveal_with_fuel(members_from, 3);
            assert(members_from(json, stop) =~= Seq::<(Seq<u8>, Seq<u8>)>::empty());
        } else {
            let next = at_value + m.value + seq![44u8];
            assert forall|k: int| 0 <= k < rest.len() implies is_written_well(#[trigger] rest[k]) by {
                assert(rest[k] == members[k + 1]);
            }
            lemma_written(next, rest);
            assert(json =~= next + written(rest) + seq![125u8]);
            assert(members_from(json, stop) == members_from(json, stop + 1));
        }
        assert(views =~= seq![(m.name, m.value)] + rest.map_values(
            |m: WrittenMember| (m.name, m.value),
        ));
    }
}

/// The members of an object are those that are written in it, in order, each with
/// the text of its name and the text of its value: none that is written within a
/// value or a string is among them, and none is left out.
pub proof fn members_are_those_that_are_written(members: Seq<WrittenMember>)
    requires
        forall|k: int| 0 <= k < members.len() ==> is_written_well(#[trigger] members[k]),
    ensures
        members_from(seq![123u8] + written(members) + seq![125u8], 0) == members.map_values(
            |m: WrittenMember| (m.name, m.value),
        ),
{
    let json = seq![123u8] + written(members) + seq![125u8];
    lemma_written(seq![123u8], members);
    assert(json[0] == 123);
    assert(members_from(json, 0) == members_from(json, 1));
}

} // verus!
