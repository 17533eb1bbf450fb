//! Text as the gateway reads and writes it: comparison, ordering, searching
//! and decimal numbers, all over the characters of a string.

use vstd::prelude::*;

verus! {

/// The bytes of a text.
pub open spec fn utf8(s: Seq<char>) -> Seq<u8> {
    vstd::utf8::encode_utf8(s)
}

/// The first part of a text has no more bytes than the text, and fewer if it is
/// not all of it.
pub proof fn prefixes_have_fewer_bytes(a: Seq<char>, b: Seq<char>)
    requires
        a.is_prefix_of(b),
    ensures
        utf8(a).len() <= utf8(b).len(),
        a.len() < b.len() ==> utf8(a).len() < utf8(b).len(),
    decreases b.len(),
{
    if b.len() > 0 {
        vstd::utf8::encode_utf8_first_scalar(b);
        if a.len() > 0 {
            assert(a[0] == b[0]);
            let c = a.drop_first();
            let d = b.drop_first();
            assert(c =~= d.subrange(0, c.len() as int)) by {
                assert forall|i: int| 0 <= i < c.len() implies c[i] == d[i] by {
                    assert(a[i + 1] == b[i + 1]);
                }
            }
            prefixes_have_fewer_bytes(c, d);
        }
    }
}

/// A text that may be missing, as its characters.
pub open spec fn opt_text(s: Option<String>) -> Option<Seq<char>> {
    match s {
        Some(s) => Some(s@),
        None => None,
    }
}

/// `str::eq`: two string slices are equal exactly when they hold the same
/// characters.
pub assume_specification[ <str as PartialEq<str>>::eq ](a: &str, b: &str) -> (r: bool)
    ensures
        r == (a@ == b@),
;

/// `String::push`: appends one character.
pub assume_specification[ String::push ](s: &mut String, c: char)
    ensures
        final(s)@ == old(s)@.push(c),
;

/// Whether two texts hold the same characters.
pub fn same_text(a: &str, b: &str) -> (r: bool)
    ensures
        r == (a@ == b@),
{
    *a == *b
}

/// How two keys stand to each other.
#[derive(Clone, Copy, PartialEq, Eq, Structural, Debug)]
pub enum Order {
    Less,
    Equal,
    Greater,
}

/// Dictionary order on character sequences: the first character that differs
/// decides, and a proper prefix comes first.
pub open spec fn text_before(a: Seq<char>, b: Seq<char>) -> bool
    decreases a.len(),
{
    if b.len() == 0 {
        false
    } else if a.len() == 0 {
        true
    } else if a[0] != b[0] {
        a[0] < b[0]
    } else {
        text_before(a.drop_first(), b.drop_first())
    }
}

/// No text comes before itself.
pub proof fn text_before_irreflexive(a: Seq<char>)
    ensures
        !text_before(a, a),
    decreases a.len(),
{
    if a.len() > 0 {
        text_before_irreflexive(a.drop_first());
    }
}

/// Dictionary order is transitive.
pub proof fn text_before_transitive(a: Seq<char>, b: Seq<char>, c: Seq<char>)
    requires
        text_before(a, b),
        text_before(b, c),
    ensures
        text_before(a, c),
    decreases a.len(),
{
    if a.len() > 0 && b.len() > 0 && c.len() > 0 && a[0] == b[0] && b[0] == c[0] {
        text_before_transitive(a.drop_first(), b.drop_first(), c.drop_first());
    }
}

/// Of two different texts one comes before the other.
pub proof fn text_before_total(a: Seq<char>, b: Seq<char>)
    ensures
        a == b || text_before(a, b) || text_before(b, a),
    decreases a.len(),
{
    if a.len() == 0 && b.len() == 0 {
        assert(a =~= b);
    } else if a.len() > 0 && b.len() > 0 && a[0] == b[0] {
        text_before_total(a.drop_first(), b.drop_first());
        if a.drop_first() == b.drop_first() {
            assert(a =~= seq![a[0]] + a.drop_first());
            assert(b =~= seq![b[0]] + b.drop_first());
        }
    }
}

/// The characters of a text, in order.
pub fn chars_of(s: &str) -> (v: Vec<char>)
    ensures
        v@ == s@,
{
    let mut v: Vec<char> = Vec::new();
    for c in it: s.chars()
        invariant
            it.seq() == s@,
            v@ == s@.take(it.index()),
    {
        v.push(c);
    }
    assert(s@.take(s@.len() as int) =~= s@);
    v
}

/// Compares two texts in dictionary order.
pub fn text_order(a: &str, b: &str) -> (o: Order)
    ensures
        match o {
            Order::Less => text_before(a@, b@),
            Order::Equal => a@ == b@,
            Order::Greater => text_before(b@, a@),
        },
{
    let left = chars_of(a);
    let right = chars_of(b);
    let mut i: usize = 0;
    proof {
        assert(a@.skip(0) =~= a@);
        assert(b@.skip(0) =~= b@);
    }
    loop
        invariant
            left@ == a@,
            right@ == b@,
            i <= left.len(),
            i <= right.len(),
            a@.take(i as int) == b@.take(i as int),
            text_before(a@, b@) == text_before(a@.skip(i as int), b@.skip(i as int)),
            text_before(b@, a@) == text_before(b@.skip(i as int), a@.skip(i as int)),
        decreases left.len() - i,
    {
        if i == left.len() {
            if i == right.len() {
                assert(a@ =~= a@.take(i as int));
                assert(b@ =~= b@.take(i as int));
                return Order::Equal;
            }
            return Order::Less;
        }
        if i == right.len() {
            return Order::Greater;
        }
        if left[i] < right[i] {
            return Order::Less;
        }
        if right[i] < left[i] {
            return Order::Greater;
        }
        proof {
            assert(a@.skip(i as int).drop_first() =~= a@.skip(i + 1));
            assert(b@.skip(i as int).drop_first() =~= b@.skip(i + 1));
            assert(a@.take(i + 1) =~= a@.take(i as int).push(a@[i as int]));
            assert(b@.take(i + 1) =~= b@.take(i as int).push(b@[i as int]));
        }
        i = i + 1;
    }
}

/// Two texts, one after the other.
pub fn concat2(a: &str, b: &str) -> (s: String)
    ensures
        s@ == a@ + b@,
{
    let mut s = String::new();
    s.append(a);
    s.append(b);
    assert(s@ =~= a@ + b@);
    s
}

/// Three texts, one after the other.
pub fn concat3(a: &str, b: &str, c: &str) -> (s: String)
    ensures
        s@ == a@ + b@ + c@,
{
    let mut s = concat2(a, b);
    s.append(c);
    s
}

/// Five texts, one after the other.
pub fn concat5(a: &str, b: &str, c: &str, d: &str, e: &str) -> (s: String)
    ensures
        s@ == a@ + b@ + c@ + d@ + e@,
{
    let mut s = concat3(a, b, c);
    s.append(d);
    s.append(e);
    s
}

/// Whether `s` begins with `prefix`.
pub fn starts_with(s: &str, prefix: &str) -> (r: bool)
    ensures
        r == prefix@.is_prefix_of(s@),
{
    let n: usize = prefix.unicode_len();
    if s.unicode_len() < n {
        return false;
    }
    let head = s.substring_char(0, n);
    let r = same_text(head, prefix);
    assert(s@.subrange(0, n as int) =~= s@.take(n as int));
    r
}

/// What follows `prefix` in `s`, if `s` begins with it.
pub fn strip_prefix<'a>(s: &'a str, prefix: &str) -> (r: Option<&'a str>)
    ensures
        match r {
            Some(rest) => s@ == prefix@ + rest@,
            None => !prefix@.is_prefix_of(s@),
        },
{
    if starts_with(s, prefix) {
        let n: usize = prefix.unicode_len();
        let rest = s.substring_char(n, s.unicode_len());
        assert(s@ =~= prefix@ + rest@);
        Some(rest)
    } else {
        None
    }
}

/// Whether `pattern` stands in `s` at place `i`.
pub open spec fn occurs_at(s: Seq<char>, pattern: Seq<char>, i: int) -> bool {
    &&& 0 <= i
    &&& i + pattern.len() <= s.len()
    &&& s.subrange(i, i + pattern.len()) == pattern
}

/// The first place at which `pattern` stands in `s`.
pub fn find_text(s: &str, pattern: &str) -> (r: Option<usize>)
    ensures
        match r {
            Some(i) => {
                &&& occurs_at(s@, pattern@, i as int)
                &&& forall|j: int| 0 <= j < i ==> !#[trigger] occurs_at(s@, pattern@, j)
            },
            None => forall|j: int| !#[trigger] occurs_at(s@, pattern@, j),
        },
{
    let n: usize = s.unicode_len();
    let m: usize = pattern.unicode_len();
    if n < m {
        return None;
    }
    let mut i: usize = 0;
    while i <= n - m
        invariant
            n == s@.len(),
            m == pattern@.len(),
            m <= n,
            i <= n - m + 1,
            forall|j: int| 0 <= j < i ==> !#[trigger] occurs_at(s@, pattern@, j),
        decreases n - m + 1 - i,
    {
        if same_text(s.substring_char(i, i + m), pattern) {
            return Some(i);
        }
        if i == n - m {
            return None;
        }
        i = i + 1;
    }
    None
}

/// The first place at which one of two characters stands.
pub open spec fn first_of(s: Seq<char>, a: char, b: char) -> int
    decreases s.len(),
{
    if s.len() == 0 || s[0] == a || s[0] == b {
        0
    } else {
        1 + first_of(s.drop_first(), a, b)
    }
}

/// `s` up to the first of two characters, or all of it.
pub open spec fn before_first_of(s: Seq<char>, a: char, b: char) -> Seq<char> {
    s.take(first_of(s, a, b))
}

proof fn lemma_first_of(s: Seq<char>, a: char, b: char, k: int)
    requires
        0 <= k <= s.len(),
        forall|i: int| 0 <= i < k ==> #[trigger] s[i] != a && s[i] != b,
        k == s.len() || s[k] == a || s[k] == b,
    ensures
        first_of(s, a, b) == k,
    decreases s.len(),
{
    if k > 0 {
        assert(s[0] != a && s[0] != b);
        assert forall|i: int| 0 <= i < k - 1 implies #[trigger] s.drop_first()[i] != a
            && s.drop_first()[i] != b by {
            assert(s[i + 1] != a);
        }
        lemma_first_of(s.drop_first(), a, b, k - 1);
    }
}

/// A text is cut before the first of two characters: what stands before it, and
/// holds neither, is left.
pub proof fn cutting_leaves_what_stands_before(
    head: Seq<char>,
    tail: Seq<char>,
    a: char,
    b: char,
)
    requires
        !head.contains(a),
        !head.contains(b),
    ensures
        before_first_of(head + tail, a, b) == head + before_first_of(tail, a, b),
        tail.len() == 0 || tail[0] == a || tail[0] == b ==> before_first_of(head + tail, a, b)
            == head,
{
    let k = first_of(tail, a, b);
    lemma_first_place(tail, a, b);
    assert forall|i: int| 0 <= i < head.len() + k implies #[trigger] (head + tail)[i] != a && (head
        + tail)[i] != b by {
        if i < head.len() {
            assert(head.contains(head[i]));
        } else {
            assert(tail[i - head.len()] != a && tail[i - head.len()] != b);
        }
    }
    lemma_first_of(head + tail, a, b, head.len() + k);
    assert((head + tail).take(head.len() + k) =~= head + tail.take(k));
    assert(tail.take(0) =~= Seq::<char>::empty());
    assert(head + Seq::<char>::empty() =~= head);
}

proof fn lemma_first_place(s: Seq<char>, a: char, b: char)
    ensures
        0 <= first_of(s, a, b) <= s.len(),
        forall|i: int| 0 <= i < first_of(s, a, b) ==> #[trigger] s[i] != a && s[i] != b,
        first_of(s, a, b) < s.len() ==> s[first_of(s, a, b)] == a || s[first_of(s, a, b)] == b,
    decreases s.len(),
{
    if s.len() > 0 && s[0] != a && s[0] != b {
        lemma_first_place(s.drop_first(), a, b);
        assert forall|i: int| 0 <= i < first_of(s, a, b) implies #[trigger] s[i] != a && s[i]
            != b by {
            if i > 0 {
                assert(s.drop_first()[i - 1] != a);
            }
        }
    }
}

/// `s` up to the first of two characters, or all of it.
pub fn cut_at<'a>(s: &'a str, a: char, b: char) -> (r: &'a str)
    ensures
        r@ == before_first_of(s@, a, b),
{
    let chars = chars_of(s);
    let n: usize = chars.len();
    let mut i: usize = 0;
    while i < n && chars[i] != a && chars[i] != b
        invariant
            i <= n,
            n == chars@.len(),
            chars@ == s@,
            forall|k: int| 0 <= k < i ==> #[trigger] s@[k] != a && s@[k] != b,
        decreases n - i,
    {
        i = i + 1;
    }
    proof {
        lemma_first_of(s@, a, b, i as int);
    }
    let r = s.substring_char(0, i);
    assert(r@ =~= s@.take(i as int));
    r
}

/// What stands behind the last `c` in `s`, or all of it.
pub open spec fn behind_last(s: Seq<char>, c: char) -> Seq<char>
    decreases s.len(),
{
    if s.len() == 0 || s.last() == c {
        Seq::empty()
    } else {
        behind_last(s.drop_last(), c).push(s.last())
    }
}

/// What stands behind the last of a character holds none of it.
pub proof fn what_stands_behind_the_last(head: Seq<char>, tail: Seq<char>, c: char)
    requires
        !tail.contains(c),
        head.len() == 0 || head.last() == c,
    ensures
        behind_last(head + tail, c) == tail,
{
    let s = head + tail;
    assert forall|i: int| head.len() <= i < s.len() implies #[trigger] s[i] != c by {
        assert(tail.contains(tail[i - head.len()]));
    }
    lemma_behind_last(s, c, head.len() as int);
    assert(s.skip(head.len() as int) =~= tail);
}

proof fn lemma_behind_last(s: Seq<char>, c: char, k: int)
    requires
        0 <= k <= s.len(),
        forall|i: int| k <= i < s.len() ==> #[trigger] s[i] != c,
        k == 0 || s[k - 1] == c,
    ensures
        behind_last(s, c) == s.skip(k),
    decreases s.len(),
{
    if k < s.len() {
        assert(s[s.len() - 1] != c);
        assert(forall|i: int| k <= i < s.len() - 1 ==> #[trigger] s.drop_last()[i] == s[i]);
        lemma_behind_last(s.drop_last(), c, k);
        assert(s.skip(k) =~= s.drop_last().skip(k).push(s.last()));
    } else {
        assert(s.skip(k) =~= Seq::<char>::empty());
    }
}

/// What stands behind the last `c` in `s`, or all of it.
pub fn cut_behind<'a>(s: &'a str, c: char) -> (r: &'a str)
    ensures
        r@ == behind_last(s@, c),
{
    let chars = chars_of(s);
    let n: usize = chars.len();
    let mut k: usize = n;
    while k > 0 && chars[k - 1] != c
        invariant
            k <= n,
            n == chars@.len(),
            chars@ == s@,
            forall|i: int| k <= i < n ==> #[trigger] s@[i] != c,
        decreases k,
    {
        k = k - 1;
    }
    proof {
        lemma_behind_last(s@, c, k as int);
    }
    let r = s.substring_char(k, n);
    assert(r@ =~= s@.skip(k as int));
    r
}

/// The pieces of `s` between the occurrences of `sep`. A text without any is
/// one piece.
pub open spec fn pieces(s: Seq<char>, sep: char) -> Seq<Seq<char>>
    decreases s.len(),
{
    if s.len() == 0 {
        seq![Seq::<char>::empty()]
    } else {
        let rest = pieces(s.drop_last(), sep);
        if s.last() == sep {
            rest.push(Seq::<char>::empty())
        } else {
            rest.update(rest.len() - 1, rest.last().push(s.last()))
        }
    }
}

pub proof fn lemma_pieces_not_empty(s: Seq<char>, sep: char)
    ensures
        pieces(s, sep).len() > 0,
    decreases s.len(),
{
    if s.len() > 0 {
        lemma_pieces_not_empty(s.drop_last(), sep);
    }
}

/// The pieces of a text whose first part holds no separator.
pub proof fn lemma_pieces_of_joined(head: Seq<char>, tail: Seq<char>, sep: char)
    requires
        !head.contains(sep),
    ensures
        pieces(head, sep) == seq![head],
        pieces(head.push(sep) + tail, sep) == seq![head] + pieces(tail, sep),
    decreases head.len() + tail.len(),
{
    lemma_piece_without_separator(head, sep);
    let whole = head.push(sep) + tail;
    if tail.len() == 0 {
        assert(whole.drop_last() =~= head);
        assert(pieces(whole, sep) =~= seq![head] + pieces(tail, sep));
    } else {
        lemma_pieces_of_joined(head, tail.drop_last(), sep);
        lemma_pieces_not_empty(tail.drop_last(), sep);
        assert(whole.drop_last() =~= head.push(sep) + tail.drop_last());
        assert(pieces(whole, sep) =~= seq![head] + pieces(tail, sep));
    }
}

proof fn lemma_piece_without_separator(s: Seq<char>, sep: char)
    requires
        !s.contains(sep),
    ensures
        pieces(s, sep) == seq![s],
    decreases s.len(),
{
    if s.len() == 0 {
        assert(s =~= Seq::<char>::empty());
    } else {
        assert(!s.drop_last().contains(sep)) by {
            if s.drop_last().contains(sep) {
                let i = s.drop_last().index_of(sep);
                assert(s[i] == sep);
            }
        }
        lemma_piece_without_separator(s.drop_last(), sep);
        assert(s.last() != sep) by {
            assert(s[s.len() - 1] == s.last());
        }
        assert(s.drop_last().push(s.last()) =~= s);
        assert(pieces(s, sep) =~= seq![s]);
    }
}

/// A text in two pieces is the pieces with the separator between them.
pub proof fn lemma_two_pieces(s: Seq<char>, sep: char, left: Seq<char>, right: Seq<char>)
    requires
        pieces(s, sep) == seq![left, right],
    ensures
        s == left.push(sep) + right,
{
    lemma_pieces_rebuild(s, sep);
    reveal_with_fuel(rebuilt, 3);
    assert(pieces(s, sep).drop_last() =~= seq![left]);
    assert(seq![left].drop_last() =~= Seq::<Seq<char>>::empty());
}

/// The pieces with the separator between them.
pub open spec fn rebuilt(parts: Seq<Seq<char>>, sep: char) -> Seq<char>
    decreases parts.len(),
{
    if parts.len() == 0 {
        Seq::empty()
    } else if parts.len() == 1 {
        parts[0]
    } else {
        rebuilt(parts.drop_last(), sep).push(sep) + parts.last()
    }
}

/// Joining the pieces of a text again gives the text back.
pub proof fn lemma_pieces_rebuild(s: Seq<char>, sep: char)
    ensures
        rebuilt(pieces(s, sep), sep) == s,
    decreases s.len(),
{
    lemma_pieces_not_empty(s, sep);
    if s.len() > 0 {
        let rest = pieces(s.drop_last(), sep);
        lemma_pieces_not_empty(s.drop_last(), sep);
        lemma_pieces_rebuild(s.drop_last(), sep);
        let parts = pieces(s, sep);
        assert(s =~= s.drop_last().push(s.last()));
        if s.last() == sep {
            assert(parts.drop_last() =~= rest);
            assert(rebuilt(parts, sep) =~= s.drop_last().push(sep));
        } else {
            assert(parts.drop_last() =~= rest.drop_last());
            assert(parts.last() == rest.last().push(s.last()));
            assert(rebuilt(parts, sep) =~= rebuilt(rest, sep).push(s.last()));
        }
    } else {
        assert(rebuilt(pieces(s, sep), sep) =~= s);
    }
}

/// The texts of a list of strings.
pub open spec fn texts(list: Seq<String>) -> Seq<Seq<char>> {
    Seq::new(list.len(), |i: int| list[i]@)
}

/// Splits a text at every occurrence of `sep`.
pub fn split_on(s: &str, sep: char) -> (r: Vec<String>)
    ensures
        texts(r@) == pieces(s@, sep),
{
    let chars = chars_of(s);
    let n: usize = chars.len();
    let mut done: Vec<String> = Vec::new();
    let mut piece = String::new();
    let mut i: usize = 0;
    assert(s@.take(0) =~= Seq::<char>::empty());
    assert(texts(done@).push(piece@) =~= pieces(s@.take(0), sep));
    while i < n
        invariant
            i <= n,
            n == chars@.len(),
            chars@ == s@,
            texts(done@).push(piece@) == pieces(s@.take(i as int), sep),
        decreases n - i,
    {
        let ghost before = texts(done@).push(piece@);
        let c = chars[i];
        proof {
            assert(s@.take(i + 1).drop_last() =~= s@.take(i as int));
        }
        if c == sep {
            done.push(piece);
            piece = String::new();
            assert(texts(done@).push(piece@) =~= before.push(Seq::<char>::empty()));
        } else {
            piece.push(c);
            assert(texts(done@).push(piece@) =~= before.update(
                before.len() - 1,
                before.last().push(c),
            ));
        }
        i = i + 1;
    }
    assert(s@.take(n as int) =~= s@);
    let ghost all = texts(done@).push(piece@);
    done.push(piece);
    assert(texts(done@) =~= all);
    done
}

/// `s` without the `c`s at its end.
pub open spec fn trimmed_end(s: Seq<char>, c: char) -> Seq<char>
    decreases s.len(),
{
    if s.len() > 0 && s.last() == c {
        trimmed_end(s.drop_last(), c)
    } else {
        s
    }
}

/// `s` without the `c`s at its end.
pub fn trim_end_of<'a>(s: &'a str, c: char) -> (r: &'a str)
    ensures
        r@ == trimmed_end(s@, c),
{
    let chars = chars_of(s);
    let mut n: usize = chars.len();
    assert(s@.take(n as int) =~= s@);
    while n > 0 && chars[n - 1] == c
        invariant
            n <= chars@.len(),
            chars@ == s@,
            trimmed_end(s@.take(n as int), c) == trimmed_end(s@, c),
        decreases n,
    {
        assert(s@.take(n as int).drop_last() =~= s@.take(n - 1));
        n = n - 1;
    }
    let r = s.substring_char(0, n);
    assert(r@ =~= s@.take(n as int));
    r
}

/// Trimming takes all of a character away at the end of a text, and nothing
/// else: what is left is the text in front of them.
pub proof fn trimming_takes_the_end_away(s: Seq<char>, n: nat, c: char)
    requires
        s.len() > 0 ==> s.last() != c,
    ensures
        trimmed_end(s + Seq::new(n, |i: int| c), c) == s,
    decreases n,
{
    let whole = s + Seq::new(n, |i: int| c);
    if n == 0 {
        assert(whole =~= s);
    } else {
        trimming_takes_the_end_away(s, (n - 1) as nat, c);
        assert(whole.drop_last() =~= s + Seq::new((n - 1) as nat, |i: int| c));
    }
}

/// The character of a decimal digit.
pub open spec fn digit(d: int) -> char {
    ('0' as int + d) as char
}

/// A number in decimal notation.
pub open spec fn decimal(n: nat) -> Seq<char>
    decreases n,
{
    if n < 10 {
        seq![digit(n as int)]
    } else {
        decimal(n / 10).push(digit((n % 10) as int))
    }
}

fn digit_char(d: u8) -> (c: char)
    requires
        d < 10,
    ensures
        c == digit(d as int),
{
    (48 + d) as char
}

/// Writes a number in decimal notation.
pub fn decimal_text(n: u128) -> (s: String)
    ensures
        s@ == decimal(n as nat),
    decreases n,
{
    let last = digit_char((n % 10) as u8);
    if n < 10 {
        let mut s = String::new();
        s.push(last);
        assert(s@ =~= decimal(n as nat));
        s
    } else {
        let mut s = decimal_text(n / 10);
        s.push(last);
        s
    }
}

/// Whether `c` is a decimal digit.
pub open spec fn is_digit(c: char) -> bool {
    '0' <= c <= '9'
}

/// The last `places` digits of a number.
pub open spec fn padded(n: nat, places: nat) -> Seq<char>
    decreases places,
{
    if places == 0 {
        Seq::empty()
    } else {
        padded(n / 10, (places - 1) as nat).push(digit((n % 10) as int))
    }
}

/// A number of parts in decimal notation, `unit` of which, a power of ten with
/// `places` zeros, make a whole: without a point where there is no fraction,
/// and without zeros at its end.
pub open spec fn fraction(n: nat, unit: nat, places: nat) -> Seq<char> {
    if n % unit == 0 {
        decimal(n / unit)
    } else {
        decimal(n / unit) + seq!['.'] + trimmed_end(padded(n % unit, places), '0')
    }
}

/// Writes the last `places` digits of a number.
fn padded_text(n: u128, places: u32) -> (s: String)
    ensures
        s@ == padded(n as nat, places as nat),
    decreases places,
{
    if places == 0 {
        let s = String::new();
        assert(s@ =~= Seq::<char>::empty());
        s
    } else {
        let mut s = padded_text(n / 10, places - 1);
        s.push(digit_char((n % 10) as u8));
        s
    }
}

/// Writes a number of parts in decimal notation, `unit` of which make a whole.
pub fn fraction_text(n: u128, unit: u128, places: u32) -> (s: String)
    requires
        unit > 0,
    ensures
        s@ == fraction(n as nat, unit as nat, places as nat),
{
    let mut s = decimal_text(n / unit);
    let rest: u128 = n % unit;
    if rest > 0 {
        s.push('.');
        let digits = padded_text(rest, places);
        s.append(trim_end_of(digits.as_str(), '0'));
        assert(s@ =~= fraction(n as nat, unit as nat, places as nat));
    }
    s
}

/// Texts, one after the other.
pub open spec fn joined(list: Seq<Seq<char>>) -> Seq<char>
    decreases list.len(),
{
    if list.len() == 0 {
        Seq::empty()
    } else {
        joined(list.drop_last()) + list.last()
    }
}

/// Decimal notation is made of digits, and begins with a zero only for zero.
pub proof fn decimal_digits(n: nat)
    ensures
        decimal(n).len() > 0,
        forall|i: int| 0 <= i < decimal(n).len() ==> is_digit(#[trigger] decimal(n)[i]),
        n > 0 ==> decimal(n)[0] != '0',
    decreases n,
{
    if n >= 10 {
        decimal_digits(n / 10);
    }
}

/// Whether `s` is the decimal notation of a number below 256.
pub open spec fn is_octet(s: Seq<char>) -> bool {
    exists|v: u8| s == #[trigger] decimal(v as nat)
}

proof fn lemma_octet_forms(v: u8)
    ensures
        v < 10 ==> decimal(v as nat) == seq![digit(v as int)],
        10 <= v < 100 ==> decimal(v as nat) == seq![digit(v as int / 10), digit(v as int % 10)],
        v >= 100 ==> decimal(v as nat) == seq![
            digit(v as int / 100),
            digit(v as int / 10 % 10),
            digit(v as int % 10),
        ],
{
    reveal_with_fuel(decimal, 4);
    if 10 <= v < 100 {
        assert(decimal(v as nat) =~= seq![digit(v as int / 10), digit(v as int % 10)]);
    } else if v >= 100 {
        assert(v as nat / 10 / 10 == v as nat / 100);
        assert(decimal(v as nat) =~= seq![
            digit(v as int / 100),
            digit(v as int / 10 % 10),
            digit(v as int % 10),
        ]);
    }
}

fn digit_value(c: char) -> (d: Option<u32>)
    ensures
        match d {
            Some(v) => v < 10 && c == digit(v as int) && is_digit(c),
            None => !is_digit(c),
        },
{
    if '0' <= c && c <= '9' {
        Some(c as u32 - '0' as u32)
    } else {
        None
    }
}

/// Whether a text is the decimal notation of a number below 256.
pub fn octet_text(s: &str) -> (r: bool)
    ensures
        r == is_octet(s@),
{
    let chars = chars_of(s);
    let n: usize = chars.len();
    proof {
        assert forall|v: u8| s@ == #[trigger] decimal(v as nat) implies 1 <= s@.len() <= 3 && (
        s@.len() > 1 ==> s@[0] != '0') && (forall|i: int|
            0 <= i < s@.len() ==> is_digit(#[trigger] s@[i])) by {
            lemma_octet_forms(v);
            decimal_digits(v as nat);
        }
    }
    if n == 0 || n > 3 {
        return false;
    }
    if n > 1 && chars[0] == '0' {
        return false;
    }
    let mut value: u32 = 0;
    let mut i: usize = 0;
    while i < n
        invariant
            i <= n <= 3,
            n == chars@.len(),
            chars@ == s@,
            forall|k: int| 0 <= k < i ==> is_digit(#[trigger] s@[k]),
            i == 0 ==> value == 0,
            i == 1 ==> value == s@[0] as int - '0' as int,
            i == 2 ==> value == 10 * (s@[0] as int - '0' as int) + (s@[1] as int - '0' as int),
            i == 3 ==> value == 100 * (s@[0] as int - '0' as int) + 10 * (s@[1] as int
                - '0' as int) + (s@[2] as int - '0' as int),
            forall|v: u8| s@ == #[trigger] decimal(v as nat) ==> (forall|k: int|
                0 <= k < s@.len() ==> is_digit(#[trigger] s@[k])),
        decreases n - i,
    {
        match digit_value(chars[i]) {
            Some(d) => {
                value = value * 10 + d;
            },
            None => {
                assert(!is_digit(s@[i as int]));
                return false;
            },
        }
        i = i + 1;
    }
    proof {
        if value <= 255 {
            lemma_octet_forms(value as u8);
            assert(s@ =~= decimal(value as u8 as nat));
        } else if is_octet(s@) {
            let v = choose|v: u8| s@ == #[trigger] decimal(v as nat);
            lemma_octet_forms(v);
        }
    }
    value <= 255
}

/// The bytes from place `from` to before place `to`.
pub fn bytes_between(bytes: &[u8], from: usize, to: usize) -> (r: Vec<u8>)
    requires
        from <= to <= bytes@.len(),
    ensures
        r@ == bytes@.subrange(from as int, to as int),
{
    let mut r: Vec<u8> = Vec::new();
    let mut i: usize = from;
    while i < to
        invariant
            from <= i <= to,
            to <= bytes@.len(),
            r@ == bytes@.subrange(from as int, i as int),
        decreases to - i,
    {
        r.push(bytes[i]);
        assert(r@ =~= bytes@.subrange(from as int, i + 1));
        i = i + 1;
    }
    r
}

/// The number that decimal digits stand for.
pub open spec fn number_of(digits: Seq<char>) -> int
    decreases digits.len(),
{
    if digits.len() == 0 {
        0
    } else {
        10 * number_of(digits.drop_last()) + (digits.last() as int - '0' as int)
    }
}

/// Decimal notation is read as the number that was written.
pub proof fn decimal_notation_is_read_back(n: nat)
    ensures
        number_of(decimal(n)) == n,
    decreases n,
{
    if n < 10 {
        reveal_with_fuel(number_of, 2);
        assert(decimal(n).drop_last() =~= Seq::<char>::empty());
    } else {
        decimal_notation_is_read_back(n / 10);
        assert(decimal(n).drop_last() =~= decimal(n / 10));
    }
}

proof fn lemma_padded(n: nat, places: nat)
    requires
        n < vstd::arithmetic::power::pow(10, places),
    ensures
        padded(n, places).len() == places,
        number_of(padded(n, places)) == n,
        forall|i: int| 0 <= i < places ==> is_digit(#[trigger] padded(n, places)[i]),
    decreases places,
{
    vstd::arithmetic::power::lemma_pow0(10);
    if places > 0 {
        let rest = (places - 1) as nat;
        reveal(vstd::arithmetic::power::pow);
        assert(vstd::arithmetic::power::pow(10, places) == 10 * vstd::arithmetic::power::pow(
            10,
            rest,
        ));
        assert(n / 10 < vstd::arithmetic::power::pow(10, rest));
        lemma_padded(n / 10, rest);
        assert(padded(n, places).drop_last() =~= padded(n / 10, rest));
    }
}

proof fn lemma_trimmed_zeros(s: Seq<char>)
    ensures
        ({
            let t = trimmed_end(s, '0');
            &&& t.len() <= s.len()
            &&& t.len() > 0 ==> t.last() != '0'
            &&& number_of(s) == number_of(t) * vstd::arithmetic::power::pow(
                10,
                (s.len() - t.len()) as nat,
            )
        }),
    decreases s.len(),
{
    vstd::arithmetic::power::lemma_pow0(10);
    if s.len() > 0 && s.last() == '0' {
        lemma_trimmed_zeros(s.drop_last());
        let t = trimmed_end(s, '0');
        let k = (s.len() - 1 - t.len()) as nat;
        reveal(vstd::arithmetic::power::pow);
        assert(vstd::arithmetic::power::pow(10, k + 1) == 10 * vstd::arithmetic::power::pow(10, k));
        assert(number_of(t) * (10 * vstd::arithmetic::power::pow(10, k)) == 10 * (number_of(t)
            * vstd::arithmetic::power::pow(10, k))) by (nonlinear_arith);
    } else {
        assert(number_of(s) * 1 == number_of(s));
    }
}

/// A number of parts is written as the wholes that it makes and, behind a point
/// where any are left, the rest of the parts as a decimal fraction without zeros
/// at its end.
pub proof fn fractions_are_read_back(n: nat, places: nat)
    ensures
        ({
            let unit = vstd::arithmetic::power::pow(10, places) as nat;
            let written = fraction(n, unit, places);
            if n % unit == 0 {
                written == decimal(n / unit)
            } else {
                exists|digits: Seq<char>|
                    {
                        &&& written == #[trigger] (decimal(n / unit) + seq!['.'] + digits)
                        &&& 0 < digits.len() <= places
                        &&& digits.last() != '0'
                        &&& number_of(digits) * vstd::arithmetic::power::pow(
                            10,
                            (places - digits.len()) as nat,
                        ) == n % unit
                    }
            }
        }),
{
    let unit = vstd::arithmetic::power::pow(10, places) as nat;
    vstd::arithmetic::power::lemma_pow_positive(10, places);
    let rest = n % unit;
    lemma_padded(rest, places);
    lemma_trimmed_zeros(padded(rest, places));
    let digits = trimmed_end(padded(rest, places), '0');
    if rest != 0 {
        assert(fraction(n, unit, places) == decimal(n / unit) + seq!['.'] + digits);
        if digits.len() == 0 {
            assert(number_of(digits) * vstd::arithmetic::power::pow(10, places) == 0)
                by (nonlinear_arith)
                requires
                    number_of(digits) == 0,
            ;
        }
    }
}

/// In dictionary order the first character that differs decides, and a text comes
/// before what goes on behind it.
pub proof fn the_first_difference_decides(
    start: Seq<char>,
    a: char,
    rest_a: Seq<char>,
    b: char,
    rest_b: Seq<char>,
)
    ensures
        a != b ==> (text_before(start + seq![a] + rest_a, start + seq![b] + rest_b) <==> a < b),
        text_before(start, start + seq![a] + rest_a),
        !text_before(start + seq![a] + rest_a, start),
    decreases start.len(),
{
    let x = start + seq![a] + rest_a;
    let y = start + seq![b] + rest_b;
    if start.len() > 0 {
        let rest = start.drop_first();
        the_first_difference_decides(rest, a, rest_a, b, rest_b);
        assert(x.drop_first() =~= rest + seq![a] + rest_a);
        assert(y.drop_first() =~= rest + seq![b] + rest_b);
    }
}

/// The pieces of a text hold no separator, and joined by it they are the text.
pub proof fn pieces_hold_no_separator(s: Seq<char>, sep: char)
    ensures
        forall|i: int| 0 <= i < pieces(s, sep).len() ==> !(#[trigger] pieces(s, sep)[i]).contains(sep),
        rebuilt(pieces(s, sep), sep) == s,
        pieces(s, sep).len() > 0,
    decreases s.len(),
{
    lemma_pieces_rebuild(s, sep);
    lemma_pieces_not_empty(s, sep);
    if s.len() > 0 {
        pieces_hold_no_separator(s.drop_last(), sep);
        let rest = pieces(s.drop_last(), sep);
        assert forall|i: int| 0 <= i < pieces(s, sep).len() implies !(#[trigger] pieces(s, sep)[i]).contains(
            sep,
        ) by {
            if s.last() != sep && i == rest.len() - 1 {
                let piece = pieces(s, sep)[i];
                assert(!rest[i].contains(sep));
                if piece.contains(sep) {
                    let k = piece.index_of(sep);
                    if k < rest[i].len() {
                        assert(rest[i][k] == sep);
                    }
                }
            } else if i < rest.len() {
                assert(!rest[i].contains(sep));
            }
        }
    }
}

/// One text more is joined to the others at their end.
pub proof fn joined_with_one_more(list: Seq<Seq<char>>, last: Seq<char>)
    ensures
        joined(list.push(last)) == joined(list) + last,
{
    assert(list.push(last).drop_last() =~= list);
}

/// Whether a text is part of another.
pub open spec fn is_part_of(part: Seq<char>, whole: Seq<char>) -> bool {
    exists|before: Seq<char>, after: Seq<char>| whole == #[trigger] (before + part + after)
}

/// Each of several texts is part of what they make when they are joined.
pub proof fn joined_texts_are_parts(list: Seq<Seq<char>>, i: int)
    requires
        0 <= i < list.len(),
    ensures
        is_part_of(list[i], joined(list)),
    decreases list.len(),
{
    let rest = list.drop_last();
    if i == rest.len() {
        let none = Seq::<char>::empty();
        assert(joined(list) =~= joined(rest) + list[i] + none);
    } else {
        joined_texts_are_parts(rest, i);
        parts_stay_parts(list[i], Seq::empty(), joined(rest), list.last());
        assert(joined(list) =~= Seq::<char>::empty() + joined(rest) + list.last());
    }
}

/// What is part of a text is part of every text with that one in it.
pub proof fn parts_stay_parts(
    part: Seq<char>,
    before: Seq<char>,
    whole: Seq<char>,
    after: Seq<char>,
)
    requires
        is_part_of(part, whole),
    ensures
        is_part_of(part, before + whole + after),
{
    let (a, b) = choose|a: Seq<char>, b: Seq<char>| whole == #[trigger] (a + part + b);
    assert(before + whole + after =~= (before + a) + part + (b + after));
}

} // verus!
