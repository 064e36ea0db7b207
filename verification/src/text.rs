//! Plain text: characters, pieces, numbers and order. Every contract here
//! speaks of a string as the sequence of its characters.
use vstd::prelude::*;

verus! {

// --- std functions that vstd does not specify ---------------------------

/// `==` on `str`: two string slices are equal when they hold the same
/// characters.
#[verifier::external_body]
pub(crate) fn same_text(a: &str, b: &str) -> (same: bool)
    ensures
        same == (a@ == b@),
{
    a == b
}

/// `String::push` appends one character at the end.
pub assume_specification[ String::push ](text: &mut String, c: char)
    ensures
        final(text)@ == old(text)@.push(c),
;

// --- views of containers -------------------------------------------------

/// The characters of each string of a sequence.
pub open spec fn texts(list: Seq<String>) -> Seq<Seq<char>> {
    Seq::new(list.len(), |i: int| list[i]@)
}

/// The characters of an optional string.
pub open spec fn opt_text(text: Option<String>) -> Option<Seq<char>> {
    match text {
        Some(t) => Some(t@),
        None => None,
    }
}

/// The characters of an optional string slice.
pub open spec fn opt_str(text: Option<&str>) -> Option<Seq<char>> {
    match text {
        Some(t) => Some(t@),
        None => None,
    }
}

// --- characters and strings ----------------------------------------------

/// The characters of a string, in order.
pub fn chars_of(text: &str) -> (chars: Vec<char>)
    ensures
        chars@ == text@,
{
    let mut chars: Vec<char> = Vec::new();
    for c in it: text.chars()
        invariant
            chars@ == it.seq().take(it.index() as int),
            it.seq() == text@,
    {
        chars.push(c);
    }
    chars
}

/// The code point of a character.
pub fn code_of(c: char) -> (code: u32)
    ensures
        code as int == c as int,
        code == c as u32,
        code <= 0x10FFFF,
{
    c as u32
}

/// The string that holds `chars[from..to]`.
pub fn string_of(chars: &[char], from: usize, to: usize) -> (text: String)
    requires
        from <= to <= chars@.len(),
    ensures
        text@ == chars@.subrange(from as int, to as int),
{
    let mut text = String::new();
    let mut i: usize = from;
    while i < to
        invariant
            from <= i <= to <= chars@.len(),
            text@ == chars@.subrange(from as int, i as int),
        decreases to - i,
    {
        text.push(chars[i]);
        assert(chars@.subrange(from as int, i + 1) =~= chars@.subrange(from as int, i as int).push(
            chars@[i as int],
        ));
        i += 1;
    }
    text
}

/// At most the first `n` characters of `text`.
pub open spec fn taken(text: Seq<char>, n: nat) -> Seq<char> {
    if text.len() <= n {
        text
    } else {
        text.take(n as int)
    }
}

/// At most the first `n` characters of `text`.
pub fn first_chars(text: &str, n: usize) -> (out: String)
    ensures
        out@ == taken(text@, n as nat),
{
    let t = chars_of(text);
    if t.len() <= n {
        text.to_owned()
    } else {
        let out = string_of(t.as_slice(), 0, n);
        assert(out@ =~= text@.take(n as int));
        out
    }
}

/// A copy of an optional string.
pub fn clone_opt(text: &Option<String>) -> (copy: Option<String>)
    ensures
        opt_text(copy) == opt_text(*text),
{
    match text {
        Some(t) => Some(t.clone()),
        None => None,
    }
}

/// Whether two character slices hold the same characters.
pub fn same_chars(a: &[char], b: &[char]) -> (same: bool)
    ensures
        same == (a@ == b@),
{
    if a.len() != b.len() {
        return false;
    }
    let mut i: usize = 0;
    while i < a.len()
        invariant
            i <= a@.len(),
            a@.len() == b@.len(),
            forall|j: int| 0 <= j < i ==> a@[j] == b@[j],
        decreases a@.len() - i,
    {
        if a[i] != b[i] {
            return false;
        }
        i += 1;
    }
    assert(a@ =~= b@);
    true
}

// --- prefixes, suffixes, occurrences -------------------------------------

/// Whether `pattern` stands in `text` at position `at`.
pub open spec fn occurs_at(text: Seq<char>, pattern: Seq<char>, at: int) -> bool {
    &&& 0 <= at
    &&& at + pattern.len() <= text.len()
    &&& text.subrange(at, at + pattern.len()) == pattern
}

/// Whether `text` begins with `prefix`.
pub open spec fn begins_with(text: Seq<char>, prefix: Seq<char>) -> bool {
    occurs_at(text, prefix, 0)
}

/// Whether `pattern` stands anywhere in `text`.
pub open spec fn has_text(text: Seq<char>, pattern: Seq<char>) -> bool {
    exists|at: int| occurs_at(text, pattern, at)
}

/// Tells whether `pattern` stands in `text` at position `at`.
pub fn stands_at(text: &[char], pattern: &[char], at: usize) -> (found: bool)
    ensures
        found == occurs_at(text@, pattern@, at as int),
{
    let n: usize = text.len();
    if at > n || pattern.len() > n - at {
        return false;
    }
    let mut i: usize = 0;
    while i < pattern.len()
        invariant
            i <= pattern@.len(),
            at + pattern@.len() <= n,
            n == text@.len(),
            forall|j: int| 0 <= j < i ==> text@[at + j] == pattern@[j],
        decreases pattern@.len() - i,
    {
        if text[at + i] != pattern[i] {
            assert(text@.subrange(at as int, at + pattern@.len())[i as int] == text@[at + i]);
            return false;
        }
        i += 1;
    }
    assert(text@.subrange(at as int, at + pattern@.len()) =~= pattern@);
    true
}

/// Tells whether `text` begins with `prefix`.
pub fn starts_with(text: &str, prefix: &str) -> (yes: bool)
    ensures
        yes == begins_with(text@, prefix@),
{
    let t = chars_of(text);
    let p = chars_of(prefix);
    stands_at(t.as_slice(), p.as_slice(), 0)
}

/// Tells whether `pattern` stands anywhere in `text`.
pub fn contains_text(text: &str, pattern: &str) -> (yes: bool)
    ensures
        yes == has_text(text@, pattern@),
{
    let t = chars_of(text);
    let p = chars_of(pattern);
    let mut at: usize = 0;
    while at < t.len()
        invariant
            at <= t@.len(),
            t@ == text@,
            p@ == pattern@,
            forall|j: int| 0 <= j < at ==> !occurs_at(text@, pattern@, j),
        decreases t@.len() - at,
    {
        if stands_at(t.as_slice(), p.as_slice(), at) {
            return true;
        }
        at += 1;
    }
    stands_at(t.as_slice(), p.as_slice(), at)
}

/// Tells whether `c` occurs in `text`.
pub fn contains_char(text: &str, c: char) -> (yes: bool)
    ensures
        yes == text@.contains(c),
{
    let t = chars_of(text);
    let mut i: usize = 0;
    while i < t.len()
        invariant
            i <= t@.len(),
            t@ == text@,
            forall|j: int| 0 <= j < i ==> t@[j] != c,
        decreases t@.len() - i,
    {
        if t[i] == c {
            return true;
        }
        i += 1;
    }
    false
}

// --- white space ---------------------------------------------------------

/// The characters with the Unicode property White_Space.
pub open spec fn white_space(c: char) -> bool {
    ||| '\u{9}' <= c <= '\u{d}'
    ||| c == ' '
    ||| c == '\u{85}'
    ||| c == '\u{a0}'
    ||| c == '\u{1680}'
    ||| '\u{2000}' <= c <= '\u{200a}'
    ||| c == '\u{2028}'
    ||| c == '\u{2029}'
    ||| c == '\u{202f}'
    ||| c == '\u{205f}'
    ||| c == '\u{3000}'
}

/// Tells whether `c` is white space.
pub fn is_white_space(c: char) -> (yes: bool)
    ensures
        yes == white_space(c),
{
    ('\u{9}' <= c && c <= '\u{d}') || c == ' ' || c == '\u{85}' || c == '\u{a0}' || c == '\u{1680}'
        || ('\u{2000}' <= c && c <= '\u{200a}') || c == '\u{2028}' || c == '\u{2029}' || c
        == '\u{202f}' || c == '\u{205f}' || c == '\u{3000}'
}

/// `text` without the white space at its start.
pub open spec fn trimmed_start(text: Seq<char>) -> Seq<char>
    decreases text.len(),
{
    if text.len() > 0 && white_space(text.first()) {
        trimmed_start(text.drop_first())
    } else {
        text
    }
}

/// `text` without the white space at its end.
pub open spec fn trimmed_end(text: Seq<char>) -> Seq<char>
    decreases text.len(),
{
    if text.len() > 0 && white_space(text.last()) {
        trimmed_end(text.drop_last())
    } else {
        text
    }
}

/// `text` without the white space at both ends.
pub open spec fn trimmed(text: Seq<char>) -> Seq<char> {
    trimmed_end(trimmed_start(text))
}

/// Removes the white space at both ends.
pub fn trim(text: &str) -> (out: String)
    ensures
        out@ == trimmed(text@),
{
    let t = chars_of(text);
    let mut from: usize = 0;
    assert(t@.skip(0) =~= t@);
    while from < t.len() && is_white_space(t[from])
        invariant
            from <= t@.len(),
            t@ == text@,
            trimmed_start(t@.skip(from as int)) == trimmed_start(t@),
        decreases t@.len() - from,
    {
        assert(t@.skip(from as int).drop_first() =~= t@.skip(from + 1));
        from += 1;
    }
    let ghost rest = t@.skip(from as int);
    assert(trimmed_start(text@) == rest);
    let mut to: usize = t.len();
    assert(rest.take(rest.len() as int) =~= rest);
    while from < to && is_white_space(t[to - 1])
        invariant
            from <= to <= t@.len(),
            rest == t@.skip(from as int),
            trimmed_end(rest.take(to - from)) == trimmed_end(rest),
        decreases to - from,
    {
        assert(rest.take(to - from).last() == t@[to - 1]);
        assert(rest.take(to - from).drop_last() =~= rest.take(to - from - 1));
        to -= 1;
    }
    assert(to > from ==> rest.take(to - from).last() == t@[to - 1]);
    assert(trimmed_end(rest.take(to - from)) == rest.take(to - from));
    assert(rest.take(to - from) =~= t@.subrange(from as int, to as int));
    string_of(t.as_slice(), from, to)
}

/// Trimming removes exactly the white space at the ends: what is left is a
/// stretch of the text that neither begins nor ends with white space, and all
/// that went is white space.
pub proof fn trimmed_is_the_inner_stretch(text: Seq<char>)
    ensures
        exists|from: int, to: int|
            {
                &&& 0 <= from <= to <= text.len()
                &&& trimmed(text) == #[trigger] text.subrange(from, to)
                &&& forall|i: int| 0 <= i < from || to <= i < text.len() ==> white_space(text[i])
                &&& from < to ==> !white_space(text[from]) && !white_space(text[to - 1])
            },
{
    let from = lemma_trimmed_start(text);
    let rest = text.skip(from);
    let to = lemma_trimmed_end(rest);
    assert(rest.take(to) =~= text.subrange(from, from + to));
    assert forall|i: int| 0 <= i < from || from + to <= i < text.len() implies white_space(
        text[i],
    ) by {
        if i >= from {
            assert(rest[i - from] == text[i]);
        }
    }
    if to > 0 {
        assert(rest[0] == text[from]);
        assert(rest[to - 1] == text[from + to - 1]);
    }
}

/// Trimming a second time changes nothing.
pub proof fn trimming_twice_is_trimming_once(text: Seq<char>)
    ensures
        trimmed(trimmed(text)) == trimmed(text),
{
    trimmed_is_the_inner_stretch(text);
    let (from, to) = choose|from: int, to: int|
        {
            &&& 0 <= from <= to <= text.len()
            &&& trimmed(text) == #[trigger] text.subrange(from, to)
            &&& forall|i: int| 0 <= i < from || to <= i < text.len() ==> white_space(text[i])
            &&& from < to ==> !white_space(text[from]) && !white_space(text[to - 1])
        };
    let inner = trimmed(text);
    if inner.len() > 0 {
        assert(inner.first() == text[from]);
        assert(inner.last() == text[to - 1]);
    }
}

proof fn lemma_trimmed_start(text: Seq<char>) -> (from: int)
    ensures
        0 <= from <= text.len(),
        trimmed_start(text) == text.skip(from),
        forall|i: int| 0 <= i < from ==> white_space(text[i]),
        from < text.len() ==> !white_space(text[from]),
    decreases text.len(),
{
    if text.len() > 0 && white_space(text.first()) {
        let inner = lemma_trimmed_start(text.drop_first());
        assert(text.drop_first().skip(inner) =~= text.skip(inner + 1));
        assert forall|i: int| 0 <= i < inner + 1 implies white_space(text[i]) by {
            if i > 0 {
                assert(text.drop_first()[i - 1] == text[i]);
            }
        }
        if inner + 1 < text.len() {
            assert(text.drop_first()[inner] == text[inner + 1]);
        }
        inner + 1
    } else {
        assert(text.skip(0) =~= text);
        0
    }
}

proof fn lemma_trimmed_end(text: Seq<char>) -> (to: int)
    ensures
        0 <= to <= text.len(),
        trimmed_end(text) == text.take(to),
        forall|i: int| to <= i < text.len() ==> white_space(text[i]),
        to > 0 ==> !white_space(text[to - 1]),
        to > 0 && text.len() > 0 ==> text.take(to)[0] == text[0],
    decreases text.len(),
{
    if text.len() > 0 && white_space(text.last()) {
        let inner = lemma_trimmed_end(text.drop_last());
        assert(text.drop_last().take(inner) =~= text.take(inner));
        assert forall|i: int| inner <= i < text.len() implies white_space(text[i]) by {
            if i < text.len() - 1 {
                assert(text.drop_last()[i] == text[i]);
            }
        }
        inner
    } else {
        assert(text.take(text.len() as int) =~= text);
        text.len() as int
    }
}

/// A pattern stands in a text at a place exactly when the text is made of as
/// many characters as lie before that place, the pattern, and the rest.
pub proof fn pattern_stands_between_the_rest(a: Seq<char>, pattern: Seq<char>, b: Seq<char>, at: int)
    ensures
        occurs_at(a + pattern + b, pattern, a.len() as int),
        begins_with(pattern + b, pattern),
        has_text(a + pattern + b, pattern),
        occurs_at(a, pattern, at) ==> 0 <= at && at + pattern.len() <= a.len() && a == a.take(at)
            + pattern + a.skip(at + pattern.len()),
        begins_with(a, pattern) ==> a == pattern + a.skip(pattern.len() as int),
        has_text(a, pattern) ==> pattern.len() <= a.len(),
{
    let n = a.len() as int;
    assert((a + pattern + b).subrange(n, n + pattern.len()) =~= pattern);
    assert((pattern + b).subrange(0, pattern.len() as int) =~= pattern);
    assert(occurs_at(a + pattern + b, pattern, n));
    if occurs_at(a, pattern, at) {
        assert(a =~= a.take(at) + a.subrange(at, at + pattern.len()) + a.skip(at + pattern.len()));
    }
    if begins_with(a, pattern) {
        assert(a =~= a.subrange(0, pattern.len() as int) + a.skip(pattern.len() as int));
    }
}

/// At most so many characters are taken: all of a shorter text, else just as
/// many, from its start and unchanged.
pub proof fn characters_are_taken_from_the_start(text: Seq<char>, n: nat)
    ensures
        taken(text, n).len() <= n,
        taken(text, n).len() == n || taken(text, n) == text,
        begins_with(text, taken(text, n)),
{
    let t = taken(text, n);
    assert(text.subrange(0, t.len() as int) =~= t);
}

/// Of the first code points, white space are those from nine to thirteen, the
/// space, 133 and 160; letters, digits and signs are not. Beyond them it is the
/// spaces of general punctuation, of Ogham and of ideographs, and the separators
/// of lines and paragraphs; what has no width is not white space.
pub proof fn white_space_by_code_point(c: char)
    ensures
        (c as u32) < 0x100 ==> (white_space(c) <==> 9 <= c as u32 <= 13 || c as u32 == 32 || c as u32
            == 133 || c as u32 == 160),
        c as u32 >= 0x100 ==> (white_space(c) <==> c as u32 == 0x1680 || 0x2000 <= c as u32 <= 0x200A
            || c as u32 == 0x2028 || c as u32 == 0x2029 || c as u32 == 0x202F || c as u32 == 0x205F
            || c as u32 == 0x3000),
{
}

} // verus!
