//! Regular expressions.
//!
//! The expressions are those of the `regex` crate, which does all matching.
use vstd::prelude::*;

use crate::text::{occurs_at, opt_text};

verus! {

/// A regular expression of the `regex` crate.
#[verifier::external_type_specification]
#[verifier::external_body]
pub struct ExRegex(regex::Regex);

/// A compiled regular expression with the text that it was compiled from.
pub struct Matcher {
    pattern: String,
    ignore_case: bool,
    compiled: regex::Regex,
}

impl Matcher {
    /// The text of the expression.
    pub closed spec fn pattern(self) -> Seq<char> {
        self.pattern@
    }

    /// Whether letters match regardless of case.
    pub closed spec fn ignores_case(self) -> bool {
        self.ignore_case
    }
}

/// Whether a pattern of the `regex` crate matches anywhere in a text.
pub uninterp spec fn pattern_matches(
    pattern: Seq<char>,
    ignore_case: bool,
    text: Seq<char>,
) -> bool;

/// What the first group of a pattern of the `regex` crate captures in a text.
pub uninterp spec fn pattern_group(
    pattern: Seq<char>,
    ignore_case: bool,
    text: Seq<char>,
) -> Option<Seq<char>>;

/// The pattern for the CSRF token of a page.
pub open spec fn csrf_pattern() -> Seq<char> {
    "name=\"ol-csrfToken\" content=\"([^\"]+)\""@
}

/// What stands before the token.
pub open spec fn csrf_lead() -> Seq<char> {
    "name=\"ol-csrfToken\" content=\""@
}

/// Whether a token stands in a page between `from` and `to`: behind the lead,
/// up to the next quotation mark.
pub open spec fn token_at(page: Seq<char>, from: int, to: int) -> bool {
    &&& occurs_at(page, csrf_lead(), from - csrf_lead().len())
    &&& from < to < page.len()
    &&& page[to] == '"'
    &&& forall|i: int| from <= i < to ==> page[i] != '"'
}

/// Whether the first token of a page stands between `from` and `to`.
pub open spec fn first_token_at(page: Seq<char>, from: int, to: int) -> bool {
    &&& token_at(page, from, to)
    &&& forall|other: int, end: int| #[trigger] token_at(page, other, end) ==> from <= other
}

/// The CSRF token of a page.
pub open spec fn csrf_in(page: Seq<char>) -> Option<Seq<char>> {
    if exists|from: int, to: int| first_token_at(page, from, to) {
        let (from, to) = choose|from: int, to: int| first_token_at(page, from, to);
        Some(page.subrange(from, to))
    } else {
        None
    }
}

/// A page with a token has a first one, so that `csrf_in` finds it.
pub proof fn every_token_is_found(page: Seq<char>, from: int, to: int)
    requires
        token_at(page, from, to),
    ensures
        csrf_in(page) is Some,
    decreases from,
{
    if exists|other: int, end: int| #[trigger] token_at(page, other, end) && other < from {
        let (other, end) = choose|other: int, end: int| #[trigger]
            token_at(page, other, end) && other < from;
        every_token_is_found(page, other, end);
    } else {
        assert(first_token_at(page, from, to));
    }
}

impl Matcher {
    /// `regex::RegexBuilder` with `case_insensitive` and `build`. A pattern that
    /// is not valid is refused, and so is one whose compiled form takes more
    /// memory than the crate allows, which is not the same on every machine: so
    /// of patterns in general it is not claimed which are refused, nor with what
    /// text. The pattern of the CSRF token, which is short and valid, is
    /// accepted.
    #[verifier::external_body]
    pub(crate) fn compile(
        pattern: &str,
        ignore_case: bool,
    ) -> (matcher: core::result::Result<Matcher, String>)
        ensures
            match matcher {
                Ok(m) => m.pattern() == pattern@ && m.ignores_case() == ignore_case,
                Err(_) => true,
            },
            pattern@ == csrf_pattern() && !ignore_case ==> matcher is Ok,
    {
        match regex::RegexBuilder::new(pattern).case_insensitive(ignore_case).build() {
            Ok(compiled) => Ok(Matcher { pattern: pattern.to_owned(), ignore_case, compiled }),
            Err(e) => Err(e.to_string()),
        }
    }

    /// `regex::Regex::is_match`: whether the expression matches anywhere in the
    /// text, which is named `pattern_matches`.
    #[verifier::external_body]
    pub(crate) fn matches(&self, text: &str) -> (yes: bool)
        ensures
            yes == pattern_matches(self.pattern(), self.ignores_case(), text@),
    {
        self.compiled.is_match(text)
    }

    /// `regex::Regex::captures` and `Captures::get` for the first group, which
    /// is named `pattern_group`. For the pattern of the CSRF token, matched with
    /// regard to case, the leftmost match has its group behind the first lead
    /// that a token follows; the group holds no quotation mark and ends before
    /// one.
    #[verifier::external_body]
    pub(crate) fn first_group(&self, text: &str) -> (group: Option<String>)
        ensures
            opt_text(group) == pattern_group(self.pattern(), self.ignores_case(), text@),
            self.pattern() == csrf_pattern() && !self.ignores_case() ==> opt_text(group) == csrf_in(
                text@,
            ),
    {
        self.compiled.captures(text).and_then(|c| c.get(1)).map(|m| m.as_str().to_owned())
    }
}

/// The token of a page is all that stands between the quotation marks behind
/// the first place where one is announced.
pub proof fn first_token_is_read_in_full(page: Seq<char>, from: int, to: int)
    requires
        occurs_at(
            page,
            "name=\"ol-csrfToken\" content=\""@,
            from - "name=\"ol-csrfToken\" content=\""@.len(),
        ),
        from < to < page.len(),
        page[to] == '"',
        !page.subrange(from, to).contains('"'),
        forall|other: int, end: int| #[trigger] token_at(page, other, end) ==> from <= other,
    ensures
        csrf_in(page) == Some(page.subrange(from, to)),
{
    let token = page.subrange(from, to);
    assert forall|i: int| from <= i < to implies page[i] != '"' by {
        assert(token[i - from] == page[i]);
    }
    assert(first_token_at(page, from, to));
    let (first, end) = choose|first: int, end: int| first_token_at(page, first, end);
    assert(token_at(page, first, end));
    assert(token_at(page, from, to));
    assert(first == from);
    if end < to {
        assert(page[end] != '"');
    } else if to < end {
        assert(page[to] != '"');
    }
}

} // verus!
