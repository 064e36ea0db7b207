//! Numbered listings, line ranges and the check of what a document can hold.
use vstd::prelude::*;

use crate::edits::{common_prefix, common_prefix_is_longest, common_suffix, common_suffix_is_longest};
use crate::error::{unit_result, ErrorView, OverleafError, Result};
use crate::number::{
    alignment_puts_spaces_before, decimal, decimal_denotes, is_digit, push_aligned, right_aligned,
};
use crate::pieces::{
    cut_at_the_separator, join_restores_split, joined, lemma_split_append,
    separators_are_counted_by_place, split, split_on, split_pieces_are_free_of_the_separator,
    tail_of, texts_are_split_piece_by_piece,
};
use crate::text::{begins_with, chars_of, code_of, occurs_at, same_text, texts};

verus! {

// --- numbered listings ---------------------------------------------------

/// A line of a listing: its number in six columns, a tab, the line.
pub open spec fn numbered_line(number: nat, line: Seq<char>) -> Seq<char> {
    right_aligned(decimal(number), 6) + "\t"@ + line + "\n"@
}

/// The listing of `lines[from..to]`.
pub open spec fn listing(lines: Seq<Seq<char>>, from: int, to: int) -> Seq<char>
    decreases to - from,
{
    if from >= to {
        Seq::empty()
    } else {
        listing(lines, from, to - 1) + numbered_line(to as nat, lines[to - 1])
    }
}

/// The index of the first line to show; `offset` counts lines from one.
pub open spec fn first_line(offset: nat) -> nat {
    if offset == 0 {
        0
    } else {
        (offset - 1) as nat
    }
}

/// The index behind the last line to show.
pub open spec fn line_limit(offset: nat, limit: Option<usize>, total: nat) -> nat {
    match limit {
        Some(limit) => if first_line(offset) + limit < total {
            first_line(offset) + limit as nat
        } else {
            total
        },
        None => total,
    }
}

/// The numbered listing of a text from line `offset` on, at most `limit` lines.
pub open spec fn numbered(content: Seq<char>, offset: nat, limit: Option<usize>) -> Seq<char> {
    let lines = split_on(content, '\n');
    listing(lines, first_line(offset) as int, line_limit(offset, limit, lines.len()) as int)
}

/// The number of lines of a text.
pub open spec fn line_count(content: Seq<char>) -> nat {
    split_on(content, '\n').len()
}

/// Renders a numbered listing; also tells how many lines the text has in all.
pub fn render_numbered(content: &str, offset: usize, limit: Option<usize>) -> (out: (String, usize))
    ensures
        out.0@ == numbered(content@, offset as nat, limit),
        out.1 == line_count(content@),
{
    let lines = split(content, '\n');
    let total: usize = lines.len();
    let start: usize = if offset == 0 {
        0
    } else {
        offset - 1
    };
    let end: usize = match limit {
        Some(limit) => {
            if start <= total && limit < total - start {
                start + limit
            } else {
                total
            }
        },
        None => total,
    };
    let ghost all = texts(lines@);
    let mut out = String::new();
    let mut idx: usize = start;
    while idx < end
        invariant
            start <= idx,
            idx <= end || idx == start,
            end <= total,
            total == lines@.len(),
            all == texts(lines@),
            out@ == listing(all, start as int, idx as int),
        decreases end - idx,
    {
        push_aligned(&mut out, idx as u64 + 1, 6);
        out.append("\t");
        out.append(lines[idx].as_str());
        out.append("\n");
        assert(out@ =~= listing(all, start as int, idx as int) + numbered_line(
            (idx + 1) as nat,
            all[idx as int],
        ));
        idx += 1;
    }
    (out, total)
}

/// The number of lines is one more than the number of line feeds.
pub proof fn lines_are_counted_by_line_feeds(content: Seq<char>)
    ensures
        line_count(content) == content.filter(|c: char| c == '\n').len() + 1,
{
    separators_are_counted_by_place(content, '\n');
}

/// How many lines from `offset` on a listing can show.
pub open spec fn lines_from(content: Seq<char>, offset: nat) -> int {
    let first: int = if offset == 0 {
        1
    } else {
        offset as int
    };
    let left = split_on(content, '\n').len() - first + 1;
    if left > 0 {
        left
    } else {
        0
    }
}

/// Whether a line of a listing shows the line with the given number: before its
/// first tab stands the number, with spaces before it up to six columns, and
/// behind the tab the line as it is.
pub open spec fn shows_line(row: Seq<char>, number: nat, line: Seq<char>) -> bool {
    let head = row.take(row.len() - line.len() - 1);
    let pad = head.len() - decimal(number).len();
    &&& row.len() > line.len()
    &&& row.skip(row.len() - line.len()) == line
    &&& row[row.len() - line.len() - 1] == '\t'
    &&& 0 <= pad
    &&& head.len() == 6 || pad == 0 && head.len() > 6
    &&& head.skip(pad) == decimal(number)
    &&& forall|i: int| 0 <= i < pad ==> #[trigger] head[i] == ' '
}

proof fn lemma_row(number: nat, line: Seq<char>)
    requires
        !line.contains('\n'),
    ensures
        ({
            let row = right_aligned(decimal(number), 6) + "\t"@ + line;
            &&& numbered_line(number, line) == row + seq!['\n']
            &&& shows_line(row, number, line)
            &&& !row.contains('\n')
            &&& tail_of(row, '\t') == Some(line)
        }),
{
    reveal_strlit("\t");
    reveal_strlit("\n");
    let head = right_aligned(decimal(number), 6);
    let row = head + "\t"@ + line;
    alignment_puts_spaces_before(decimal(number), 6);
    decimal_denotes(number);
    assert(numbered_line(number, line) =~= row + seq!['\n']);
    assert(row.take(row.len() - line.len() - 1) =~= head);
    assert(row.skip(row.len() - line.len()) =~= line);
    let pad = head.len() - decimal(number).len();
    assert forall|i: int| 0 <= i < head.len() implies #[trigger] head[i] == ' ' || '0' <= head[i]
        <= '9' by {
        if i >= pad {
            assert(head[i] == head.skip(pad)[i - pad]);
            assert(is_digit(decimal(number)[i - pad]));
        }
    }
    if row.contains('\n') {
        let k = row.index_of('\n');
        if k > head.len() {
            assert(line[k - head.len() - 1] == '\n');
        }
    }
    assert(!head.contains('\t'));
    assert(row =~= head + seq!['\t'] + line);
    cut_at_the_separator(head, '\t', line);
}

/// The rows of the listing of `lines[from..to]`.
proof fn lemma_listing_rows(lines: Seq<Seq<char>>, from: int, to: int)
    requires
        0 <= from,
        to <= lines.len(),
        forall|i: int| 0 <= i < lines.len() ==> !(#[trigger] lines[i]).contains('\n'),
    ensures
        ({
            let rows = split_on(listing(lines, from, to), '\n');
            let n = if from < to {
                to - from
            } else {
                0
            };
            &&& rows.len() == n + 1
            &&& rows.last().len() == 0
            &&& forall|i: int|
                0 <= i < n ==> shows_line(
                    #[trigger] rows[i],
                    (from + i + 1) as nat,
                    lines[from + i],
                ) && tail_of(rows[i], '\t') == Some(lines[from + i])
        }),
    decreases to - from,
{
    let text = listing(lines, from, to);
    let rows = split_on(text, '\n');
    if from < to {
        let before = listing(lines, from, to - 1);
        lemma_listing_rows(lines, from, to - 1);
        assert(!lines[to - 1].contains('\n'));
        lemma_row(to as nat, lines[to - 1]);
        let row = right_aligned(decimal(to as nat), 6) + "\t"@ + lines[to - 1];
        let none = Seq::<char>::empty();
        let old = split_on(before, '\n');
        split_pieces_are_free_of_the_separator(before, '\n');
        lemma_split_append(before, row, '\n');
        assert(old.last() + row =~= row);
        assert(text =~= (before + row) + seq!['\n'] + none);
        texts_are_split_piece_by_piece(before + row, none, '\n');
        assert(split_on(none, '\n') =~= seq![none]);
        assert(rows =~= old.drop_last() + seq![row, none]);
        let n = to - from;
        assert forall|i: int| 0 <= i < n implies shows_line(
            #[trigger] rows[i],
            (from + i + 1) as nat,
            lines[from + i],
        ) && tail_of(rows[i], '\t') == Some(lines[from + i]) by {
            if i < n - 1 {
                assert(rows[i] == old[i]);
            }
        }
    }
}

/// A listing shows exactly the lines from `offset` on, at most `limit` of them,
/// one to a row and each as it is, with its number before it.
pub proof fn listing_shows_the_lines(content: Seq<char>, offset: nat, limit: Option<usize>)
    ensures
        ({
            let lines = split_on(content, '\n');
            let rows = split_on(numbered(content, offset, limit), '\n');
            let from: int = if offset == 0 {
                1
            } else {
                offset as int
            };
            let n = rows.len() - 1;
            &&& n == match limit {
                Some(limit) => if limit < lines_from(content, offset) {
                    limit as int
                } else {
                    lines_from(content, offset)
                },
                None => lines_from(content, offset),
            }
            &&& rows.last().len() == 0
            &&& forall|i: int|
                0 <= i < n ==> shows_line(
                    #[trigger] rows[i],
                    (from + i) as nat,
                    lines[from - 1 + i],
                ) && tail_of(rows[i], '\t') == Some(lines[from - 1 + i])
        }),
{
    let lines = split_on(content, '\n');
    split_pieces_are_free_of_the_separator(content, '\n');
    lemma_listing_rows(
        lines,
        first_line(offset) as int,
        line_limit(offset, limit, lines.len()) as int,
    );
}

/// A listing of all lines loses nothing: what stands behind the first tab of each
/// row, joined with line feeds, is the text.
pub proof fn listing_gives_the_text_back(content: Seq<char>, offset: nat)
    requires
        offset <= 1,
    ensures
        ({
            let rows = split_on(numbered(content, offset, None), '\n');
            joined(
                Seq::new((rows.len() - 1) as nat, |i: int| tail_of(rows[i], '\t')->0),
                seq!['\n'],
            ) == content
        }),
{
    let lines = split_on(content, '\n');
    let rows = split_on(numbered(content, offset, None), '\n');
    listing_shows_the_lines(content, offset, None);
    split_pieces_are_free_of_the_separator(content, '\n');
    join_restores_split(content, '\n');
    assert(Seq::new((rows.len() - 1) as nat, |i: int| tail_of(rows[i], '\t')->0) =~= lines);
}

/// The number of lines of a text.
pub fn count_lines(content: &str) -> (n: usize)
    ensures
        n == line_count(content@),
{
    let lines = split(content, '\n');
    lines.len()
}

// --- what changed --------------------------------------------------------

/// The range of lines of `after` that differs from `before`, counted from one,
/// both ends within it: what lies between the common lines at the start and at
/// the end. A pure deletion points at the line where the rest was joined.
pub open spec fn drift(before: Seq<char>, after: Seq<char>) -> Option<(int, int)> {
    if before == after {
        None
    } else {
        let b = split_on(before, '\n');
        let a = split_on(after, '\n');
        let shorter: int = if b.len() <= a.len() {
            b.len() as int
        } else {
            a.len() as int
        };
        let head = common_prefix(b, a) as int;
        let tail: int = if common_suffix(b, a) <= shorter - head {
            common_suffix(b, a) as int
        } else {
            shorter - head
        };
        let start = head + 1;
        let end = a.len() - tail;
        if end >= start {
            Some((start, end))
        } else if head >= 1 {
            Some((head, head))
        } else {
            Some((1, 1))
        }
    }
}

/// The range names lines of the new text, and outside it nothing changed: the
/// lines before it are those at the start of the old text, the lines behind it
/// those at its end.
pub proof fn drift_covers_every_change(before: Seq<char>, after: Seq<char>)
    requires
        before != after,
    ensures
        ({
            let b = split_on(before, '\n');
            let a = split_on(after, '\n');
            let range = drift(before, after)->0;
            &&& drift(before, after) is Some
            &&& 1 <= range.0 <= range.1 <= a.len()
            &&& range.0 - 1 <= b.len()
            &&& a.take(range.0 - 1) == b.take(range.0 - 1)
            &&& a.len() - range.1 <= b.len()
            &&& a.skip(range.1) == b.skip(b.len() - (a.len() - range.1))
        }),
{
    let b = split_on(before, '\n');
    let a = split_on(after, '\n');
    split_pieces_are_free_of_the_separator(before, '\n');
    split_pieces_are_free_of_the_separator(after, '\n');
    common_prefix_is_longest(b, a);
    common_suffix_is_longest(b, a);
    let head = common_prefix(b, a) as int;
    let tail = common_suffix(b, a) as int;
    let range = drift(before, after)->0;
    assert(a.take(range.0 - 1) =~= a.take(head).take(range.0 - 1));
    assert(b.take(range.0 - 1) =~= b.take(head).take(range.0 - 1));
    let left = a.len() - range.1;
    assert(left <= tail);
    assert(a.skip(range.1) =~= a.skip(a.len() - tail).skip(tail - left));
    assert(b.skip(b.len() - left) =~= b.skip(b.len() - tail).skip(tail - left));
}

/// The range is no wider than it has to be: whatever lines the two texts share
/// at the start and at the end, without one line counting for both, at most the
/// lines between them are named, or a single one, and none of those at the
/// start but the last.
pub proof fn drift_names_no_more_than_the_change(
    before: Seq<char>,
    after: Seq<char>,
    first: int,
    last: int,
)
    requires
        before != after,
        0 <= first,
        0 <= last,
        first + last <= split_on(before, '\n').len(),
        first + last <= split_on(after, '\n').len(),
        split_on(after, '\n').take(first) == split_on(before, '\n').take(first),
        split_on(after, '\n').skip(split_on(after, '\n').len() - last) == split_on(
            before,
            '\n',
        ).skip(split_on(before, '\n').len() - last),
    ensures
        drift(before, after) matches Some(range) && range.0 >= first && (range.1 - range.0 + 1
            <= split_on(after, '\n').len() - first - last || range.0 == range.1),
{
    let b = split_on(before, '\n');
    let a = split_on(after, '\n');
    common_prefix_is_longest(b, a);
    common_suffix_is_longest(b, a);
    let head = common_prefix(b, a) as int;
    let tail = common_suffix(b, a) as int;
    if first > head {
        assert(a.take(first)[head] == a[head]);
        assert(b.take(first)[head] == b[head]);
    }
    if last > tail {
        assert(a.skip(a.len() - last)[last - tail - 1] == a[a.len() - tail - 1]);
        assert(b.skip(b.len() - last)[last - tail - 1] == b[b.len() - tail - 1]);
    }
}

/// The lines that two lists share at the start.
fn shared_first(b: &Vec<String>, a: &Vec<String>) -> (k: usize)
    ensures
        k == common_prefix(texts(b@), texts(a@)),
        k <= b@.len(),
        k <= a@.len(),
{
    let ghost x = texts(b@);
    let ghost y = texts(a@);
    let mut k: usize = 0;
    assert(x.skip(0) =~= x);
    assert(y.skip(0) =~= y);
    while k < b.len() && k < a.len() && same_text(b[k].as_str(), a[k].as_str())
        invariant
            k <= b@.len(),
            k <= a@.len(),
            x == texts(b@),
            y == texts(a@),
            common_prefix(x, y) == k + common_prefix(x.skip(k as int), y.skip(k as int)),
        decreases b@.len() - k,
    {
        assert(x.skip(k as int).drop_first() =~= x.skip(k + 1));
        assert(y.skip(k as int).drop_first() =~= y.skip(k + 1));
        k += 1;
    }
    k
}

/// The lines that two lists share at the end.
fn shared_last(b: &Vec<String>, a: &Vec<String>) -> (m: usize)
    ensures
        m == common_suffix(texts(b@), texts(a@)),
        m <= b@.len(),
        m <= a@.len(),
{
    let ghost x = texts(b@);
    let ghost y = texts(a@);
    let n: usize = b.len();
    let l: usize = a.len();
    let mut m: usize = 0;
    assert(x.take(x.len() as int) =~= x);
    assert(y.take(y.len() as int) =~= y);
    while m < n && m < l && same_text(b[n - 1 - m].as_str(), a[l - 1 - m].as_str())
        invariant
            m <= n,
            m <= l,
            n == b@.len(),
            l == a@.len(),
            x == texts(b@),
            y == texts(a@),
            common_suffix(x, y) == m + common_suffix(x.take(n - m), y.take(l - m)),
        decreases n - m,
    {
        assert(x.take(n - m).drop_last() =~= x.take(n - m - 1));
        assert(y.take(l - m).drop_last() =~= y.take(l - m - 1));
        m += 1;
    }
    m
}

/// The range of lines of `after` that differs from `before`.
pub fn changed_line_range(before: &str, after: &str) -> (range: Option<(usize, usize)>)
    ensures
        match range {
            Some(r) => drift(before@, after@) == Some((r.0 as int, r.1 as int)),
            None => drift(before@, after@) is None,
        },
{
    if same_text(before, after) {
        return None;
    }
    let b = split(before, '\n');
    let a = split(after, '\n');
    let shorter: usize = if b.len() <= a.len() {
        b.len()
    } else {
        a.len()
    };
    let head = shared_first(&b, &a);
    let common = shared_last(&b, &a);
    let tail: usize = if common <= shorter - head {
        common
    } else {
        shorter - head
    };
    let end: usize = a.len() - tail;
    if end > head {
        Some((head + 1, end))
    } else if head >= 1 {
        Some((head, head))
    } else {
        Some((1, 1))
    }
}

// --- characters that a document cannot hold ------------------------------

/// The text that `Debug` writes for a character.
pub uninterp spec fn char_debug(c: char) -> Seq<char>;

/// `format!("{:?}")` of a character: the character in single quotes, escaped
/// where it cannot be shown. The text depends on the character alone; which
/// characters are escaped is not said.
#[verifier::external_body]
fn debug_char(c: char) -> (text: String)
    ensures
        text@ == char_debug(c),
{
    format!("{c:?}")
}

/// The first character outside the basic multilingual plane.
pub open spec fn first_outside_bmp(text: Seq<char>) -> Option<char>
    decreases text.len(),
{
    if text.len() == 0 {
        None
    } else if text.first() as u32 > 0xFFFF {
        Some(text.first())
    } else {
        first_outside_bmp(text.drop_first())
    }
}

/// Whether every character lies in the basic multilingual plane.
pub open spec fn within_bmp(text: Seq<char>) -> bool {
    forall|i: int| 0 <= i < text.len() ==> (#[trigger] text[i]) as u32 <= 0xFFFF
}

/// A text is refused exactly when it holds a character outside the plane.
pub proof fn outside_bmp_is_found(text: Seq<char>)
    ensures
        first_outside_bmp(text) is None <==> within_bmp(text),
    decreases text.len(),
{
    if text.len() > 0 {
        outside_bmp_is_found(text.drop_first());
        if within_bmp(text) {
            assert forall|i: int| 0 <= i < text.drop_first().len() implies (
            #[trigger] text.drop_first()[i]) as u32 <= 0xFFFF by {
                assert(text.drop_first()[i] == text[i + 1]);
            }
        }
        if within_bmp(text.drop_first()) && text.first() as u32 <= 0xFFFF {
            assert forall|i: int| 0 <= i < text.len() implies (#[trigger] text[i]) as u32
                <= 0xFFFF by {
                if i > 0 {
                    assert(text.drop_first()[i - 1] == text[i]);
                }
            }
        }
    }
}

/// The error for a text with a character that a document cannot store, which
/// is shown as `shown`.
pub open spec fn unstorable(what: Seq<char>, shown: Seq<char>) -> ErrorView {
    ErrorView::Edit(
        what + " contains "@ + shown
            + ", a character outside the Unicode BMP; Overleaf documents cannot store it (emoji etc.) — replace it, e.g. with a LaTeX escape, and retry"@,
    )
}

/// What the check of a text for a document comes to.
pub open spec fn bmp_check(text: Seq<char>, what: Seq<char>) -> std::result::Result<(), ErrorView> {
    match first_outside_bmp(text) {
        Some(c) => Err(unstorable(what, char_debug(c))),
        None => Ok(()),
    }
}

/// The error for a text with a character that a document cannot store, which
/// is shown as `shown`.
pub fn unstorable_error(what: &str, shown: &str) -> (error: OverleafError)
    ensures
        error@ == unstorable(what@, shown@),
{
    let mut message = what.to_owned();
    message.append(" contains ");
    message.append(shown);
    message.append(
        ", a character outside the Unicode BMP; Overleaf documents cannot store it (emoji etc.) — replace it, e.g. with a LaTeX escape, and retry",
    );
    OverleafError::Edit(message)
}

/// Refuses text with characters that an Overleaf document cannot store.
pub fn reject_non_bmp(text: &str, what: &str) -> (result: Result<()>)
    ensures
        unit_result(result) == bmp_check(text@, what@),
{
    let t = chars_of(text);
    let mut i: usize = 0;
    assert(t@.skip(0) =~= t@);
    while i < t.len()
        invariant
            i <= t@.len(),
            t@ == text@,
            first_outside_bmp(t@.skip(i as int)) == first_outside_bmp(text@),
        decreases t@.len() - i,
    {
        if code_of(t[i]) > 0xFFFF {
            return Err(unstorable_error(what, debug_char(t[i]).as_str()));
        }
        assert(t@.skip(i as int).drop_first() =~= t@.skip(i + 1));
        i += 1;
    }
    Ok(())
}

/// The character that a text is refused for is the first whose code point has
/// more than four hexadecimal digits, and the refusal names the text and shows
/// that character.
pub proof fn refusal_shows_the_first_such_character(text: Seq<char>, what: Seq<char>, at: int)
    requires
        0 <= at < text.len(),
        text[at] as u32 > 0xFFFF,
        forall|i: int| 0 <= i < at ==> (#[trigger] text[i]) as u32 <= 0xFFFF,
    ensures
        first_outside_bmp(text) == Some(text[at]),
        bmp_check(text, what) matches Err(ErrorView::Edit(message)) && begins_with(message, what)
            && occurs_at(message, char_debug(text[at]), (what + " contains "@).len() as int),
    decreases text.len(),
{
    if at > 0 {
        assert(text.first() == text[0]);
        let rest = text.drop_first();
        assert(rest[at - 1] == text[at]);
        assert forall|i: int| 0 <= i < at - 1 implies (#[trigger] rest[i]) as u32 <= 0xFFFF by {
            assert(rest[i] == text[i + 1]);
        }
        refusal_shows_the_first_such_character(rest, what, at - 1);
    }
    let shown = char_debug(text[at]);
    let end =
        ", a character outside the Unicode BMP; Overleaf documents cannot store it (emoji etc.) — replace it, e.g. with a LaTeX escape, and retry"@;
    let message = what + " contains "@ + shown + end;
    assert(message.subrange(0, what.len() as int) =~= what);
    let from = (what + " contains "@).len() as int;
    assert(message.subrange(from, from + shown.len()) =~= shown);
}

} // verus!
