//! Errors and warnings in the log of a LaTeX run.
use vstd::prelude::*;
use vstd::utf8::{decode_utf8, valid_utf8};

use crate::number::{decimal, push_decimal};
use crate::pieces::{join, joined, lines, lines_of};
use crate::text::{
    begins_with, contains_text, has_text, occurs_at, starts_with, texts, trim, trimmed,
    trimmed_is_the_inner_stretch, white_space,
};

verus! {

// --- reading bytes as text -----------------------------------------------

/// What `String::from_utf8_lossy` makes of a sequence of bytes.
pub uninterp spec fn lossy_text(bytes: Seq<u8>) -> Seq<char>;

/// `String::from_utf8_lossy`, whose result is named `lossy_text`. Bytes that
/// are valid UTF-8 give the text that they encode.
#[verifier::external_body]
pub(crate) fn text_from_bytes(bytes: &Vec<u8>) -> (text: String)
    ensures
        text@ == lossy_text(bytes@),
        valid_utf8(bytes@) ==> text@ == decode_utf8(bytes@),
{
    String::from_utf8_lossy(bytes).into_owned()
}

// --- the summary ---------------------------------------------------------

/// The errors and warnings of a log.
#[derive(Debug)]
pub struct LogSummary {
    pub errors: Vec<String>,
    pub warnings: Vec<String>,
}

/// The errors and warnings of a log, as plain values.
pub struct SummaryView {
    pub errors: Seq<Seq<char>>,
    pub warnings: Seq<Seq<char>>,
}

impl View for LogSummary {
    type V = SummaryView;

    open spec fn view(&self) -> SummaryView {
        SummaryView { errors: texts(self.errors@), warnings: texts(self.warnings@) }
    }
}

/// Whether a line reports an error.
pub open spec fn is_error_line(line: Seq<char>) -> bool {
    line.len() > 0 && line[0] == '!'
}

/// Whether a line reports a warning.
pub open spec fn is_warning_line(line: Seq<char>) -> bool {
    ||| has_text(line, "LaTeX Warning:"@)
    ||| begins_with(line, "Package"@) && has_text(line, "Warning:"@)
}

/// Where the details of an error end: at a blank line, at the end of the log,
/// or behind `last`.
pub open spec fn details_end(log: Seq<Seq<char>>, from: int, last: int) -> int
    decreases log.len() - from,
{
    if 0 <= from < log.len() && from <= last && trimmed(log[from]).len() > 0 {
        details_end(log, from + 1, last)
    } else {
        from
    }
}

/// An error with its details, up to six lines, as one text.
pub open spec fn error_block(log: Seq<Seq<char>>, at: int) -> Seq<char> {
    joined(log.subrange(at, details_end(log, at + 1, at + 6)), "\n    "@)
}

/// The summary of a log from a line on, with what was found before it. At most
/// `most` errors and `most` warnings are kept; the lines of an error's details
/// are not looked at again.
pub open spec fn summary_from(
    log: Seq<Seq<char>>,
    at: int,
    found: SummaryView,
    most: nat,
) -> SummaryView
    decreases log.len() - at,
{
    if at < 0 || at >= log.len() {
        found
    } else if is_error_line(log[at]) && found.errors.len() < most {
        proof {
            details_end_in_time(log, at + 1, at + 6);
        }
        summary_from(
            log,
            details_end(log, at + 1, at + 6),
            SummaryView { errors: found.errors.push(error_block(log, at)), ..found },
            most,
        )
    } else if is_warning_line(log[at]) && found.warnings.len() < most {
        summary_from(
            log,
            at + 1,
            SummaryView { warnings: found.warnings.push(trimmed(log[at])), ..found },
            most,
        )
    } else {
        summary_from(log, at + 1, found, most)
    }
}

/// The summary of a log.
pub open spec fn summary_of(log: Seq<char>, most: nat) -> SummaryView {
    summary_from(
        lines_of(log),
        0,
        SummaryView { errors: Seq::empty(), warnings: Seq::empty() },
        most,
    )
}

/// The details of an error end behind its own line and within the log, after
/// no more lines than allowed.
pub proof fn details_end_in_time(log: Seq<Seq<char>>, from: int, last: int)
    requires
        0 <= from <= log.len(),
        from <= last + 1,
    ensures
        from <= details_end(log, from, last) <= log.len(),
        details_end(log, from, last) <= last + 1,
    decreases log.len() - from,
{
    if from < log.len() && from <= last && trimmed(log[from]).len() > 0 {
        details_end_in_time(log, from + 1, last);
    }
}

proof fn lemma_summary_bound(log: Seq<Seq<char>>, at: int, found: SummaryView, most: nat)
    requires
        found.errors.len() <= most,
        found.warnings.len() <= most,
    ensures
        summary_from(log, at, found, most).errors.len() <= most,
        summary_from(log, at, found, most).warnings.len() <= most,
    decreases log.len() - at,
{
    if 0 <= at < log.len() {
        if is_error_line(log[at]) && found.errors.len() < most {
            details_end_in_time(log, at + 1, at + 6);
            lemma_summary_bound(
                log,
                details_end(log, at + 1, at + 6),
                SummaryView { errors: found.errors.push(error_block(log, at)), ..found },
                most,
            );
        } else if is_warning_line(log[at]) && found.warnings.len() < most {
            lemma_summary_bound(
                log,
                at + 1,
                SummaryView { warnings: found.warnings.push(trimmed(log[at])), ..found },
                most,
            );
        } else {
            lemma_summary_bound(log, at + 1, found, most);
        }
    }
}

/// A summary never holds more errors or warnings than asked for.
pub proof fn summary_is_bounded(log: Seq<char>, most: nat)
    ensures
        summary_of(log, most).errors.len() <= most,
        summary_of(log, most).warnings.len() <= most,
{
    lemma_summary_bound(
        lines_of(log),
        0,
        SummaryView { errors: Seq::empty(), warnings: Seq::empty() },
        most,
    );
}

/// A log has a summary without errors exactly when no line of it reports one,
/// as long as any error is asked for.
pub proof fn first_error_is_found(log: Seq<Seq<char>>, at: int, found: SummaryView, most: nat)
    requires
        0 <= at,
        most > 0,
        found.errors.len() <= most,
    ensures
        summary_from(log, at, found, most).errors.len() > 0 <==> found.errors.len() > 0 || exists|
            i: int,
        | at <= i < log.len() && is_error_line(#[trigger] log[i]),
    decreases log.len() - at,
{
    if at < log.len() {
        if is_error_line(log[at]) && found.errors.len() < most {
            let end = details_end(log, at + 1, at + 6);
            details_end_in_time(log, at + 1, at + 6);
            let more = SummaryView { errors: found.errors.push(error_block(log, at)), ..found };
            first_error_is_found(log, end, more, most);
            assert(is_error_line(log[at]));
        } else if is_warning_line(log[at]) && found.warnings.len() < most {
            let more = SummaryView { warnings: found.warnings.push(trimmed(log[at])), ..found };
            first_error_is_found(log, at + 1, more, most);
            lemma_error_from(log, at, found, most);
        } else {
            first_error_is_found(log, at + 1, found, most);
            lemma_error_from(log, at, found, most);
        }
    }
}

proof fn lemma_error_from(log: Seq<Seq<char>>, at: int, found: SummaryView, most: nat)
    requires
        0 <= at < log.len(),
        most > 0,
        !(is_error_line(log[at]) && found.errors.len() < most),
        found.errors.len() <= most,
    ensures
        (found.errors.len() > 0 || exists|i: int| at <= i < log.len() && is_error_line(
            #[trigger] log[i],
        )) <==> (found.errors.len() > 0 || exists|i: int|
            at + 1 <= i < log.len() && is_error_line(#[trigger] log[i])),
{
    if exists|i: int| at <= i < log.len() && is_error_line(#[trigger] log[i]) {
        let i = choose|i: int| at <= i < log.len() && is_error_line(#[trigger] log[i]);
        if i > at {
            assert(at + 1 <= i < log.len() && is_error_line(log[i]));
        }
    }
}

/// Whether a line holds nothing but white space.
pub open spec fn blank(line: Seq<char>) -> bool {
    forall|i: int| 0 <= i < line.len() ==> white_space(#[trigger] line[i])
}

/// Whether the lines from `start` up to `end` are an error and its details: the
/// details are at most six lines, none of them blank, and go on as long as they
/// can.
pub open spec fn block_at(log: Seq<Seq<char>>, start: int, end: int) -> bool {
    &&& 0 <= start < end <= log.len()
    &&& end <= start + 7
    &&& forall|i: int| start < i < end ==> !blank(#[trigger] log[i])
    &&& end == log.len() || end == start + 7 || blank(log[end])
}

/// What a log says, with the lines that say it: for each error where its lines
/// begin and where they end, for each warning its line.
pub struct Findings {
    pub errors: Seq<Seq<char>>,
    pub starts: Seq<int>,
    pub ends: Seq<int>,
    pub warnings: Seq<Seq<char>>,
    pub warned: Seq<int>,
}

/// Whether a line belongs to one of the errors.
pub open spec fn in_a_block(found: Findings, i: int) -> bool {
    exists|k: int| 0 <= k < found.starts.len() && (#[trigger] found.starts[k]) <= i < found.ends[k]
}

/// Whether the errors are those of the log from line `from` on, up to `most` of
/// them: each begins with a line that begins with `!`, and every such line
/// belongs to one of them or comes behind the last that was asked for.
pub open spec fn finds_the_errors(
    log: Seq<Seq<char>>,
    from: int,
    most: int,
    found: Findings,
) -> bool {
    let n = found.errors.len() as int;
    &&& n <= most
    &&& found.starts.len() == n
    &&& found.ends.len() == n
    &&& forall|k: int|
        0 <= k < n ==> {
            &&& from <= #[trigger] found.starts[k]
            &&& block_at(log, found.starts[k], found.ends[k])
            &&& log[found.starts[k]].len() > 0 && log[found.starts[k]][0] == '!'
            &&& found.errors[k] == joined(
                log.subrange(found.starts[k], found.ends[k]),
                "\n    "@,
            )
        }
    &&& forall|k: int, j: int|
        0 <= k < j < n ==> #[trigger] found.ends[k] <= #[trigger] found.starts[j]
    &&& forall|i: int|
        from <= i < log.len() && (#[trigger] log[i]).len() > 0 && log[i][0] == '!' ==> in_a_block(
            found,
            i,
        ) || (n == most && (n == 0 || i >= found.ends[n - 1]))
}

/// Whether the warnings are those of the log from line `from` on, up to `most`
/// of them: each is a line outside of the errors that says so, without white
/// space around it, and every such line is among them or comes behind the last
/// that was asked for.
pub open spec fn finds_the_warnings(
    log: Seq<Seq<char>>,
    from: int,
    most: int,
    found: Findings,
) -> bool {
    let n = found.warnings.len() as int;
    &&& n <= most
    &&& found.warned.len() == n
    &&& forall|k: int|
        0 <= k < n ==> {
            &&& from <= #[trigger] found.warned[k] < log.len()
            &&& is_warning_line(log[found.warned[k]])
            &&& !in_a_block(found, found.warned[k])
            &&& found.warnings[k] == trimmed(log[found.warned[k]])
        }
    &&& forall|k: int, j: int|
        0 <= k < j < n ==> #[trigger] found.warned[k] < #[trigger] found.warned[j]
    &&& forall|i: int|
        from <= i < log.len() && is_warning_line(#[trigger] log[i]) ==> in_a_block(found, i)
            || found.warned.contains(i) || (n == most && (n == 0 || i > found.warned[n - 1]))
}

proof fn lemma_blank(line: Seq<char>)
    ensures
        trimmed(line).len() == 0 <==> blank(line),
{
    trimmed_is_the_inner_stretch(line);
    let (from, to) = choose|from: int, to: int|
        {
            &&& 0 <= from <= to <= line.len()
            &&& trimmed(line) == #[trigger] line.subrange(from, to)
            &&& forall|i: int| 0 <= i < from || to <= i < line.len() ==> white_space(line[i])
            &&& from < to ==> !white_space(line[from]) && !white_space(line[to - 1])
        };
    if trimmed(line).len() == 0 {
        assert(from == to);
    }
}

proof fn lemma_details(log: Seq<Seq<char>>, from: int, last: int)
    requires
        0 <= from <= log.len(),
        from <= last + 1,
    ensures
        ({
            let end = details_end(log, from, last);
            &&& from <= end <= log.len()
            &&& end <= last + 1
            &&& forall|i: int| from <= i < end ==> !blank(#[trigger] log[i])
            &&& end == log.len() || end == last + 1 || blank(log[end])
        }),
    decreases log.len() - from,
{
    if from < log.len() {
        lemma_blank(log[from]);
        if from <= last && trimmed(log[from]).len() > 0 {
            lemma_details(log, from + 1, last);
        }
    }
}

proof fn lemma_findings(log: Seq<Seq<char>>, at: int, found: SummaryView, most: nat) -> (now:
    Findings)
    requires
        0 <= at,
        found.errors.len() <= most,
        found.warnings.len() <= most,
    ensures
        finds_the_errors(log, at, most - found.errors.len(), now),
        finds_the_warnings(log, at, most - found.warnings.len(), now),
        summary_from(log, at, found, most).errors == found.errors + now.errors,
        summary_from(log, at, found, most).warnings == found.warnings + now.warnings,
    decreases log.len() - at,
{
    let em = most - found.errors.len();
    let wm = most - found.warnings.len();
    if at >= log.len() {
        let now = Findings {
            errors: Seq::empty(),
            starts: Seq::empty(),
            ends: Seq::empty(),
            warnings: Seq::empty(),
            warned: Seq::empty(),
        };
        assert(found.errors + now.errors =~= found.errors);
        assert(found.warnings + now.warnings =~= found.warnings);
        now
    } else if is_error_line(log[at]) && found.errors.len() < most {
        lemma_details(log, at + 1, at + 6);
        let end = details_end(log, at + 1, at + 6);
        let block = error_block(log, at);
        let more = SummaryView { errors: found.errors.push(block), ..found };
        let rest = lemma_findings(log, end, more, most);
        let now = Findings {
            errors: seq![block] + rest.errors,
            starts: seq![at] + rest.starts,
            ends: seq![end] + rest.ends,
            ..rest
        };
        assert(found.errors + now.errors =~= more.errors + rest.errors);
        let n = now.errors.len() as int;
        assert forall|i: int| in_a_block(now, i) <==> at <= i < end || #[trigger] in_a_block(
            rest,
            i,
        ) by {
            if at <= i < end {
                assert(now.starts[0] == at && now.ends[0] == end);
            }
            if in_a_block(rest, i) {
                let k = choose|k: int|
                    0 <= k < rest.starts.len() && (#[trigger] rest.starts[k]) <= i < rest.ends[k];
                assert(now.starts[k + 1] == rest.starts[k] && now.ends[k + 1] == rest.ends[k]);
            }
            if in_a_block(now, i) {
                let k = choose|k: int|
                    0 <= k < now.starts.len() && (#[trigger] now.starts[k]) <= i < now.ends[k];
                if k > 0 {
                    assert(rest.starts[k - 1] == now.starts[k] && rest.ends[k - 1] == now.ends[k]);
                }
            }
        }
        assert forall|k: int| 0 <= k < n implies {
            &&& at <= #[trigger] now.starts[k]
            &&& block_at(log, now.starts[k], now.ends[k])
            &&& log[now.starts[k]].len() > 0 && log[now.starts[k]][0] == '!'
            &&& now.errors[k] == joined(log.subrange(now.starts[k], now.ends[k]), "\n    "@)
        } by {
            if k > 0 {
                assert(rest.starts[k - 1] == now.starts[k]);
            }
        }
        assert forall|k: int, j: int| 0 <= k < j < n implies #[trigger] now.ends[k]
            <= #[trigger] now.starts[j] by {
            assert(rest.starts[j - 1] == now.starts[j]);
            if k > 0 {
                assert(rest.ends[k - 1] == now.ends[k]);
            }
        }
        assert forall|i: int|
            at <= i < log.len() && (#[trigger] log[i]).len() > 0 && log[i][0]
                == '!' implies in_a_block(now, i) || (n == em && (n == 0 || i >= now.ends[n
            - 1])) by {
            assert(in_a_block(now, i) <==> at <= i < end || in_a_block(rest, i));
            if i >= end && rest.ends.len() > 0 {
                assert(now.ends[n - 1] == rest.ends[n - 2]);
            }
        }
        assert forall|i: int|
            at <= i < log.len() && is_warning_line(#[trigger] log[i]) implies in_a_block(now, i)
            || now.warned.contains(i) || (now.warned.len() == wm && (now.warned.len() == 0 || i
            > now.warned[now.warned.len() - 1])) by {
            assert(in_a_block(now, i) <==> at <= i < end || in_a_block(rest, i));
        }
        assert forall|k: int| 0 <= k < now.warned.len() implies {
            &&& at <= #[trigger] now.warned[k] < log.len()
            &&& is_warning_line(log[now.warned[k]])
            &&& !in_a_block(now, now.warned[k])
            &&& now.warnings[k] == trimmed(log[now.warned[k]])
        } by {
            assert(end <= rest.warned[k]);
            assert(!in_a_block(rest, rest.warned[k]));
        }
        now
    } else if is_warning_line(log[at]) && found.warnings.len() < most {
        let line = trimmed(log[at]);
        let more = SummaryView { warnings: found.warnings.push(line), ..found };
        let rest = lemma_findings(log, at + 1, more, most);
        let now = Findings {
            warnings: seq![line] + rest.warnings,
            warned: seq![at] + rest.warned,
            ..rest
        };
        assert(found.warnings + now.warnings =~= more.warnings + rest.warnings);
        let n = now.warnings.len() as int;
        assert forall|i: int| in_a_block(now, i) <==> #[trigger] in_a_block(rest, i) by {
            if in_a_block(rest, i) {
                let k = choose|k: int|
                    0 <= k < rest.starts.len() && (#[trigger] rest.starts[k]) <= i < rest.ends[k];
                assert(now.starts[k] <= i < now.ends[k]);
            }
        }
        assert(!in_a_block(rest, at));
        assert forall|k: int| 0 <= k < n implies {
            &&& at <= #[trigger] now.warned[k] < log.len()
            &&& is_warning_line(log[now.warned[k]])
            &&& !in_a_block(now, now.warned[k])
            &&& now.warnings[k] == trimmed(log[now.warned[k]])
        } by {
            if k > 0 {
                assert(rest.warned[k - 1] == now.warned[k]);
                assert(!in_a_block(rest, now.warned[k]));
            }
        }
        assert forall|k: int, j: int| 0 <= k < j < n implies #[trigger] now.warned[k]
            < #[trigger] now.warned[j] by {
            assert(rest.warned[j - 1] == now.warned[j]);
            if k > 0 {
                assert(rest.warned[k - 1] == now.warned[k]);
            }
        }
        assert forall|i: int|
            at <= i < log.len() && (#[trigger] log[i]).len() > 0 && log[i][0]
                == '!' implies in_a_block(now, i) || (now.errors.len() == em && (now.errors.len()
            == 0 || i >= now.ends[now.errors.len() - 1])) by {
            assert(in_a_block(now, i) <==> in_a_block(rest, i));
        }
        assert forall|i: int|
            at <= i < log.len() && is_warning_line(#[trigger] log[i]) implies in_a_block(now, i)
            || now.warned.contains(i) || (n == wm && (n == 0 || i > now.warned[n - 1])) by {
            assert(in_a_block(now, i) <==> in_a_block(rest, i));
            if i == at {
                assert(now.warned[0] == at);
            } else {
                if rest.warned.contains(i) {
                    assert(now.warned[rest.warned.index_of(i) + 1] == i);
                }
                if rest.warned.len() > 0 {
                    assert(now.warned[n - 1] == rest.warned[n - 2]);
                }
            }
        }
        now
    } else {
        let now = lemma_findings(log, at + 1, found, most);
        assert forall|i: int|
            at <= i < log.len() && (#[trigger] log[i]).len() > 0 && log[i][0]
                == '!' implies in_a_block(now, i) || (now.errors.len() == em && (now.errors.len()
            == 0 || i >= now.ends[now.errors.len() - 1])) by {}
        now
    }
}

/// A summary holds exactly the errors and warnings of the log, in their order and
/// each up to the number asked for.
pub proof fn summary_says_what_the_log_says(log: Seq<char>, most: nat)
    ensures
        exists|found: Findings|
            {
                &&& #[trigger] finds_the_errors(lines_of(log), 0, most as int, found)
                &&& finds_the_warnings(lines_of(log), 0, most as int, found)
                &&& summary_of(log, most).errors == found.errors
                &&& summary_of(log, most).warnings == found.warnings
            },
{
    let none = SummaryView { errors: Seq::empty(), warnings: Seq::empty() };
    let found = lemma_findings(lines_of(log), 0, none, most);
    assert(none.errors + found.errors =~= found.errors);
    assert(none.warnings + found.warnings =~= found.warnings);
}

/// What counts as a warning: a line with `LaTeX Warning:` anywhere in it, or one
/// that begins with `Package` and has `Warning:` in it.
pub proof fn warnings_name_themselves(a: Seq<char>, b: Seq<char>)
    ensures
        is_warning_line(a + "LaTeX Warning:"@ + b),
        is_warning_line("Package"@ + a + "Warning:"@ + b),
        forall|line: Seq<char>| #[trigger]
            is_warning_line(line) ==> has_text(line, "LaTeX Warning:"@) || (begins_with(
                line,
                "Package"@,
            ) && has_text(line, "Warning:"@)),
{
    let first = a + "LaTeX Warning:"@ + b;
    assert(first.subrange(a.len() as int, (a.len() + "LaTeX Warning:"@.len()) as int)
        =~= "LaTeX Warning:"@);
    assert(occurs_at(first, "LaTeX Warning:"@, a.len() as int));
    let second = "Package"@ + a + "Warning:"@ + b;
    let at = "Package"@.len() + a.len();
    assert(second.subrange(0, "Package"@.len() as int) =~= "Package"@);
    assert(second.subrange(at as int, (at + "Warning:"@.len()) as int) =~= "Warning:"@);
    assert(occurs_at(second, "Warning:"@, at as int));
}

// --- its text ------------------------------------------------------------

/// Each entry on a line of its own, indented.
pub open spec fn entry_lines(entries: Seq<Seq<char>>) -> Seq<char>
    decreases entries.len(),
{
    if entries.len() == 0 {
        Seq::empty()
    } else {
        entry_lines(entries.drop_last()) + "  "@ + entries.last() + "\n"@
    }
}

/// Entries under a heading with their number; nothing for no entries.
pub open spec fn section(title: Seq<char>, entries: Seq<Seq<char>>) -> Seq<char> {
    if entries.len() == 0 {
        Seq::empty()
    } else {
        "\n"@ + title + " ("@ + decimal(entries.len()) + "):\n"@ + entry_lines(entries)
    }
}

/// The text of a summary.
pub open spec fn summary_text(summary: SummaryView) -> Seq<char> {
    section("Errors"@, summary.errors) + section("Warnings"@, summary.warnings)
}

fn push_section(out: &mut String, title: &str, entries: &Vec<String>)
    ensures
        final(out)@ == old(out)@ + section(title@, texts(entries@)),
{
    let ghost before = out@;
    let ghost all = texts(entries@);
    if entries.len() == 0 {
        assert(before + section(title@, all) =~= before);
        return;
    }
    out.append("\n");
    out.append(title);
    out.append(" (");
    push_decimal(out, entries.len() as u64);
    out.append("):\n");
    let ghost head = "\n"@ + title@ + " ("@ + decimal(all.len()) + "):\n"@;
    assert(out@ =~= before + head);
    let mut i: usize = 0;
    assert(all.take(0) =~= Seq::<Seq<char>>::empty());
    assert(out@ =~= before + (head + entry_lines(all.take(0))));
    while i < entries.len()
        invariant
            i <= entries@.len(),
            all == texts(entries@),
            out@ == before + (head + entry_lines(all.take(i as int))),
        decreases entries@.len() - i,
    {
        assert(all.take(i + 1).drop_last() =~= all.take(i as int));
        out.append("  ");
        out.append(entries[i].as_str());
        out.append("\n");
        assert(out@ =~= before + (head + entry_lines(all.take(i + 1))));
        i += 1;
    }
    assert(all.take(entries@.len() as int) =~= all);
}

impl LogSummary {
    /// Finds the errors and warnings of a log, at most `max_each` of each.
    pub fn parse(log: &str, max_each: usize) -> (summary: Self)
        ensures
            summary@ == summary_of(log@, max_each as nat),
    {
        let all = lines(log);
        let n: usize = all.len();
        let ghost view = texts(all@);
        let ghost most = max_each as nat;
        let mut errors: Vec<String> = Vec::new();
        let mut warnings: Vec<String> = Vec::new();
        let mut idx: usize = 0;
        assert(texts(errors@) =~= Seq::<Seq<char>>::empty());
        assert(texts(warnings@) =~= Seq::<Seq<char>>::empty());
        while idx < n
            invariant
                idx <= n,
                n == all@.len(),
                view == texts(all@),
                most == max_each,
                summary_from(
                    view,
                    idx as int,
                    SummaryView { errors: texts(errors@), warnings: texts(warnings@) },
                    most,
                ) == summary_from(
                    view,
                    0,
                    SummaryView { errors: Seq::empty(), warnings: Seq::empty() },
                    most,
                ),
            decreases n - idx,
        {
            let line = all[idx].as_str();
            let ghost found = SummaryView { errors: texts(errors@), warnings: texts(warnings@) };
            proof {
                reveal_strlit("!");
                lemma_bang(line@);
            }
            if starts_with(line, "!") && errors.len() < max_each {
                let mut block: Vec<String> = Vec::new();
                block.push(line.to_owned());
                let mut look: usize = idx + 1;
                assert(texts(block@) =~= view.subrange(idx as int, look as int));
                while look < n && look - idx <= 6 && !trim(all[look].as_str()).as_str().is_empty()
                    invariant
                        idx < look <= n,
                        n == all@.len(),
                        view == texts(all@),
                        look - idx <= 7,
                        texts(block@) == view.subrange(idx as int, look as int),
                        details_end(view, look as int, idx + 6) == details_end(
                            view,
                            idx + 1,
                            idx + 6,
                        ),
                    decreases n - look,
                {
                    let ghost so_far = texts(block@);
                    block.push(all[look].clone());
                    assert(texts(block@) =~= so_far.push(view[look as int]));
                    assert(view.subrange(idx as int, look + 1) =~= view.subrange(
                        idx as int,
                        look as int,
                    ).push(view[look as int]));
                    look += 1;
                }
                assert(details_end(view, idx + 1, idx + 6) == look);
                let text = join(&block, "\n    ");
                assert(text@ == error_block(view, idx as int));
                errors.push(text);
                assert(texts(errors@) =~= found.errors.push(text@));
                idx = look;
                continue;
            }
            if (contains_text(line, "LaTeX Warning:") || (starts_with(line, "Package")
                && contains_text(line, "Warning:"))) && warnings.len() < max_each {
                let text = trim(line);
                warnings.push(text);
                assert(texts(warnings@) =~= found.warnings.push(text@));
            }
            idx += 1;
        }
        LogSummary { errors, warnings }
    }

    /// Appends the text of this summary.
    pub fn render(&self, out: &mut String)
        ensures
            final(out)@ == old(out)@ + summary_text(self@),
    {
        let ghost before = out@;
        push_section(out, "Errors", &self.errors);
        push_section(out, "Warnings", &self.warnings);
        assert(out@ =~= before + summary_text(self@));
    }
}

proof fn lemma_bang(line: Seq<char>)
    ensures
        begins_with(line, "!"@) <==> is_error_line(line),
{
    reveal_strlit("!");
    if is_error_line(line) {
        assert(line.subrange(0, 1) =~= "!"@);
    }
    if begins_with(line, "!"@) {
        assert(line.subrange(0, 1)[0] == '!');
    }
}

proof fn lemma_entry_is_shown(entries: Seq<Seq<char>>, k: int)
    requires
        0 <= k < entries.len(),
    ensures
        has_text(entry_lines(entries), "  "@ + entries[k] + "\n"@),
    decreases entries.len(),
{
    let short = entries.drop_last();
    let before = entry_lines(short);
    let last = "  "@ + entries.last() + "\n"@;
    assert(entry_lines(entries) =~= before + last);
    if k < short.len() {
        lemma_entry_is_shown(short, k);
        lemma_has_text_within(Seq::empty(), before, last, "  "@ + short[k] + "\n"@);
        assert(Seq::empty() + before + last =~= before + last);
    } else {
        lemma_has_text(last);
        lemma_has_text_within(before, last, Seq::empty(), last);
        assert(before + last + Seq::empty() =~= before + last);
    }
}

proof fn lemma_has_text(text: Seq<char>)
    ensures
        has_text(text, text),
{
    assert(text.subrange(0, text.len() as int) =~= text);
    assert(occurs_at(text, text, 0));
}

/// What stands in a part of a text stands in the text.
pub(crate) proof fn lemma_has_text_within(
    a: Seq<char>,
    b: Seq<char>,
    c: Seq<char>,
    pattern: Seq<char>,
)
    requires
        has_text(b, pattern),
    ensures
        has_text(a + b + c, pattern),
{
    let at = choose|at: int| occurs_at(b, pattern, at);
    assert((a + b + c).subrange(a.len() + at, a.len() + at + pattern.len()) =~= b.subrange(
        at,
        at + pattern.len(),
    ));
    assert(occurs_at(a + b + c, pattern, a.len() + at));
}

/// The text of a summary holds every error and every warning on a line of its
/// own, the errors under a heading with their number and then the warnings under
/// one with theirs. Where there are none, there is no heading.
pub proof fn summary_shows_every_entry(summary: SummaryView, k: int)
    ensures
        0 <= k < summary.errors.len() ==> has_text(
            summary_text(summary),
            "  "@ + summary.errors[k] + "\n"@,
        ),
        0 <= k < summary.warnings.len() ==> has_text(
            summary_text(summary),
            "  "@ + summary.warnings[k] + "\n"@,
        ),
        summary.errors.len() > 0 ==> begins_with(
            summary_text(summary),
            "\nErrors ("@ + decimal(summary.errors.len()) + "):\n"@,
        ),
        summary.warnings.len() > 0 ==> has_text(
            summary_text(summary),
            "\nWarnings ("@ + decimal(summary.warnings.len()) + "):\n"@,
        ),
        summary.errors.len() == 0 && summary.warnings.len() > 0 ==> begins_with(
            summary_text(summary),
            "\nWarnings ("@ + decimal(summary.warnings.len()) + "):\n"@,
        ),
        summary.errors.len() == 0 && summary.warnings.len() == 0 ==> summary_text(summary).len()
            == 0,
{
    reveal_strlit("\n");
    reveal_strlit("Errors");
    reveal_strlit(" (");
    reveal_strlit("\nErrors (");
    reveal_strlit("Warnings");
    reveal_strlit("\nWarnings (");
    assert("\n"@ + "Errors"@ + " ("@ =~= "\nErrors ("@);
    assert("\n"@ + "Warnings"@ + " ("@ =~= "\nWarnings ("@);
    let text = summary_text(summary);
    let first = section("Errors"@, summary.errors);
    let second = section("Warnings"@, summary.warnings);
    let none = Seq::<char>::empty();
    if summary.errors.len() > 0 {
        let head = "\nErrors ("@ + decimal(summary.errors.len()) + "):\n"@;
        assert(first =~= head + entry_lines(summary.errors));
        assert(text.subrange(0, head.len() as int) =~= head);
        if 0 <= k < summary.errors.len() {
            lemma_entry_is_shown(summary.errors, k);
            lemma_has_text_within(
                head,
                entry_lines(summary.errors),
                second,
                "  "@ + summary.errors[k] + "\n"@,
            );
            assert(head + entry_lines(summary.errors) + second =~= text);
        }
    } else {
        assert(text =~= second);
    }
    if summary.warnings.len() > 0 {
        let head = "\nWarnings ("@ + decimal(summary.warnings.len()) + "):\n"@;
        assert(second =~= head + entry_lines(summary.warnings));
        assert(second.subrange(0, head.len() as int) =~= head);
        lemma_has_text(head);
        lemma_has_text_within(first, head, entry_lines(summary.warnings), head);
        assert(first + head + entry_lines(summary.warnings) =~= text);
        if 0 <= k < summary.warnings.len() {
            lemma_entry_is_shown(summary.warnings, k);
            lemma_has_text_within(
                first + head,
                entry_lines(summary.warnings),
                none,
                "  "@ + summary.warnings[k] + "\n"@,
            );
            assert(first + head + entry_lines(summary.warnings) + none =~= text);
        }
    }
}

} // verus!
