//! Compiles and what they put out.
use vstd::prelude::*;

use crate::error::{concat, error_message, ErrorView, OverleafError};
use crate::log::{
    block_at, finds_the_errors, finds_the_warnings, in_a_block, lemma_has_text_within, summary_of,
    summary_says_what_the_log_says, summary_shows_every_entry, summary_text, Findings, LogSummary,
    SummaryView,
};
use crate::number::{decimal, push_decimal};
use crate::pieces::{join, joined, lines_of};
use crate::render::{count_lines, line_count, lines_are_counted_by_line_feeds};
use crate::text::{begins_with, clone_opt, has_text, occurs_at, opt_text, same_text, texts};

verus! {

// --- requests and answers ------------------------------------------------

/// What a compile is asked to do.
#[derive(Debug)]
pub struct CompileRequest {
    pub root_doc_id: Option<String>,
    pub draft: bool,
    pub check: String,
    pub incremental_compiles_enabled: bool,
    pub stop_on_first_error: bool,
}

impl CompileRequest {
    /// A full compile, which goes on after errors.
    pub fn full(root_doc_id: Option<String>) -> (request: Self)
        ensures
            request.root_doc_id == root_doc_id,
            !request.draft,
            request.check@ == "silent"@,
            !request.incremental_compiles_enabled,
            !request.stop_on_first_error,
    {
        CompileRequest {
            root_doc_id,
            draft: false,
            check: "silent".to_owned(),
            incremental_compiles_enabled: false,
            stop_on_first_error: false,
        }
    }
}

/// The answer to a compile.
#[derive(Debug)]
pub struct CompileResponse {
    pub status: String,
    pub output_files: Vec<OutputFile>,
    pub clsi_server_id: Option<String>,
}

/// A file that a compile put out.
#[derive(Debug)]
pub struct OutputFile {
    pub path: String,
    pub url: String,
    pub kind: Option<String>,
    pub build: Option<String>,
}

/// A file that a compile put out, as plain values.
pub struct OutputView {
    pub path: Seq<char>,
    pub url: Seq<char>,
    pub kind: Option<Seq<char>>,
    pub build: Option<Seq<char>>,
}

impl View for OutputFile {
    type V = OutputView;

    open spec fn view(&self) -> OutputView {
        OutputView {
            path: self.path@,
            url: self.url@,
            kind: opt_text(self.kind),
            build: opt_text(self.build),
        }
    }
}

/// Files as plain values.
pub open spec fn output_views(files: Seq<OutputFile>) -> Seq<OutputView> {
    Seq::new(files.len(), |i: int| files[i]@)
}

/// The answer to a compile, as plain values.
pub struct ResponseView {
    pub status: Seq<char>,
    pub output_files: Seq<OutputView>,
    pub clsi_server_id: Option<Seq<char>>,
}

impl View for CompileResponse {
    type V = ResponseView;

    open spec fn view(&self) -> ResponseView {
        ResponseView {
            status: self.status@,
            output_files: output_views(self.output_files@),
            clsi_server_id: opt_text(self.clsi_server_id),
        }
    }
}

// --- finding outputs -----------------------------------------------------

/// The first file with a path, from a place on.
pub open spec fn output_from(files: Seq<OutputView>, path: Seq<char>, from: int) -> Option<
    OutputView,
>
    decreases files.len() - from,
{
    if from < 0 || from >= files.len() {
        None
    } else if files[from].path == path {
        Some(files[from])
    } else {
        output_from(files, path, from + 1)
    }
}

/// The first file with a path.
pub open spec fn output_named(files: Seq<OutputView>, path: Seq<char>) -> Option<OutputView> {
    output_from(files, path, 0)
}

/// The paths of files.
pub open spec fn output_paths(files: Seq<OutputView>) -> Seq<Seq<char>> {
    Seq::new(files.len(), |i: int| files[i].path)
}

/// The paths of files in one line.
pub open spec fn output_names(files: Seq<OutputView>) -> Seq<char> {
    joined(output_paths(files), ", "@)
}

/// Where to get a file that a compile put out.
#[derive(Debug)]
pub struct OutputSource {
    pub url: String,
    pub clsi_server_id: Option<String>,
}

/// Where to get a file, as plain values.
pub struct SourceView {
    pub url: Seq<char>,
    pub clsi_server_id: Option<Seq<char>>,
}

impl View for OutputSource {
    type V = SourceView;

    open spec fn view(&self) -> SourceView {
        SourceView { url: self.url@, clsi_server_id: opt_text(self.clsi_server_id) }
    }
}

/// An optional place as plain values.
pub open spec fn opt_source(source: Option<OutputSource>) -> Option<SourceView> {
    match source {
        Some(source) => Some(source@),
        None => None,
    }
}

/// Where to get the file with a path.
pub open spec fn output_source(response: ResponseView, path: Seq<char>) -> Option<SourceView> {
    match output_named(response.output_files, path) {
        Some(file) => Some(
            SourceView { url: file.url, clsi_server_id: response.clsi_server_id },
        ),
        None => None,
    }
}

impl CompileResponse {
    /// Where to get the file with a path.
    pub fn source_of(&self, path: &str) -> (source: Option<OutputSource>)
        ensures
            opt_source(source) == output_source(self@, path@),
    {
        let ghost files = self@.output_files;
        let mut i: usize = 0;
        while i < self.output_files.len()
            invariant
                i <= self.output_files@.len(),
                files == output_views(self.output_files@),
                output_from(files, path@, i as int) == output_from(files, path@, 0),
            decreases self.output_files@.len() - i,
        {
            assert(files[i as int] == self.output_files@[i as int]@);
            if same_text(self.output_files[i].path.as_str(), path) {
                return Some(
                    OutputSource {
                        url: self.output_files[i].url.clone(),
                        clsi_server_id: clone_opt(&self.clsi_server_id),
                    },
                );
            }
            i += 1;
        }
        None
    }

    /// The paths of all files in one line.
    pub fn names(&self) -> (text: String)
        ensures
            text@ == output_names(self@.output_files),
    {
        let ghost files = self@.output_files;
        let mut paths: Vec<String> = Vec::new();
        let mut i: usize = 0;
        while i < self.output_files.len()
            invariant
                i <= self.output_files@.len(),
                paths@.len() == i,
                forall|j: int|
                    0 <= j < i ==> (#[trigger] paths@[j])@ == self.output_files@[j].path@,
            decreases self.output_files@.len() - i,
        {
            paths.push(self.output_files[i].path.clone());
            i += 1;
        }
        assert(texts(paths@) =~= output_paths(files));
        join(&paths, ", ")
    }
}

// --- the report ----------------------------------------------------------

/// Whether the server refused to compile so soon again.
pub open spec fn rate_limited(response: ResponseView) -> bool {
    response.status == "too-recently-compiled"@
}

/// The text for a compile that was refused.
pub open spec fn limited_text(project: Seq<char>) -> Seq<char> {
    "Compile of "@ + project
        + " was rate-limited (too-recently-compiled): the project was compiled moments ago. Wait a few seconds and retry; the previous compile's outputs remain available via read_log/download_output."@
}

/// The text of the log of a compile, or why it could not be had.
pub open spec fn log_text(log: Option<core::result::Result<Seq<char>, ErrorView>>) -> Seq<char> {
    match log {
        Some(Ok(text)) => summary_text(summary_of(text, 10)) + "\nFull log: "@ + decimal(
            line_count(text),
        ) + " lines — page through it with read_log if the summary is not enough.\n"@,
        Some(Err(e)) => "(could not fetch output.log: "@ + error_message(e) + ")\n"@,
        None => Seq::empty(),
    }
}

/// The report on a compile.
pub open spec fn compile_text(
    project: Seq<char>,
    response: ResponseView,
    log: Option<core::result::Result<Seq<char>, ErrorView>>,
) -> Seq<char> {
    "Compile of "@ + project + " finished with status: "@ + response.status + "\n"@ + log_text(log)
        + "Output files: "@ + output_names(response.output_files) + "\n"@ + if output_named(
        response.output_files,
        "output.pdf"@,
    ) is Some {
        "Use download_output to save output.pdf locally.\n"@
    } else {
        Seq::empty()
    }
}

/// A log, or why it could not be had, as plain values.
pub open spec fn log_view(
    log: Option<core::result::Result<String, OverleafError>>,
) -> Option<core::result::Result<Seq<char>, ErrorView>> {
    match log {
        Some(Ok(text)) => Some(Ok(text@)),
        Some(Err(e)) => Some(Err(e@)),
        None => None,
    }
}

impl CompileResponse {
    /// Whether the server refused to compile so soon again.
    pub fn is_refused(&self) -> (yes: bool)
        ensures
            yes == rate_limited(self@),
    {
        same_text(self.status.as_str(), "too-recently-compiled")
    }

    /// The text for a compile that the server refused, where it did.
    pub fn refusal(&self, project: &str) -> (text: Option<String>)
        ensures
            opt_text(text) == (if rate_limited(self@) {
                Some(limited_text(project@))
            } else {
                None
            }),
    {
        if !self.is_refused() {
            return None;
        }
        let mut text = concat("Compile of ", project);
        text.append(" was rate-limited (too-recently-compiled): the project was compiled moments ago. Wait a few seconds and retry; the previous compile's outputs remain available via read_log/download_output.");
        Some(text)
    }

    /// The report on this compile.
    pub fn report(
        &self,
        project: &str,
        log: &Option<core::result::Result<String, OverleafError>>,
    ) -> (text: String)
        ensures
            text@ == compile_text(project@, self@, log_view(*log)),
    {
        let mut text = concat("Compile of ", project);
        text.append(" finished with status: ");
        text.append(self.status.as_str());
        text.append("\n");
        let ghost head = text@;
        match log {
            Some(Ok(content)) => {
                LogSummary::parse(content.as_str(), 10).render(&mut text);
                text.append("\nFull log: ");
                push_decimal(&mut text, count_lines(content.as_str()) as u64);
                text.append(" lines — page through it with read_log if the summary is not enough.\n");
                assert(text@ =~= head + log_text(log_view(*log)));
            },
            Some(Err(e)) => {
                text.append("(could not fetch output.log: ");
                text.append(e.message().as_str());
                text.append(")\n");
                assert(text@ =~= head + log_text(log_view(*log)));
            },
            None => {
                assert(text@ =~= head + log_text(log_view(*log)));
            },
        }
        text.append("Output files: ");
        text.append(self.names().as_str());
        text.append("\n");
        if self.source_of("output.pdf").is_some() {
            text.append("Use download_output to save output.pdf locally.\n");
        } else {
            assert(text@ + Seq::<char>::empty() =~= text@);
        }
        text
    }
}

// --- what a report holds -------------------------------------------------

/// The file for a path is the first with that path, with its address and the
/// server that made it; there is none exactly when no file has that path.
pub proof fn first_output_is_taken(response: ResponseView, path: Seq<char>)
    ensures
        match output_source(response, path) {
            Some(source) => exists|k: int|
                {
                    &&& 0 <= k < response.output_files.len()
                    &&& (#[trigger] response.output_files[k]).path == path
                    &&& source.url == response.output_files[k].url
                    &&& source.clsi_server_id == response.clsi_server_id
                    &&& forall|j: int|
                        0 <= j < k ==> (#[trigger] response.output_files[j]).path != path
                },
            None => forall|k: int|
                0 <= k < response.output_files.len() ==> (#[trigger] response.output_files[k]).path
                    != path,
        },
{
    lemma_output_from(response.output_files, path, 0);
}

proof fn lemma_output_from(files: Seq<OutputView>, path: Seq<char>, from: int)
    requires
        0 <= from,
    ensures
        match output_from(files, path, from) {
            Some(file) => exists|k: int|
                {
                    &&& from <= k < files.len()
                    &&& #[trigger] files[k] == file
                    &&& file.path == path
                    &&& forall|j: int| from <= j < k ==> (#[trigger] files[j]).path != path
                },
            None => forall|k: int| from <= k < files.len() ==> (#[trigger] files[k]).path != path,
        },
    decreases files.len() - from,
{
    if from < files.len() {
        if files[from].path == path {
            assert(files[from] == output_from(files, path, from)->0);
        } else {
            lemma_output_from(files, path, from + 1);
            if let Some(file) = output_from(files, path, from + 1) {
                let k = choose|k: int|
                    {
                        &&& from + 1 <= k < files.len()
                        &&& #[trigger] files[k] == file
                        &&& file.path == path
                        &&& forall|j: int| from + 1 <= j < k ==> (#[trigger] files[j]).path != path
                    };
                assert forall|j: int| from <= j < k implies (#[trigger] files[j]).path != path by {}
                assert(files[k] == file);
            }
        }
    }
}

/// The first line of a report.
pub open spec fn report_head(project: Seq<char>, status: Seq<char>) -> Seq<char> {
    "Compile of "@ + project + " finished with status: "@ + status + "\n"@
}

/// A report begins with the project and the status and ends with the paths of all
/// files in their order, then a hint exactly where there is an `output.pdf`. What
/// is said of a log stands between the two; without one nothing does.
pub proof fn report_names_status_and_outputs(
    project: Seq<char>,
    response: ResponseView,
    log: Option<core::result::Result<Seq<char>, ErrorView>>,
)
    ensures
        ({
            let text = compile_text(project, response, log);
            let head = report_head(project, response.status);
            let paths = Seq::new(
                response.output_files.len(),
                |i: int| response.output_files[i].path,
            );
            let files = "Output files: "@ + joined(paths, ", "@) + "\n"@;
            let pdf = exists|i: int|
                0 <= i < response.output_files.len() && (#[trigger] response.output_files[i]).path
                    == "output.pdf"@;
            let end = if pdf {
                files + "Use download_output to save output.pdf locally.\n"@
            } else {
                files
            };
            &&& text.len() >= head.len() + end.len()
            &&& text.take(head.len() as int) == head
            &&& text.skip(text.len() - end.len()) == end
            &&& log is None ==> text == head + end
            &&& log matches Some(Err(e)) ==> text == head + "(could not fetch output.log: "@
                + error_message(e) + ")\n"@ + end
        }),
{
    let text = compile_text(project, response, log);
    let head = report_head(project, response.status);
    let paths = Seq::new(response.output_files.len(), |i: int| response.output_files[i].path);
    let files = "Output files: "@ + joined(paths, ", "@) + "\n"@;
    assert(paths =~= output_paths(response.output_files));
    first_output_is_taken(response, "output.pdf"@);
    let hint = if output_named(response.output_files, "output.pdf"@) is Some {
        "Use download_output to save output.pdf locally.\n"@
    } else {
        Seq::empty()
    };
    let end = files + hint;
    assert(text =~= head + log_text(log) + end);
    assert(text.take(head.len() as int) =~= head);
    assert(text.skip(text.len() - end.len()) =~= end);
    assert(files + Seq::<char>::empty() =~= files);
    assert(head + Seq::<char>::empty() + end =~= head + end);
    if let Some(Err(e)) = log {
        assert(text =~= head + "(could not fetch output.log: "@ + error_message(e) + ")\n"@ + end);
    }
}

/// Where the log of a compile was had, the report holds every one of its first
/// ten errors with its details, and every one of its first ten warnings. Right
/// behind the status it has a heading for errors exactly where a line of the log
/// begins with `!`. It also tells how many lines the log has.
pub proof fn report_shows_what_the_log_says(
    project: Seq<char>,
    response: ResponseView,
    log: Seq<char>,
)
    ensures
        ({
            let text = compile_text(project, response, Some(Ok(log)));
            let rest = text.skip(report_head(project, response.status).len() as int);
            &&& exists|found: Findings|
                {
                    &&& #[trigger] finds_the_errors(lines_of(log), 0, 10, found)
                    &&& finds_the_warnings(lines_of(log), 0, 10, found)
                    &&& forall|k: int|
                        0 <= k < found.errors.len() ==> has_text(
                            text,
                            "  "@ + #[trigger] found.errors[k] + "\n"@,
                        )
                    &&& forall|k: int|
                        0 <= k < found.warnings.len() ==> has_text(
                            text,
                            "  "@ + #[trigger] found.warnings[k] + "\n"@,
                        )
                    &&& found.errors.len() > 0 ==> begins_with(
                        rest,
                        "\nErrors ("@ + decimal(found.errors.len()) + "):\n"@,
                    )
                    &&& found.warnings.len() > 0 ==> has_text(
                        rest,
                        "\nWarnings ("@ + decimal(found.warnings.len()) + "):\n"@,
                    )
                }
            &&& begins_with(rest, "\nErrors ("@) <==> exists|i: int|
                0 <= i < lines_of(log).len() && (#[trigger] lines_of(log)[i]).len() > 0 && lines_of(
                    log,
                )[i][0] == '!'
            &&& has_text(
                text,
                "\nFull log: "@ + decimal(log.filter(|c: char| c == '\n').len() + 1) + " lines"@,
            )
        }),
{
    let lines = lines_of(log);
    let text = compile_text(project, response, Some(Ok(log)));
    let head = report_head(project, response.status);
    let rest = text.skip(head.len() as int);
    let summary = summary_of(log, 10);
    let shown = summary_text(summary);
    let count = "\nFull log: "@ + decimal(line_count(log));
    let behind = count
        + " lines — page through it with read_log if the summary is not enough.\n"@;
    let hint = if output_named(response.output_files, "output.pdf"@) is Some {
        "Use download_output to save output.pdf locally.\n"@
    } else {
        Seq::empty()
    };
    let end = "Output files: "@ + output_names(response.output_files) + "\n"@ + hint;
    assert(text =~= head + shown + (behind + end));
    assert(rest =~= shown + (behind + end));
    summary_says_what_the_log_says(log, 10);
    let found = choose|found: Findings|
        {
            &&& #[trigger] finds_the_errors(lines, 0, 10, found)
            &&& finds_the_warnings(lines, 0, 10, found)
            &&& summary.errors == found.errors
            &&& summary.warnings == found.warnings
        };
    assert forall|k: int| 0 <= k < found.errors.len() implies has_text(
        text,
        "  "@ + #[trigger] found.errors[k] + "\n"@,
    ) by {
        summary_shows_every_entry(summary, k);
        lemma_has_text_within(head, shown, behind + end, "  "@ + found.errors[k] + "\n"@);
    }
    assert forall|k: int| 0 <= k < found.warnings.len() implies has_text(
        text,
        "  "@ + #[trigger] found.warnings[k] + "\n"@,
    ) by {
        summary_shows_every_entry(summary, k);
        lemma_has_text_within(head, shown, behind + end, "  "@ + found.warnings[k] + "\n"@);
    }
    summary_shows_every_entry(summary, 0);
    assert((behind + end).subrange(0, "\nFull log: "@.len() as int) =~= "\nFull log: "@);
    lemma_headings(summary, behind + end);
    if found.warnings.len() > 0 {
        let title = "\nWarnings ("@ + decimal(found.warnings.len()) + "):\n"@;
        lemma_has_text_within(Seq::empty(), shown, behind + end, title);
        assert(Seq::empty() + shown + (behind + end) =~= rest);
    }
    if found.errors.len() > 0 {
        let title = "\nErrors ("@ + decimal(found.errors.len()) + "):\n"@;
        assert(rest.subrange(0, title.len() as int) =~= shown.subrange(0, title.len() as int));
        assert(block_at(lines, found.starts[0], found.ends[0]));
        assert(lines[found.starts[0]][0] == '!');
    } else if exists|i: int|
        0 <= i < lines.len() && (#[trigger] lines[i]).len() > 0 && lines[i][0] == '!' {
        let i = choose|i: int|
            0 <= i < lines.len() && (#[trigger] lines[i]).len() > 0 && lines[i][0] == '!';
        assert(!in_a_block(found, i));
    }
    lines_are_counted_by_line_feeds(log);
    lemma_line_number(head + shown, line_count(log), end);
    assert(head + shown + (behind + end) =~= (head + shown) + behind + end);
}

proof fn lemma_line_number(a: Seq<char>, n: nat, b: Seq<char>)
    ensures
        has_text(
            a + ("\nFull log: "@ + decimal(n)
                + " lines — page through it with read_log if the summary is not enough.\n"@) + b,
            "\nFull log: "@ + decimal(n) + " lines"@,
        ),
{
    reveal_strlit(" lines");
    reveal_strlit(" lines — page through it with read_log if the summary is not enough.\n");
    let whole = "\nFull log: "@ + decimal(n)
        + " lines — page through it with read_log if the summary is not enough.\n"@;
    let part = "\nFull log: "@ + decimal(n) + " lines"@;
    assert(whole.subrange(0, part.len() as int) =~= part);
    assert(occurs_at(whole, part, 0));
    lemma_has_text_within(a, whole, b, part);
}

proof fn lemma_headings(summary: SummaryView, behind: Seq<char>)
    requires
        begins_with(behind, "\nFull log: "@),
    ensures
        begins_with(summary_text(summary) + behind, "\nErrors ("@) <==> summary.errors.len() > 0,
{
    reveal_strlit("\nErrors (");
    reveal_strlit("\nWarnings (");
    reveal_strlit("\nFull log: ");
    summary_shows_every_entry(summary, 0);
    let shown = summary_text(summary);
    let text = shown + behind;
    let title = "\nErrors ("@;
    if summary.errors.len() > 0 {
        let long = title + decimal(summary.errors.len()) + "):\n"@;
        assert(shown.subrange(0, long.len() as int) == long);
        assert(text.subrange(0, title.len() as int) =~= long.subrange(0, title.len() as int));
        assert(long.subrange(0, title.len() as int) =~= title);
    } else if summary.warnings.len() > 0 {
        let long = "\nWarnings ("@ + decimal(summary.warnings.len()) + "):\n"@;
        assert(shown.subrange(0, long.len() as int)[1] == long[1]);
        assert(text[1] == 'W');
        assert(begins_with(text, title) ==> text.subrange(0, title.len() as int)[1] == title[1]);
    } else {
        assert(text =~= behind);
        assert(behind.subrange(0, "\nFull log: "@.len() as int)[1] == 'F');
        assert(begins_with(text, title) ==> text.subrange(0, title.len() as int)[1] == title[1]);
    }
}

} // verus!
