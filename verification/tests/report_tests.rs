use overleaf_mcp::compile::{CompileRequest, CompileResponse, OutputFile};
use overleaf_mcp::error::OverleafError;
use overleaf_mcp::history::{
    describe_op, format_ts, get_history, label_created, render_history, time_or_unknown,
    HistoryLabel, HistoryUpdate, HistoryUpdateMeta, HistoryUser, UpdatesResponse,
};
use overleaf_mcp::json::JsonArg;
use overleaf_mcp::log::LogSummary;
use overleaf_mcp::search::{
    find_hits, invalid_pattern, push_flagged, render_hits, search, search_pattern,
};
use overleaf_mcp::table::Table;

fn user(first: Option<&str>, last: Option<&str>, email: Option<&str>) -> HistoryUser {
    HistoryUser {
        first_name: first.map(str::to_string),
        last_name: last.map(str::to_string),
        email: email.map(str::to_string),
    }
}

fn label(version: i64, comment: &str, created_at: Option<&str>) -> HistoryLabel {
    HistoryLabel {
        id: "l1".to_string(),
        comment: comment.to_string(),
        version,
        created_at: created_at.map(str::to_string),
        user_id: None,
    }
}

#[test]
fn users_are_shown_by_what_is_known() {
    assert_eq!(user(Some("Ada"), Some("L"), None).display(), "Ada L");
    assert_eq!(user(None, Some("L"), Some("e@x")).display(), "L");
    assert_eq!(user(Some(""), None, Some("e@x")).display(), "e@x");
    assert_eq!(user(Some(""), Some(""), None).display(), " ");
    assert_eq!(user(None, None, None).display(), "unknown");
}

#[test]
fn times_are_shown_in_utc() {
    assert_eq!(format_ts(Some(0)), "1970-01-01 00:00 UTC");
    assert_eq!(format_ts(Some(1_700_000_000_000)), "2023-11-14 22:13 UTC");
    assert_eq!(format_ts(Some(i64::MAX)), "unknown time");
    assert_eq!(format_ts(None), "unknown time");
    assert_eq!(time_or_unknown(Some("t".to_string())), "t");
}

#[test]
fn structural_operations_are_described() {
    for (json, text) in [
        ("{\"add\":{\"pathname\":\"a.tex\"}}", "added a.tex"),
        ("{\"remove\":{\"pathname\":\"b\"}}", "removed b"),
        ("{\"rename\":{\"pathname\":\"b\",\"newPathname\":\"c\"}}", "renamed b -> c"),
        ("{\"rename\":{\"pathname\":\"b\"}}", "renamed b -> ?"),
        ("{\"add\":{\"path\":1},\"remove\":{\"pathname\":\"z\"}}", "removed z"),
        ("{ \"other\" : true }", "{\"other\":true}"),
        ("null", "null"),
    ] {
        assert_eq!(describe_op(&JsonArg::read(json).unwrap()), text);
    }
}

fn sample_page() -> UpdatesResponse {
    UpdatesResponse {
        updates: vec![
            HistoryUpdate {
                from_v: 3,
                to_v: 5,
                meta: Some(HistoryUpdateMeta {
                    users: vec![user(Some("Ada"), None, None), user(None, None, Some("b@x"))],
                    start_ts: None,
                    end_ts: Some(0),
                }),
                labels: vec![label(5, "draft", None)],
                pathnames: vec!["a.tex".to_string(), "b.tex".to_string()],
                project_ops: vec![JsonArg::read("{\"add\":{\"pathname\":\"c\"}}").unwrap()],
            },
            HistoryUpdate {
                from_v: 0,
                to_v: 3,
                meta: None,
                labels: vec![],
                pathnames: vec![],
                project_ops: vec![],
            },
        ],
        next_before_timestamp: Some(99),
    }
}

#[test]
fn history_is_reported() {
    let labels = vec![label(5, "draft", Some("today")), label(1, "old", None)];
    let expected = "History of Paper (2 update batch(es), newest first):\nv3 -> v5  1970-01-01 00:00 UTC  by Ada, b@x\n    edited: a.tex, b.tex\n    added c\n    label at v5: \"draft\"\nv0 -> v3  unknown time  by unknown\n\nLabels:\n  v5  \"draft\"  (today)\n  v1  \"old\"  (unknown time)\n\nOlder history available: call get_history with before=99.\n";
    assert_eq!(get_history("Paper", &sample_page(), &labels), expected);
    let times = vec!["1970-01-01 00:00 UTC".to_string(), "unknown time".to_string()];
    assert_eq!(render_history("Paper", &sample_page(), &times, &labels), expected);
}

#[test]
fn an_empty_history_is_reported() {
    let page = UpdatesResponse { updates: vec![], next_before_timestamp: None };
    assert_eq!(
        get_history("P", &page, &vec![]),
        "History of P (0 update batch(es), newest first):\n\nLabels:\n  (none)\n"
    );
    assert_eq!(
        label_created(&label(7, "final", None)),
        "Created label \"final\" at history version 7 (id l1)."
    );
}

#[test]
fn logs_are_summarized() {
    let log = "This is pdfTeX\n! Undefined control sequence.\nl.3 \\foo\n        bar\n\nLaTeX Warning: ref\nPackage hyperref Warning: odd  \nPackage x Info: fine\n! Emergency stop.";
    let summary = LogSummary::parse(log, 10);
    assert_eq!(
        summary.errors,
        ["! Undefined control sequence.\n    l.3 \\foo\n            bar", "! Emergency stop."]
    );
    assert_eq!(summary.warnings, ["LaTeX Warning: ref", "Package hyperref Warning: odd"]);
    let mut out = String::from(">");
    summary.render(&mut out);
    assert_eq!(
        out,
        ">\nErrors (2):\n  ! Undefined control sequence.\n    l.3 \\foo\n            bar\n  ! Emergency stop.\n\nWarnings (2):\n  LaTeX Warning: ref\n  Package hyperref Warning: odd\n"
    );
}

#[test]
fn summaries_are_bounded() {
    let log = "! a\n\n! b\n\n! c\nLaTeX Warning: 1\nLaTeX Warning: 2\n";
    let summary = LogSummary::parse(log, 1);
    assert_eq!((summary.errors.len(), summary.warnings.len()), (1, 1));
    let none = LogSummary::parse(log, 0);
    assert!(none.errors.is_empty() && none.warnings.is_empty());
    let long = "! e\n1\n2\n3\n4\n5\n6\n7";
    assert_eq!(LogSummary::parse(long, 5).errors, ["! e\n    1\n    2\n    3\n    4\n    5\n    6"]);
    let mut out = String::new();
    LogSummary::parse("all fine", 10).render(&mut out);
    assert_eq!(out, "");
}

fn response(status: &str, paths: &[&str]) -> CompileResponse {
    CompileResponse {
        status: status.to_string(),
        output_files: paths
            .iter()
            .map(|p| OutputFile {
                path: p.to_string(),
                url: format!("/build/{p}"),
                kind: None,
                build: None,
            })
            .collect(),
        clsi_server_id: Some("clsi".to_string()),
    }
}

#[test]
fn compiles_are_reported() {
    let done = response("success", &["output.log", "output.pdf"]);
    let log = Some(Ok("fine\nLaTeX Warning: x".to_string()));
    assert_eq!(
        done.report("Paper", &log),
        "Compile of Paper finished with status: success\n\nWarnings (1):\n  LaTeX Warning: x\n\nFull log: 2 lines — page through it with read_log if the summary is not enough.\nOutput files: output.log, output.pdf\nUse download_output to save output.pdf locally.\n"
    );
    let failed = Some(Err(OverleafError::Http("reset".to_string())));
    assert_eq!(
        response("failure", &["output.log"]).report("P", &failed),
        "Compile of P finished with status: failure\n(could not fetch output.log: http request failed: reset)\nOutput files: output.log\n"
    );
    assert_eq!(
        response("error", &[]).report("P", &None),
        "Compile of P finished with status: error\nOutput files: \n"
    );
    assert!(done.refusal("Paper").is_none());
    let refused = response("too-recently-compiled", &[]).refusal("Paper").unwrap();
    assert!(refused.starts_with("Compile of Paper was rate-limited (too-recently-compiled): "));
}

#[test]
fn outputs_are_found_by_path() {
    let done = response("success", &["a", "b"]);
    let source = done.source_of("b").unwrap();
    assert_eq!((source.url.as_str(), source.clsi_server_id.as_deref()), ("/build/b", Some("clsi")));
    assert!(done.source_of("c").is_none());
    assert_eq!(done.names(), "a, b");
}

#[test]
fn a_full_compile_is_asked_for() {
    let request = CompileRequest::full(None);
    assert_eq!(request.check, "silent");
    assert!(!request.draft && !request.incremental_compiles_enabled);
    assert!(!request.stop_on_first_error && request.root_doc_id.is_none());
}

fn contents() -> Table<String> {
    let mut table: Table<String> = Table::new();
    table.insert("/b.tex".to_string(), "\\section{One}\ntext\n\\Section{Two}".to_string());
    table.insert("/a.tex".to_string(), format!("x\n{}section", "y".repeat(300)));
    table
}

#[test]
fn searches_report_matching_lines() {
    let pattern = "section|none";
    let matcher = search_pattern(pattern, false).unwrap_or_else(|_| panic!("valid"));
    assert_eq!(
        search(pattern, &matcher, &contents(), 200),
        format!(
            "2 match(es) for `{pattern}` across 2 doc(s)\n/a.tex:2: {}\n/b.tex:1: \\section{{One}}\n",
            "y".repeat(200)
        )
    );
    let ci = search_pattern(pattern, true).unwrap_or_else(|_| panic!("valid"));
    let hits = find_hits(&ci, &contents());
    let shown: Vec<(&str, usize)> = hits.iter().map(|h| (h.path.as_str(), h.line)).collect();
    assert_eq!(shown, [("/a.tex", 2), ("/b.tex", 1), ("/b.tex", 3)]);
    assert_eq!(
        render_hits("p", &hits, 9, 1),
        format!("1 match(es) for `p` across 9 doc(s) (truncated)\n/a.tex:2: {}\n", "y".repeat(200))
    );
    assert_eq!(render_hits("p", &vec![], 1, 0), "0 match(es) for `p` across 1 doc(s)\n");
}

#[test]
fn bad_patterns_are_refused() {
    let error = match search_pattern("(", false) {
        Err(e) => e.message(),
        Ok(_) => panic!("accepted"),
    };
    let expected = regex::Regex::new("(").unwrap_err().to_string();
    assert_eq!(error, format!("edit rejected: invalid regex: {expected}"));
}

#[test]
fn flagged_lines_become_hits() {
    let lines = vec!["a".to_string(), "b".to_string(), "c".repeat(201)];
    let mut hits = vec![];
    push_flagged(&mut hits, "/x.tex", &lines, &vec![true, false, true]);
    let shown: Vec<(&str, usize, usize)> =
        hits.iter().map(|h| (h.path.as_str(), h.line, h.text.len())).collect();
    assert_eq!(shown, [("/x.tex", 1, 1), ("/x.tex", 3, 200)]);
    assert_eq!(invalid_pattern("odd").message(), "edit rejected: invalid regex: odd");
}
