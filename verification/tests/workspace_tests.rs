use overleaf_mcp::args::{DownloadOutputArgs, EditFileArgs, GetHistoryArgs, SearchArgs};
use overleaf_mcp::compile::{CompileResponse, OutputFile};
use overleaf_mcp::config::RealtimeSettings;
use overleaf_mcp::error::OverleafError;
use overleaf_mcp::project::{
    EntityKind, EntityRefJson, FolderJson, JoinedProject, ProjectInfo, ProjectTree, UploadResponse,
};
use overleaf_mcp::search::docs_to_search;
use overleaf_mcp::session::EditOutcome;
use overleaf_mcp::tools::{
    check_comment, check_edit, check_new_name, check_write, kind_of_upload, list_files,
    report_saved, CompilePlan, ReadPlan, StatPlan, WritePlan,
};
use overleaf_mcp::workspace::{
    match_project, same_but_case, Located, Resolution, Workspace, WorkspaceSettings,
};

fn project(id: &str, name: &str) -> ProjectInfo {
    ProjectInfo { id: id.to_string(), name: name.to_string(), access_level: None }
}

fn projects() -> Vec<ProjectInfo> {
    vec![
        project("p1", "Paper"),
        project("p2", "thesis"),
        project("p3", "Thesis"),
        project("p4", "p1"),
        project("p5", "Slides"),
    ]
}

fn workspace(default_project: Option<&str>, allow_all_projects: bool) -> Workspace {
    let settings = WorkspaceSettings {
        default_project: default_project.map(str::to_string),
        allow_all_projects,
        realtime: RealtimeSettings {
            connect_timeout_secs: 1,
            op_timeout_secs: 1,
            poll_timeout_secs: 1,
            edit_retries: 1,
        },
        search_max_matches: 200,
    };
    Workspace::connect("https://o.example".to_string(), settings, projects()).ok().unwrap()
}

fn found(resolution: Resolution) -> String {
    match resolution {
        Resolution::Found(p) => p.id,
        Resolution::Refresh(w) => format!("refresh {w}"),
        Resolution::Fail(e) => e.message(),
    }
}

fn entity(id: &str, name: &str) -> EntityRefJson {
    EntityRefJson { id: id.to_string(), name: name.to_string() }
}

fn tree() -> ProjectTree {
    let sub = FolderJson {
        id: "s".to_string(),
        name: "sections".to_string(),
        folders: vec![],
        docs: vec![entity("d2", "intro.tex")],
        file_refs: vec![entity("f2", "plot.png")],
    };
    let root = FolderJson {
        id: "root".to_string(),
        name: "rootFolder".to_string(),
        folders: vec![sub],
        docs: vec![entity("d1", "main.tex")],
        file_refs: vec![entity("f1", "logo.png")],
    };
    ProjectTree::from_join(&JoinedProject {
        id: "p1".to_string(),
        name: "Paper".to_string(),
        root_doc_id: Some("d1".to_string()),
        root_folder: vec![root],
        compiler: None,
    })
    .unwrap()
}

fn at(path: &str) -> Located {
    Located::locate(project("p1", "Paper"), tree(), path)
}

fn outcome(content: &str, changed: bool) -> EditOutcome {
    EditOutcome { content: content.to_string(), version: 4, changed }
}

#[test]
fn names_are_matched_from_exact_to_loose() {
    let all = projects();
    let hit = |w: &str| match_project(&all, w).map(|p| p.id);
    assert_eq!(hit("p1"), Some("p1".to_string()));
    assert_eq!(hit("Thesis"), Some("p3".to_string()));
    assert_eq!(hit("THESIS"), None);
    assert_eq!(hit("sLIDES"), Some("p5".to_string()));
    assert_eq!(hit("none"), None);
    for (a, b) in [("Ab", "aB"), ("É", "é"), ("a", "ab"), ("[", "{"), ("", "")] {
        assert_eq!(same_but_case(a, b), a.eq_ignore_ascii_case(b));
    }
}

#[test]
fn calls_without_a_pinned_project_name_theirs() {
    let mut ws = workspace(None, false);
    assert!(ws.pinned_project().is_none());
    assert_eq!(found(ws.resolve_project(Some(" Paper "))), "p1");
    assert_eq!(
        found(ws.resolve_project(Some("  "))),
        "edit rejected: no project given and the server has no default; pass `project` (see list_projects)"
    );
    assert_eq!(found(ws.resolve_project(Some("New"))), "refresh New");
    let fresh = vec![project("p9", "New")];
    assert_eq!(ws.resolve_refreshed("New", fresh).unwrap().id, "p9");
    assert_eq!(found(ws.resolve_project(Some("Paper"))), "refresh Paper");
    assert_eq!(
        ws.resolve_refreshed("Paper", vec![]).unwrap_err().message(),
        "not found: project `Paper` (try list_projects)"
    );
}

#[test]
fn a_restricted_server_keeps_to_its_project() {
    let ws = workspace(Some(" paper "), false);
    assert_eq!(ws.pinned_project().unwrap().id, "p1");
    assert_eq!(found(ws.resolve_project(None)), "p1");
    assert_eq!(found(ws.resolve_project(Some("p1"))), "p1");
    assert_eq!(found(ws.resolve_project(Some("PAPER"))), "p1");
    assert_eq!(
        found(ws.resolve_project(Some("Slides"))),
        "access denied: this server only has access to project 'Paper' (p1); `Slides` is not permitted — omit the `project` parameter"
    );
    assert_eq!(
        ws.list_projects().unwrap(),
        "This server is restricted to a single project:\np1  Paper (member)\nOmit the `project` parameter in tool calls; other projects are not accessible.\n"
    );
}

#[test]
fn a_default_project_leaves_others_reachable_when_allowed() {
    let ws = workspace(Some("Paper"), true);
    assert_eq!(found(ws.resolve_project(None)), "p1");
    assert_eq!(found(ws.resolve_project(Some("Slides"))), "p5");
    assert!(ws.list_projects().is_none());
}

#[test]
fn the_pinned_project_has_to_exist() {
    let settings = WorkspaceSettings {
        default_project: Some("Gone".to_string()),
        allow_all_projects: false,
        realtime: RealtimeSettings {
            connect_timeout_secs: 1,
            op_timeout_secs: 1,
            poll_timeout_secs: 1,
            edit_retries: 1,
        },
        search_max_matches: 1,
    };
    assert_eq!(
        Workspace::connect("u".to_string(), settings, projects()).err().unwrap().message(),
        "not found: pinned project `Gone` was not found on the server"
    );
}

#[test]
fn projects_are_listed() {
    let mut ws = workspace(None, false);
    let mut owned = project("p9", "New");
    owned.access_level = Some("owner".to_string());
    assert_eq!(
        ws.projects_listed(vec![owned, project("p8", "Old")]),
        "2 projects on https://o.example:\np9  New (owner)\np8  Old (member)\n"
    );
    assert_eq!(ws.projects.len(), 2);
}

#[test]
fn files_are_listed() {
    assert_eq!(
        list_files(&tree()),
        "Project Paper (p1), compiler: unknown\n/logo.png (file)\n/main.tex (doc) [root document]\n/sections (folder)\n/sections/intro.tex (doc)\n/sections/plot.png (file)\n"
    );
}

#[test]
fn paths_are_located() {
    let loc = at("sections//intro.tex");
    assert_eq!(loc.path, "/sections/intro.tex");
    assert_eq!(loc.target().unwrap(), ("d2".to_string(), EntityKind::Doc));
    assert_eq!(at("/x").target().unwrap_err().message(), "not found: /x in project Paper");
    assert_eq!(at("/a/b").place().unwrap(), ("/a".to_string(), "b".to_string()));
    assert_eq!(at("/b").place().unwrap(), ("/".to_string(), "b".to_string()));
    assert_eq!(at("/").place().unwrap_err().message(), "edit rejected: / is not a valid file path");
}

#[test]
fn files_are_read_by_kind() {
    match at("/main.tex").read_plan().unwrap() {
        ReadPlan::Doc(id) => assert_eq!(id, "d1"),
        other => panic!("{other:?}"),
    }
    match at("/logo.png").read_plan().unwrap() {
        ReadPlan::Said(text) => assert_eq!(
            text,
            "/logo.png is a binary file; use download_file to save it locally."
        ),
        other => panic!("{other:?}"),
    }
    assert_eq!(
        at("/sections").read_plan().unwrap_err().message(),
        "edit rejected: /sections is a folder; use list_files"
    );
    assert_eq!(at("/x").read_plan().unwrap_err().message(), "not found: /x in project Paper");
    let mut ws = workspace(None, false);
    assert_eq!(
        ws.read_file(&at("/main.tex"), "a\nb\nc", 7, Some(2), Some(1)),
        "/main.tex (doc, version 7, 3 lines)\n     2\tb\n"
    );
    assert_eq!(
        ws.read_file(&at("/main.tex"), "a", 7, None, None),
        "/main.tex (doc, version 7, 1 lines)\n     1\ta\n"
    );
}

#[test]
fn entries_are_described_without_reading() {
    let said = |path: &str| match at(path).stat_plan().unwrap() {
        StatPlan::Said(text) => text,
        other => panic!("{other:?}"),
    };
    assert_eq!(said("/"), "/: folder containing 2 doc(s), 2 binary file(s), 1 subfolder(s)");
    assert_eq!(
        said("/sections"),
        "/sections: folder containing 1 doc(s), 1 binary file(s), 0 subfolder(s)"
    );
    assert!(matches!(at("/main.tex").stat_plan(), Ok(StatPlan::Doc(id)) if id == "d1"));
    assert!(matches!(at("/logo.png").stat_plan(), Ok(StatPlan::File(id)) if id == "f1"));
    assert!(at("/x").stat_plan().is_err());
    assert_eq!(at("/main.tex").stat_doc("é\nb", 3), "/main.tex: doc, version 3, 2 lines, 4 bytes");
    assert_eq!(at("/l").stat_binary(Some(12)), "/l: binary file, 12 bytes");
    assert_eq!(at("/l").stat_binary(None), "/l: binary file, size unknown");
}

#[test]
fn replacements_are_checked_first() {
    assert!(check_edit("a", "b").is_ok());
    assert_eq!(
        check_edit("", "b").unwrap_err().message(),
        "edit rejected: old_string must not be empty"
    );
    assert_eq!(
        check_edit("a", "a").unwrap_err().message(),
        "edit rejected: old_string and new_string are identical"
    );
    assert!(check_edit("a", "😀").unwrap_err().message().contains("new_string contains '😀'"));
    assert!(check_write("fine").is_ok() && check_write("😀").is_err());
}

#[test]
fn files_have_to_be_read_before_they_are_edited() {
    let mut ws = workspace(None, false);
    let loc = at("/main.tex");
    assert_eq!(
        ws.edit_target(&loc).unwrap_err().message(),
        "edit rejected: /main.tex has not been read in this session; call read_file first"
    );
    ws.read_file(&loc, "text", 1, None, None);
    assert_eq!(ws.edit_target(&loc).unwrap(), ("d1".to_string(), "text".to_string()));
    assert_eq!(
        ws.edit_target(&at("/sections")).unwrap_err().message(),
        "edit rejected: /sections is a folder, not an editable doc"
    );
    assert!(ws.edit_target(&at("/x")).is_err());
    ws.delete_entity(&loc, EntityKind::Doc);
    assert!(ws.edit_target(&loc).is_err());
}

#[test]
fn clean_edits_are_reported_and_remembered() {
    let mut ws = workspace(None, false);
    let loc = at("/main.tex");
    let before = "1\n2\n3\n4\nold\n6\n7\n8\n9\n10\n11\n12\n13";
    let after = before.replace("old", "new");
    ws.read_file(&loc, before, 1, None, None);
    let text = ws.edit_file(&loc, before, before, &outcome(&after, true), 1, 8, "new");
    assert_eq!(
        text,
        "Replaced 1 occurrence(s) in /main.tex (now version 4).\n     2\t2\n     3\t3\n     4\t4\n     5\tnew\n     6\t6\n     7\t7\n     8\t8\n"
    );
    assert_eq!(ws.edit_target(&loc).unwrap().1, after);
}

#[test]
fn edits_of_changed_files_note_the_change() {
    let mut ws = workspace(None, false);
    let loc = at("/main.tex");
    ws.read_file(&loc, "a\nb", 1, None, None);
    let text = ws.edit_file(&loc, "a\nb", "X\nY\nb", &outcome("X\nY\nc", true), 1, 4, "c");
    assert_eq!(
        text,
        "Replaced 1 occurrence(s) in /main.tex (now version 4).\n     1\tX\n     2\tY\n     3\tc\n\nNote: other collaborators edited /main.tex since your last read (around lines 1-2 of the current content). Your edit was applied, but call read_file to see their changes before editing further.\n"
    );
    assert_eq!(ws.edit_target(&loc).unwrap().1, "a\nb");
    let text = ws.edit_file(&loc, "a\nb", "a\nB", &outcome("q", true), 2, 99, "c\n");
    assert!(text.contains("(around line 2 of the current content)"));
}

#[test]
fn writing_takes_a_fresh_reading() {
    let mut ws = workspace(None, false);
    let loc = at("/main.tex");
    assert!(matches!(loc.write_plan(), Ok(WritePlan::Overwrite(id)) if id == "d1"));
    let stale =
        "edit rejected: /main.tex was not read since its last change; call read_file first and merge your changes";
    assert_eq!(ws.check_overwrite(&loc, "now").unwrap_err().message(), stale);
    ws.read_file(&loc, "then", 1, None, None);
    assert_eq!(ws.check_overwrite(&loc, "now").unwrap_err().message(), stale);
    assert!(ws.check_overwrite(&loc, "then").is_ok());
    assert_eq!(
        ws.write_file(&loc, &outcome("x\ny", true)),
        "Overwrote /main.tex (2 lines, version 4)."
    );
    assert!(ws.check_overwrite(&loc, "x\ny").is_ok());
    assert_eq!(ws.write_file(&loc, &outcome("x", false)), "/main.tex already had this content.");
}

#[test]
fn new_files_are_planned_and_reported() {
    match at("/new/deep/a.tex").write_plan().unwrap() {
        WritePlan::Create { folder, name } => {
            assert_eq!((folder.as_str(), name.as_str()), ("/new/deep", "a.tex"));
        }
        other => panic!("{other:?}"),
    }
    assert_eq!(
        at("/logo.png").write_plan().unwrap_err().message(),
        "edit rejected: /logo.png is a file; write_file only handles docs (use upload_file for binary assets)"
    );
    assert!(at("/").write_plan().is_err());
    let mut ws = workspace(None, false);
    let loc = at("/a.tex");
    assert_eq!(ws.write_new_file(&loc, &outcome("x", true)), "Created /a.tex (1 lines, version 4).");
    assert!(ws.check_overwrite(&loc, "x").is_ok());
}

#[test]
fn files_are_managed() {
    let mut ws = workspace(None, false);
    let loc = at("/sections");
    ws.read_file(&at("/sections/intro.tex"), "t", 1, None, None);
    ws.read_file(&at("/main.tex"), "m", 1, None, None);
    assert_eq!(
        ws.rename_entity(&loc, EntityKind::Folder, "parts"),
        "Renamed folder /sections to parts."
    );
    assert!(ws.edit_target(&at("/sections/intro.tex")).is_err());
    assert!(ws.edit_target(&at("/main.tex")).is_ok());
    assert_eq!(ws.delete_entity(&loc, EntityKind::Folder), "Deleted folder /sections.");
    assert_eq!(
        ws.move_entity(&at("/main.tex"), EntityKind::Doc, "sections/"),
        "Moved doc /main.tex into /sections."
    );
    assert!(ws.edit_target(&at("/main.tex")).is_err());
    assert_eq!(
        ws.upload_file(&at("/a.png"), 12, EntityKind::File),
        "Uploaded 12 bytes to /a.png as a file."
    );
    assert_eq!(at("/fig").create_folder("f9"), "Folder /fig ready (id f9).");
    assert_eq!(report_saved("/a.png", 3, "/tmp/a.png"), "Saved /a.png (3 bytes) to /tmp/a.png.");
}

#[test]
fn downloads_are_docs_and_files() {
    assert_eq!(at("/main.tex").download_file().unwrap().1, EntityKind::Doc);
    assert_eq!(at("/logo.png").download_file().unwrap().0, "f1");
    assert_eq!(
        at("/sections").download_file().unwrap_err().message(),
        "edit rejected: /sections is a folder; download files individually"
    );
    assert!(at("/x").download_file().is_err());
}

#[test]
fn names_and_comments_are_checked() {
    assert_eq!(check_new_name(" b.tex ").unwrap(), "b.tex");
    for name in ["a/b", "", "  "] {
        assert_eq!(
            check_new_name(name).unwrap_err().message(),
            "edit rejected: new_name must be a plain name without slashes"
        );
    }
    assert_eq!(check_comment(" draft ").unwrap(), "draft");
    assert_eq!(
        check_comment(" ").unwrap_err().message(),
        "edit rejected: label comment must not be empty"
    );
}

#[test]
fn uploads_have_kinds() {
    let kind = |k: Option<&str>| {
        kind_of_upload(&UploadResponse {
            success: true,
            entity_id: None,
            entity_type: k.map(str::to_string),
        })
    };
    assert_eq!(kind(Some("doc")), EntityKind::Doc);
    assert_eq!(kind(Some("folder")), EntityKind::Folder);
    assert_eq!(kind(Some("file")), EntityKind::File);
    assert_eq!(kind(None), EntityKind::File);
}

#[test]
fn searches_keep_to_their_scope() {
    let paths = |path: Option<&str>| -> Vec<String> {
        docs_to_search(&tree(), "Paper", path).unwrap().into_iter().map(|d| d.0).collect()
    };
    assert_eq!(paths(None), ["/main.tex", "/sections/intro.tex"]);
    assert_eq!(paths(Some("/")), ["/main.tex", "/sections/intro.tex"]);
    assert_eq!(paths(Some("sections")), ["/sections/intro.tex"]);
    assert_eq!(paths(Some("main.tex")), ["/main.tex"]);
    assert_eq!(
        docs_to_search(&tree(), "Paper", Some("sect")).unwrap_err().message(),
        "not found: no docs to search under /sect in project Paper"
    );
}

fn response(status: &str, paths: &[&str]) -> CompileResponse {
    CompileResponse {
        status: status.to_string(),
        output_files: paths
            .iter()
            .map(|p| OutputFile {
                path: p.to_string(),
                url: format!("/build/{p}"),
                kind: None,
                build: None,
            })
            .collect(),
        clsi_server_id: None,
    }
}

#[test]
fn compiles_are_recorded() {
    let mut ws = workspace(None, false);
    let paper = project("p1", "Paper");
    let missing = "edit rejected: no compile result for this project yet; run compile first";
    assert_eq!(ws.log_source("p1").unwrap_err().message(), missing);
    assert_eq!(ws.read_log(&paper, None, None).unwrap_err().message(), missing);
    assert_eq!(ws.download_output("p1", "x").unwrap_err().message(), missing);
    let done = response("success", &["output.log", "output.pdf"]);
    assert!(matches!(done.plan(), CompilePlan::FetchLog(s) if s.url == "/build/output.log"));
    let text = ws.compile(&paper, done, Some(Ok(b"a\nb\xff".to_vec())));
    assert!(text.contains("Full log: 2 lines"));
    assert!(ws.log_source("p1").unwrap().is_none());
    assert_eq!(
        ws.read_log(&paper, None, None).unwrap(),
        "output.log of last compile of Paper (status success, 2 lines total)\n     1\ta\n     2\tb\u{fffd}\n"
    );
    assert_eq!(
        ws.read_log(&paper, Some(2), Some(1)).unwrap(),
        "output.log of last compile of Paper (status success, 2 lines total)\n     2\tb\u{fffd}\n"
    );
    assert_eq!(ws.download_output("p1", "output.pdf").unwrap().url, "/build/output.pdf");
    assert_eq!(
        ws.download_output("p1", "x").unwrap_err().message(),
        "not found: x in the last compile (available: output.log, output.pdf)"
    );
}

#[test]
fn refused_compiles_keep_the_last_outputs() {
    let mut ws = workspace(None, false);
    let paper = project("p1", "Paper");
    ws.compile(&paper, response("success", &["output.log"]), Some(Ok(b"log".to_vec())));
    let refused = response("too-recently-compiled", &[]);
    assert!(matches!(refused.plan(), CompilePlan::Refused));
    assert!(ws.compile(&paper, refused, None).contains("rate-limited"));
    assert!(ws.read_log(&paper, None, None).unwrap().contains("log"));
}

#[test]
fn logs_that_could_not_be_fetched_are_fetched_later() {
    let mut ws = workspace(None, false);
    let paper = project("p1", "Paper");
    let failed = Some(Err(OverleafError::Http("reset".to_string())));
    ws.compile(&paper, response("success", &["output.log"]), failed);
    assert_eq!(ws.log_source("p1").unwrap().unwrap().url, "/build/output.log");
    ws.log_fetched("p1", &"später".as_bytes().to_vec());
    assert!(ws.log_source("p1").unwrap().is_none());
    assert!(ws.read_log(&paper, None, None).unwrap().ends_with("     1\tspäter\n"));
    let bare = response("error", &[]);
    assert!(matches!(bare.plan(), CompilePlan::NoLog));
    ws.compile_with_log(&paper, bare, None);
    assert_eq!(
        ws.log_source("p1").unwrap_err().message(),
        "not found: output.log in the last compile"
    );
}

#[test]
fn sessions_are_replaced_when_they_lost_the_tree() {
    assert!(Workspace::should_reopen(&OverleafError::OutOfSync(String::new())));
    assert!(!Workspace::should_reopen(&OverleafError::Protocol(String::new())));
}

#[test]
fn arguments_have_defaults() {
    let edit = |replace_all| EditFileArgs {
        project: None,
        path: String::new(),
        old_string: String::new(),
        new_string: String::new(),
        replace_all,
    };
    assert!(edit(Some(true)).replaces_all());
    assert!(!edit(Some(false)).replaces_all() && !edit(None).replaces_all());
    let search = |case_insensitive| SearchArgs {
        project: None,
        pattern: String::new(),
        path: None,
        case_insensitive,
    };
    assert!(search(Some(true)).ignores_case() && !search(None).ignores_case());
    let output = |file: Option<&str>| DownloadOutputArgs {
        project: None,
        file: file.map(str::to_string),
        local_path: String::new(),
    };
    assert_eq!(output(None).wanted_file(), "output.pdf");
    assert_eq!(output(Some("a.log")).wanted_file(), "a.log");
}

#[test]
fn read_logs_are_kept() {
    let mut ws = workspace(None, false);
    let paper = project("p1", "Paper");
    let failed = Some(Err(OverleafError::Http("reset".to_string())));
    ws.compile(&paper, response("success", &["output.log"]), failed);
    ws.log_read("p1", "a\nb".to_string());
    assert!(ws.log_source("p1").unwrap().is_none());
    assert!(ws.read_log(&paper, None, None).unwrap().ends_with("     1\ta\n     2\tb\n"));
}

#[test]
fn only_the_newest_history_is_flushed() {
    assert!(GetHistoryArgs { project: None, before: None }.flushes_first());
    assert!(!GetHistoryArgs { project: None, before: Some(0) }.flushes_first());
}

#[test]
fn tools_keep_the_settings() {
    let mut ws = workspace(Some("Paper"), true);
    ws.projects_listed(vec![project("p2", "Other")]);
    ws.log_read("p1", "log".to_string());
    assert_eq!(ws.settings.default_project.as_deref(), Some("Paper"));
    assert!(ws.settings.allow_all_projects);
    assert_eq!(ws.settings.realtime.edit_retries, 1);
}
