use overleaf_mcp::config::RealtimeSettings;
use overleaf_mcp::connection::{ProjectConnection, Settled};
use overleaf_mcp::edits::{plan_edit, plan_overwrite};
use overleaf_mcp::error::OverleafError;
use overleaf_mcp::json::JsonArg;
use overleaf_mcp::ot::{AppliedOtUpdate, OtComponent};
use overleaf_mcp::session::{
    read_joined_doc, AckWait, EditSession, EditStep, ReadyWait, Settlement,
};

fn conn() -> ProjectConnection {
    let settings = RealtimeSettings {
        connect_timeout_secs: 1,
        op_timeout_secs: 1,
        poll_timeout_secs: 1,
        edit_retries: 1,
    };
    ProjectConnection::open("p", settings)
}

fn args(texts: &[&str]) -> Vec<JsonArg> {
    texts.iter().map(|t| JsonArg::read(t).unwrap()).collect()
}

fn joined(content: &str) -> ProjectConnection {
    let mut conn = conn();
    let lines: Vec<String> = content.split('\n').map(|l| format!("\"{l}\"")).collect();
    let reply = args(&["null", &format!("[{}]", lines.join(",")), "8"]);
    let mut settled = Vec::new();
    let doc = conn.join_doc("d", &reply, &mut settled).unwrap();
    assert_eq!(doc, (content.to_string(), 8));
    assert!(settled.is_empty());
    conn
}

fn begin(conn: &mut ProjectConnection, edit: &mut EditSession, ops: Vec<OtComponent>) -> EditStep {
    let mut settled = Vec::new();
    edit.on_planned(conn, "abc".to_string(), 8, Ok(ops), 21, &mut settled)
}

fn submitted(retries: u32) -> (ProjectConnection, EditSession) {
    let mut conn = joined("abc");
    let mut edit = EditSession::begin("d", retries);
    match begin(&mut conn, &mut edit, plan_overwrite("abc", "aXc")) {
        EditStep::Submit(update) => {
            assert_eq!((update.doc.as_str(), update.v, update.op.len()), ("d", 8, 2));
        }
        other => panic!("{other:?}"),
    }
    assert!(matches!(edit.on_reply(&mut conn, Ok(args(&["null"]))), EditStep::Confirm));
    (conn, edit)
}

fn confirm(conn: &mut ProjectConnection, v: i64) {
    let update = AppliedOtUpdate { doc: "d".to_string(), v, op: None, meta: None };
    let reaction = conn.on_update_applied(&update);
    assert_eq!(reaction.settled[0].ticket, 21);
}

fn failed(step: EditStep) -> String {
    match step {
        EditStep::Fail(e) => e.message(),
        other => panic!("{other:?}"),
    }
}

#[test]
fn joined_documents_are_decoded() {
    let reply = args(&["null", "[\"a\",\"\u{c3}\u{a9}\"]", "-3", "[]", "{}", "\"sharejs-text-ot\""]);
    let doc = read_joined_doc(&reply).unwrap();
    assert_eq!((doc.content.as_str(), doc.version, doc.read_only), ("a\né", -3, false));
    let doc = read_joined_doc(&args(&["null", "[]", "1"])).unwrap();
    assert_eq!((doc.content.as_str(), doc.version, doc.read_only), ("", 1, false));
}

#[test]
fn joined_documents_that_cannot_be_used() {
    for (reply, error) in [
        (vec!["{\"message\":\"no\"}"], "joinDoc rejected: {\"message\":\"no\"}"),
        (vec![], "joinDoc returned no lines"),
        (vec!["null", "5"], "joinDoc returned no lines"),
        (vec!["null", "[]"], "joinDoc returned no version"),
        (vec!["null", "[]", "1.5"], "joinDoc returned no version"),
        (
            vec!["null", "[]", "1", "0", "0", "\"json-ot\""],
            "doc uses OT type json-ot; only sharejs-text-ot is supported",
        ),
        (vec!["null", "[\"a\",7]", "1"], "joinDoc line is not a string"),
    ] {
        assert_eq!(
            read_joined_doc(&args(&reply)).unwrap_err().message(),
            format!("realtime protocol error: {error}")
        );
    }
}

#[test]
fn joining_anew_fails_the_edit_in_flight() {
    let mut conn = joined("abc");
    let mut edit = EditSession::begin("d", 0);
    begin(&mut conn, &mut edit, plan_overwrite("abc", "x"));
    let mut settled: Vec<Settled> = Vec::new();
    conn.join_doc("d", &args(&["null", "[\"n\"]", "9"]), &mut settled).unwrap();
    assert_eq!(settled[0].ticket, 21);
    assert_eq!(settled[0].outcome, Err("document was re-joined".to_string()));
    assert_eq!(conn.read_doc("d"), Some(("n".to_string(), 9)));
    assert!(conn.join_doc("d", &args(&["1"]), &mut settled).is_err());
    assert_eq!(conn.joined_meanwhile("d"), Some(("n".to_string(), 9)));
    assert_eq!(conn.read_doc("other"), None);
}

#[test]
fn a_confirmed_edit_has_the_wanted_content() {
    let (mut conn, mut edit) = submitted(0);
    confirm(&mut conn, 8);
    match edit.on_settled(&mut conn, Settlement::Applied(8)) {
        EditStep::Done(outcome) => {
            assert_eq!((outcome.content.as_str(), outcome.version, outcome.changed), ("aXc", 9, true));
        }
        other => panic!("{other:?}"),
    }
    assert_eq!(conn.read_doc("d"), Some(("aXc".to_string(), 9)));
}

#[test]
fn a_confirmed_replacement_replaces_every_occurrence() {
    let mut conn = joined("xaxbx");
    let mut edit = EditSession::begin("d", 0);
    let plan = plan_edit("xaxbx", "/d.tex", "x", "yy", true).unwrap();
    let mut settled = Vec::new();
    edit.on_planned(&mut conn, "xaxbx".to_string(), 8, Ok(plan.ops), 21, &mut settled);
    confirm(&mut conn, 8);
    match edit.on_settled(&mut conn, Settlement::Applied(8)) {
        EditStep::Done(outcome) => assert_eq!(outcome.content, "yyayybyy"),
        other => panic!("{other:?}"),
    }
}

#[test]
fn an_empty_operation_changes_nothing() {
    let mut conn = joined("abc");
    let mut edit = EditSession::begin("d", 0);
    match begin(&mut conn, &mut edit, vec![]) {
        EditStep::Done(outcome) => {
            assert_eq!((outcome.content.as_str(), outcome.version, outcome.changed), ("abc", 8, false));
        }
        other => panic!("{other:?}"),
    }
    assert_eq!(conn.docs.get("d").unwrap().in_flight, None);
}

#[test]
fn edits_that_cannot_begin() {
    let mut edit = EditSession::begin("d", 3);
    let mut settled = Vec::new();
    let refused = Err(OverleafError::Edit("no match".to_string()));
    let step =
        edit.on_planned(&mut joined("abc"), "abc".to_string(), 8, refused, 1, &mut settled);
    assert_eq!(failed(step), "edit rejected: no match");
    let step = begin(&mut conn(), &mut edit, plan_overwrite("abc", "x"));
    assert_eq!(failed(step), "realtime protocol error: doc shadow disappeared during edit");
}

#[test]
fn a_new_edit_supersedes_an_older_one() {
    let (mut conn, _) = submitted(0);
    let mut edit = EditSession::begin("d", 0);
    let mut settled = Vec::new();
    let ops = plan_overwrite("abc", "x");
    edit.on_planned(&mut conn, "abc".to_string(), 8, Ok(ops), 22, &mut settled);
    assert_eq!(settled.len(), 1);
    assert_eq!(settled[0].ticket, 21);
    assert_eq!(settled[0].outcome, Err("superseded by a new edit".to_string()));
    assert_eq!(conn.docs.get("d").unwrap().in_flight, Some(22));
}

#[test]
fn a_refusal_is_final() {
    let mut conn = joined("abc");
    let mut edit = EditSession::begin("d", 5);
    begin(&mut conn, &mut edit, plan_overwrite("abc", "x"));
    let step = edit.on_reply(&mut conn, Ok(args(&["{\"message\":\"big\"}"])));
    assert_eq!(failed(step), "edit rejected: server rejected update: {\"message\":\"big\"}");
    assert!(conn.docs.get("d").unwrap().dirty);
    assert_eq!(conn.read_doc("d"), None);
}

#[test]
fn a_lost_reply_is_tried_again() {
    let mut conn = joined("abc");
    let mut edit = EditSession::begin("d", 1);
    for last in [false, true] {
        begin(&mut conn, &mut edit, plan_overwrite("abc", "x"));
        let step = edit.on_reply(&mut conn, Err(OverleafError::Timeout("no ack".to_string())));
        if last {
            assert_eq!(failed(step), "timed out: no ack");
        } else {
            assert!(matches!(step, EditStep::Read));
            assert_eq!(edit.attempt, 1);
        }
    }
}

#[test]
fn an_interleaved_edit_is_read_anew() {
    let (mut conn, mut edit) = submitted(1);
    let remote = AppliedOtUpdate {
        doc: "d".to_string(),
        v: 8,
        op: Some(vec![OtComponent::insert(0, "z".to_string())]),
        meta: None,
    };
    conn.on_update_applied(&remote);
    confirm(&mut conn, 9);
    assert!(matches!(edit.on_settled(&mut conn, Settlement::Applied(9)), EditStep::Read));
    assert_eq!(conn.read_doc("d"), None);
    let (mut conn, mut edit) = submitted(0);
    confirm(&mut conn, 9);
    assert_eq!(
        failed(edit.on_settled(&mut conn, Settlement::Applied(9))),
        "document out of sync: a concurrent edit was interleaved"
    );
}

#[test]
fn a_replay_that_fails_puts_the_shadow_in_doubt() {
    let mut conn = joined("different");
    let mut edit = EditSession::begin("d", 0);
    begin(&mut conn, &mut edit, plan_overwrite("abc", "aXc"));
    confirm(&mut conn, 8);
    assert_eq!(
        failed(edit.on_settled(&mut conn, Settlement::Applied(8))),
        "document out of sync: local replay of confirmed op failed"
    );
    assert!(conn.docs.get("d").unwrap().dirty);
}

#[test]
fn other_ends_of_a_wait() {
    let (mut conn, mut edit) = submitted(0);
    assert_eq!(
        failed(edit.on_settled(&mut conn, Settlement::TimedOut)),
        "timed out: op sent but not confirmed; doc will be resynced"
    );
    assert_eq!(conn.docs.get("d").unwrap().in_flight, None);
    let (mut conn, mut edit) = submitted(4);
    assert_eq!(
        failed(edit.on_settled(&mut conn, Settlement::Lost)),
        "realtime protocol error: realtime connection lost mid-edit"
    );
    let (mut conn, mut edit) = submitted(0);
    assert_eq!(
        failed(edit.on_settled(&mut conn, Settlement::Failed("why".to_string()))),
        "edit rejected: why"
    );
    let (mut conn, mut edit) = submitted(0);
    conn.docs.remove("d");
    assert_eq!(
        failed(edit.on_settled(&mut conn, Settlement::Applied(8))),
        "realtime protocol error: doc shadow disappeared during edit"
    );
}

#[test]
fn waits_have_verdicts() {
    assert!(ReadyWait::Ready.verdict().is_ok());
    assert_eq!(
        ReadyWait::Dead("why".to_string()).verdict().unwrap_err().message(),
        "realtime protocol error: why"
    );
    assert_eq!(
        ReadyWait::TaskGone.verdict().unwrap_err().message(),
        "realtime protocol error: realtime connection task exited"
    );
    assert_eq!(
        ReadyWait::TimedOut.verdict().unwrap_err().message(),
        "timed out: waiting for joinProjectResponse"
    );
    assert_eq!(AckWait::Args(args(&["1"])).verdict("x").unwrap().len(), 1);
    assert_eq!(
        AckWait::Lost.verdict("x").unwrap_err().message(),
        "realtime protocol error: realtime connection lost while waiting for ack"
    );
    assert_eq!(AckWait::TimedOut.verdict("joinDoc").unwrap_err().message(), "timed out: no ack for joinDoc");
}

#[test]
fn message_ids_count_up_until_the_end() {
    let mut conn = conn();
    assert_eq!(conn.next_message().unwrap(), 1);
    assert_eq!(conn.next_message().unwrap(), 2);
    conn.die("x");
    assert_eq!(
        conn.next_message().unwrap_err().message(),
        "realtime protocol error: realtime connection is closed"
    );
}

#[test]
fn history_documents_are_read_but_not_edited() {
    let mut conn = joined("abc");
    let mut settled: Vec<Settled> = Vec::new();
    let reply = args(&["null", "[\"x\",\"y\"]", "4", "0", "0", "\"history-ot\""]);
    assert_eq!(conn.join_doc("d", &reply, &mut settled).unwrap(), ("x\ny".to_string(), 4));
    assert_eq!(conn.read_doc("d"), None);
    assert_eq!(conn.joined_meanwhile("d"), None);
    let mut edit = EditSession::begin("d", 2);
    for ops in [Ok(plan_overwrite("x\ny", "z")), Ok(vec![]), plan_empty()] {
        let step = edit.on_planned(&mut conn, "x\ny".to_string(), 4, ops, 30, &mut settled);
        assert_eq!(
            failed(step),
            "realtime protocol error: doc uses OT type history-ot; only sharejs-text-ot is supported"
        );
    }
    assert!(settled.is_empty());
}

fn plan_empty() -> Result<Vec<OtComponent>, OverleafError> {
    Err(OverleafError::Edit("not found".to_string()))
}
