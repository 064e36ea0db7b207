use overleaf_mcp::config::RealtimeSettings;
use overleaf_mcp::connection::{Action, Decoded, Phase, ProjectConnection, Reaction};
use overleaf_mcp::error::OverleafError;
use overleaf_mcp::frame::{EventPayload, Frame};
use overleaf_mcp::json::JsonArg;
use overleaf_mcp::ot::{AppliedOtUpdate, OtComponent};
use overleaf_mcp::project::{EntityKind, EntityRefJson, FolderJson, JoinProjectArgs, JoinedProject};
use overleaf_mcp::shadow::DocShadow;

fn settings() -> RealtimeSettings {
    RealtimeSettings {
        connect_timeout_secs: 1,
        op_timeout_secs: 1,
        poll_timeout_secs: 1,
        edit_retries: 2,
    }
}

fn nothing() -> Decoded {
    Decoded { join: None, update: None, entity: None }
}

fn event(name: &str, args: &[&str]) -> EventPayload {
    EventPayload {
        name: name.to_string(),
        args: args.iter().map(|a| JsonArg::read(a).unwrap()).collect(),
    }
}

fn join_args() -> JoinProjectArgs {
    JoinProjectArgs {
        public_id: Some("pub".to_string()),
        project: JoinedProject {
            id: "p".to_string(),
            name: "Paper".to_string(),
            root_doc_id: None,
            root_folder: vec![FolderJson {
                id: "root".to_string(),
                name: "rootFolder".to_string(),
                folders: vec![FolderJson {
                    id: "fold".to_string(),
                    name: "parts".to_string(),
                    folders: vec![],
                    docs: vec![EntityRefJson { id: "d2".to_string(), name: "b.tex".to_string() }],
                    file_refs: vec![],
                }],
                docs: vec![EntityRefJson { id: "d1".to_string(), name: "a.tex".to_string() }],
                file_refs: vec![],
            }],
            compiler: None,
        },
        permissions_level: None,
        protocol_version: None,
    }
}

fn ready() -> ProjectConnection {
    let mut conn = ProjectConnection::open("p", settings());
    let decoded = Decoded { join: Some(Ok(join_args())), update: None, entity: None };
    let reaction = conn.handle_event(&event("joinProjectResponse", &["{}"]), decoded);
    assert!(matches!(reaction.action, Action::Ready));
    conn
}

fn with_docs() -> ProjectConnection {
    let mut conn = ready();
    for (id, ticket) in [("d1", Some(11)), ("d2", Some(12)), ("d3", None)] {
        let mut shadow = DocShadow::joined("text".to_string(), 5);
        shadow.in_flight = ticket;
        conn.docs.insert(id.to_string(), shadow);
    }
    conn
}

fn update(doc: &str, v: i64, op: Option<Vec<OtComponent>>) -> Decoded {
    let update = AppliedOtUpdate { doc: doc.to_string(), v, op, meta: None };
    Decoded { join: None, update: Some(update), entity: None }
}

fn failures(reaction: &Reaction) -> Vec<(u64, String)> {
    reaction
        .settled
        .iter()
        .map(|s| (s.ticket, s.outcome.clone().unwrap_err()))
        .collect()
}

#[test]
fn joining_makes_the_session_ready() {
    let conn = ready();
    assert!(conn.is_alive());
    assert_eq!(conn.public_id.as_deref(), Some("pub"));
    assert_eq!(conn.tree().unwrap().path_of("d2"), Some("/parts/b.tex".to_string()));
}

#[test]
fn a_bad_join_ends_the_session() {
    for (join, reason) in [
        (None, "bad joinProjectResponse: missing args"),
        (Some(Err("no field".to_string())), "bad joinProjectResponse: no field"),
    ] {
        let mut conn = ProjectConnection::open("p", settings());
        assert!(!conn.is_alive());
        let decoded = Decoded { join, update: None, entity: None };
        let reaction = conn.handle_event(&event("joinProjectResponse", &[]), decoded);
        match reaction.action {
            Action::Closed(r) => assert_eq!(r, reason),
            other => panic!("{other:?}"),
        }
        assert!(matches!(conn.phase, Phase::Dead(ref r) if r == reason));
    }
    let mut args = join_args();
    args.project.root_folder.clear();
    let mut conn = ProjectConnection::open("p", settings());
    let decoded = Decoded { join: Some(Ok(args)), update: None, entity: None };
    match conn.handle_event(&event("joinProjectResponse", &["{}"]), decoded).action {
        Action::Closed(r) => assert_eq!(
            r,
            "bad joinProjectResponse: realtime protocol error: joinProjectResponse has no root folder"
        ),
        other => panic!("{other:?}"),
    }
}

#[test]
fn the_end_fails_all_edits_once() {
    let mut conn = with_docs();
    let reaction = conn.die("gone");
    assert_eq!(failures(&reaction), [(11, "gone".to_string()), (12, "gone".to_string())]);
    assert!(matches!(reaction.action, Action::Closed(ref r) if r == "gone"));
    assert!(conn.stopped && !conn.is_alive());
    for id in ["d1", "d2", "d3"] {
        assert!(conn.docs.get(id).unwrap().dirty);
    }
    let again = conn.die("again");
    assert!(matches!(again.action, Action::Idle));
    assert!(again.settled.is_empty());
    assert!(matches!(conn.phase, Phase::Dead(ref r) if r == "gone"));
}

#[test]
fn reasons_for_the_end() {
    let io = OverleafError::Http("reset".to_string());
    let reason = |reaction: Reaction| match reaction.action {
        Action::Closed(r) => r,
        other => panic!("{other:?}"),
    };
    assert_eq!(reason(ready().poll_failed(&io)), "poll failed: http request failed: reset");
    assert_eq!(
        reason(ready().heartbeat_failed(&io)),
        "heartbeat send failed: http request failed: reset"
    );
    assert_eq!(reason(ready().shutdown()), "closed by client");
    assert_eq!(
        reason(ready().handle_event(&event("connectionRejected", &["{\"m\":1}"]), nothing())),
        "connection rejected: {\"m\":1}"
    );
    assert_eq!(
        reason(ready().handle_event(&event("connectionRejected", &[]), nothing())),
        "connection rejected: no detail"
    );
    assert_eq!(
        reason(ready().dispatch(Frame::ProtoError { reason: "+0".to_string() }, nothing())),
        "socket.io error frame: +0"
    );
    assert_eq!(reason(ready().dispatch(Frame::Disconnect, nothing())), "server sent disconnect");
}

#[test]
fn frames_are_dispatched() {
    let mut conn = ready();
    assert!(matches!(conn.dispatch(Frame::Heartbeat, nothing()).action, Action::Heartbeat));
    match conn.dispatch(Frame::Ack { id: 3, args: vec![] }, nothing()).action {
        Action::Ack { id, args } => assert_eq!((id, args.len()), (3, 0)),
        other => panic!("{other:?}"),
    }
    for frame in [Frame::Connect, Frame::Noop, Frame::Message("x".to_string())] {
        assert!(matches!(conn.dispatch(frame, nothing()).action, Action::Idle));
    }
    let unknown = conn.handle_event(&event("somethingElse", &["1"]), nothing());
    assert!(matches!(unknown.action, Action::Idle) && unknown.settled.is_empty());
}

#[test]
fn a_confirmation_settles_the_edit() {
    let mut conn = with_docs();
    let reaction = conn.handle_event(&event("otUpdateApplied", &["{}"]), update("d1", 5, None));
    assert_eq!(reaction.settled.len(), 1);
    assert_eq!(reaction.settled[0].ticket, 11);
    assert_eq!(reaction.settled[0].outcome, Ok(5));
    let shadow = conn.docs.get("d1").unwrap();
    assert_eq!((shadow.in_flight, shadow.dirty, shadow.version), (None, false, 5));
}

#[test]
fn remote_operations_are_replayed_when_they_fit() {
    let mut conn = with_docs();
    let op = vec![OtComponent::insert(0, "more ".to_string())];
    conn.handle_event(&event("otUpdateApplied", &["{}"]), update("d3", 5, Some(op)));
    let shadow = conn.docs.get("d3").unwrap();
    assert_eq!((shadow.content.as_str(), shadow.version, shadow.dirty), ("more text", 6, false));
    assert_eq!(conn.read_doc("d3"), Some(("more text".to_string(), 6)));
}

#[test]
fn remote_operations_that_do_not_fit_put_the_shadow_in_doubt() {
    for (v, op) in [
        (4, OtComponent::insert(0, "x".to_string())),
        (5, OtComponent::delete(0, "x".to_string())),
    ] {
        let mut conn = with_docs();
        conn.handle_event(&event("otUpdateApplied", &["{}"]), update("d3", v, Some(vec![op])));
        assert!(conn.docs.get("d3").unwrap().dirty);
        assert_eq!(conn.read_doc("d3"), None);
    }
    let mut conn = with_docs();
    let op = vec![OtComponent::insert(0, "x".to_string())];
    conn.handle_event(&event("otUpdateApplied", &["{}"]), update("d1", 5, Some(op)));
    let shadow = conn.docs.get("d1").unwrap();
    assert!(shadow.raced && shadow.dirty);
    assert_eq!(shadow.in_flight, Some(11));
    assert_eq!(conn.read_doc("d1"), Some(("text".to_string(), 5)));
}

#[test]
fn updates_of_other_documents_and_bad_updates_are_ignored() {
    let mut conn = with_docs();
    let reaction = conn.handle_event(&event("otUpdateApplied", &["{}"]), update("zz", 5, None));
    assert!(reaction.settled.is_empty());
    let reaction = conn.handle_event(&event("otUpdateApplied", &["{}"]), nothing());
    assert!(reaction.settled.is_empty());
    assert_eq!(conn.docs.get("d1").unwrap().in_flight, Some(11));
}

#[test]
fn refused_updates_fail_the_edit_on_their_document() {
    let mut conn = with_docs();
    let payload = event("otUpdateError", &["{\"message\":\"too big\"}", "{\"doc\":\"d2\"}"]);
    assert_eq!(failures(&conn.handle_event(&payload, nothing())), [(12, "too big".to_string())]);
    assert!(conn.docs.get("d2").unwrap().dirty && !conn.docs.get("d1").unwrap().dirty);
}

#[test]
fn refused_updates_without_a_document_fail_all_edits() {
    for (args, detail) in [
        (vec!["\"plain\""], "\"plain\""),
        (vec![], "unknown"),
        (vec!["{\"code\":1}", "{\"doc\":\"zz\"}"], "{\"code\":1}"),
    ] {
        let mut conn = with_docs();
        let reaction = conn.handle_event(&event("otUpdateError", &args), nothing());
        assert_eq!(failures(&reaction), [(11, detail.to_string()), (12, detail.to_string())]);
        assert!(conn.docs.get("d3").unwrap().dirty);
    }
}

#[test]
fn announced_entities_join_the_tree() {
    for (name, kind) in [
        ("reciveNewDoc", EntityKind::Doc),
        ("reciveNewFile", EntityKind::File),
        ("reciveNewFolder", EntityKind::Folder),
    ] {
        let mut conn = ready();
        let entity = EntityRefJson { id: "n".to_string(), name: "new".to_string() };
        let decoded = Decoded { join: None, update: None, entity: Some(entity) };
        conn.handle_event(&event(name, &["\"fold\"", "{}"]), decoded);
        let tree = conn.tree().unwrap();
        assert_eq!(tree.lookup("/parts/new"), Some(("n".to_string(), kind)));
    }
}

#[test]
fn changes_that_cannot_be_tracked_spoil_the_tree() {
    for payload in [
        event("reciveNewDoc", &["\"fold\""]),
        event("removeEntity", &["7"]),
        event("reciveEntityRename", &["\"zz\"", "\"x\""]),
        event("reciveEntityMove", &["\"d1\""]),
    ] {
        let mut conn = ready();
        conn.handle_event(&payload, nothing());
        assert_eq!(
            conn.tree().err().unwrap().message(),
            "document out of sync: project tree changed in a way that could not be tracked"
        );
    }
    let fresh = ProjectConnection::open("p", settings());
    assert_eq!(
        fresh.tree().err().unwrap().message(),
        "realtime protocol error: project tree not available"
    );
}

#[test]
fn removed_entities_take_their_documents_along() {
    let mut conn = with_docs();
    let reaction = conn.handle_event(&event("removeEntity", &["\"fold\""]), nothing());
    assert_eq!(failures(&reaction), [(12, "document was deleted".to_string())]);
    assert!(conn.docs.get("d2").is_none() && conn.docs.get("d1").is_some());
    assert_eq!(conn.tree().unwrap().entries().len(), 1);
}

#[test]
fn renames_and_moves_are_tracked() {
    let mut conn = ready();
    conn.handle_event(&event("reciveEntityRename", &["\"d1\"", "\"z.tex\""]), nothing());
    conn.handle_event(&event("reciveEntityMove", &["\"d1\"", "\"fold\""]), nothing());
    assert_eq!(conn.tree().unwrap().path_of("d1"), Some("/parts/z.tex".to_string()));
}

#[test]
fn own_changes_are_applied_at_once() {
    let mut conn = ready();
    conn.tree_apply_created("fold", "n".to_string(), "n.tex".to_string(), EntityKind::Doc);
    conn.tree_apply_renamed("fold", "other".to_string());
    assert_eq!(conn.tree().unwrap().path_of("n"), Some("/other/n.tex".to_string()));
    conn.tree_apply_moved("n", "root");
    assert_eq!(conn.tree().unwrap().path_of("n"), Some("/n.tex".to_string()));
    conn.tree_apply_removed("fold");
    assert_eq!(conn.tree().unwrap().kind_of("d2"), None);
}

#[test]
fn decoders_get_the_argument_of_their_event_only() {
    let join = |text: &str| Err::<JoinProjectArgs, String>(text.to_string());
    let update = |text: &str| {
        Some(AppliedOtUpdate { doc: text.to_string(), v: 1, op: None, meta: None })
    };
    let entity = |text: &str| Some(EntityRefJson { id: text.to_string(), name: String::new() });
    let decoded = event("joinProjectResponse", &["{\"a\":1}"]).decode(join, update, entity);
    assert_eq!(decoded.join.unwrap().unwrap_err(), "{\"a\":1}");
    assert!(decoded.update.is_none() && decoded.entity.is_none());
    let decoded = event("otUpdateApplied", &["[2]"]).decode(join, update, entity);
    assert_eq!(decoded.update.unwrap().doc, "[2]");
    let decoded = event("reciveNewFile", &["\"f\"", "{}"]).decode(join, update, entity);
    assert_eq!(decoded.entity.unwrap().id, "{}");
    let decoded = event("reciveNewFile", &["\"f\""]).decode(join, update, entity);
    assert!(decoded.entity.is_none() && decoded.join.is_none());
    let decoded = event("other", &["1", "2"]).decode(join, update, entity);
    assert!(decoded.join.is_none() && decoded.update.is_none() && decoded.entity.is_none());
}

#[test]
fn the_last_version_can_be_confirmed_and_missed() {
    let mut conn = with_docs();
    let applied = event("otUpdateApplied", &["{}"]);
    let reaction = conn.handle_event(&applied, update("d1", i64::MAX, None));
    assert_eq!(reaction.settled[0].ticket, 11);
    assert_eq!(reaction.settled[0].outcome, Ok(i64::MAX));
    let op = OtComponent::insert(0, "x".to_string());
    conn.handle_event(&applied, update("d3", i64::MAX, Some(vec![op])));
    let shadow = conn.docs.get("d3").unwrap();
    assert!(shadow.dirty);
    assert_eq!((shadow.content.as_str(), shadow.version), ("text", 5));
}
