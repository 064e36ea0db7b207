//! Reading and editing documents over a realtime session.
use vstd::prelude::*;

use crate::config::RealtimeSettings;
use crate::connection::{
    after_event, closed, failure, lemma_tree_event_names_differ, opened, settled_views, tree_lost,
    updated, ConnView, Decoded, Phase, PhaseView, ProjectConnection, Settled, SettledView,
};
use crate::edits::{
    match_starts, overwrite_ops, overwrite_ops_give_the_target, planned_edit_replaces_the_string,
    replacement_script, with_replaced,
};
use crate::error::{concat, ErrorView, OverleafError, Result};
use crate::frame::PayloadView;
use crate::json::{arg_views, integer_of, text_arg, text_of, ArgView, Json, JsonArg, JsonView};
use crate::ot::{
    clone_ops, component_views, positions_fit, script, spliced, valid_edits, AppliedView,
    ComponentView, EditView, OtComponent, OtUpdate, UpdateView,
};
use crate::pieces::{join, join_restores_split, joined, split_on};
use crate::project::{EntityKind, ProjectTree, TreeView};
use crate::shadow::{
    replayed, script_makes_the_replacements, wire_decoded, wire_decoding_undoes_encoding,
    wire_encoded, DocShadow, ShadowView,
};
use crate::text::{same_text, texts};
use crate::tree::{tree_result, with_name, with_node, with_parent};
use crate::units::utf16_size;

verus! {

// --- waiting -------------------------------------------------------------

/// How waiting for a session to become ready ended.
#[derive(Debug)]
pub enum ReadyWait {
    Ready,
    Dead(String),
    /// The task that serves the session is gone.
    TaskGone,
    TimedOut,
}

/// What waiting for a session to become ready gives.
pub open spec fn ready_verdict(wait: ReadyWait) -> core::result::Result<(), ErrorView> {
    match wait {
        ReadyWait::Ready => Ok(()),
        ReadyWait::Dead(reason) => Err(ErrorView::Protocol(reason@)),
        ReadyWait::TaskGone => Err(ErrorView::Protocol("realtime connection task exited"@)),
        ReadyWait::TimedOut => Err(ErrorView::Timeout("waiting for joinProjectResponse"@)),
    }
}

/// How waiting for an ack ended.
#[derive(Debug)]
pub enum AckWait {
    Args(Vec<JsonArg>),
    /// Nobody will send the ack any more.
    Lost,
    TimedOut,
}

/// What waiting for the ack to the request `name` gives.
pub open spec fn ack_verdict(name: Seq<char>, wait: AckWait) -> core::result::Result<
    Seq<ArgView>,
    ErrorView,
> {
    match wait {
        AckWait::Args(args) => Ok(arg_views(args@)),
        AckWait::Lost => Err(
            ErrorView::Protocol("realtime connection lost while waiting for ack"@),
        ),
        AckWait::TimedOut => Err(ErrorView::Timeout("no ack for "@ + name)),
    }
}

/// Arguments, or the error in their place, as plain values.
pub open spec fn args_result(res: Result<Vec<JsonArg>>) -> core::result::Result<
    Seq<ArgView>,
    ErrorView,
> {
    match res {
        Ok(args) => Ok(arg_views(args@)),
        Err(e) => Err(e@),
    }
}

impl ReadyWait {
    /// What waiting for a session to become ready gives.
    pub fn verdict(self) -> (res: Result<()>)
        ensures
            ready_verdict(self) == (match res {
                Ok(_) => Ok(()),
                Err(e) => Err(e@),
            }),
    {
        match self {
            ReadyWait::Ready => Ok(()),
            ReadyWait::Dead(reason) => Err(OverleafError::Protocol(reason)),
            ReadyWait::TaskGone => Err(
                OverleafError::Protocol("realtime connection task exited".to_owned()),
            ),
            ReadyWait::TimedOut => Err(
                OverleafError::Timeout("waiting for joinProjectResponse".to_owned()),
            ),
        }
    }
}

impl AckWait {
    /// What waiting for the ack to the request `name` gives.
    pub fn verdict(self, name: &str) -> (res: Result<Vec<JsonArg>>)
        ensures
            args_result(res) == ack_verdict(name@, self),
    {
        match self {
            AckWait::Args(args) => Ok(args),
            AckWait::Lost => Err(
                OverleafError::Protocol("realtime connection lost while waiting for ack".to_owned()),
            ),
            AckWait::TimedOut => Err(OverleafError::Timeout(concat("no ack for ", name))),
        }
    }
}

// --- the session as a whole ----------------------------------------------

/// Whether a session can be used.
pub open spec fn alive(conn: ConnView) -> bool {
    !conn.stopped && conn.phase == PhaseView::Ready
}

/// The tree of a session's project.
pub open spec fn current_tree(conn: ConnView) -> core::result::Result<TreeView, ErrorView> {
    if conn.tree_dirty {
        Err(ErrorView::OutOfSync("project tree changed in a way that could not be tracked"@))
    } else {
        match conn.tree {
            Some(tree) => Ok(tree),
            None => Err(ErrorView::Protocol("project tree not available"@)),
        }
    }
}

/// A session with its tree changed, where it has one.
pub open spec fn with_tree(conn: ConnView, change: spec_fn(TreeView) -> TreeView) -> ConnView {
    match conn.tree {
        Some(tree) => ConnView { tree: Some(change(tree)), ..conn },
        None => conn,
    }
}

/// A tree that cannot be trusted is never handed out.
pub proof fn lost_tree_is_not_handed_out(conn: ConnView)
    ensures
        current_tree(tree_lost(conn)) is Err,
{
}

impl ProjectConnection {
    /// Whether the session can be used.
    pub fn is_alive(&self) -> (yes: bool)
        ensures
            yes == alive(self@),
    {
        let ready = match &self.phase {
            Phase::Ready => true,
            _ => false,
        };
        !self.stopped && ready
    }

    /// The id for the next message to the server. Fails on a session that is
    /// over.
    pub fn next_message(&mut self) -> (id: Result<u64>)
        requires
            !old(self)@.stopped ==> old(self)@.last_msg_id < u64::MAX,
        ensures
            match id {
                Ok(id) => {
                    &&& !old(self)@.stopped
                    &&& id == old(self)@.last_msg_id + 1
                    &&& final(self)@ == (ConnView { last_msg_id: id, ..old(self)@ })
                },
                Err(e) => {
                    &&& old(self)@.stopped
                    &&& e@ == ErrorView::Protocol("realtime connection is closed"@)
                    &&& final(self)@ == old(self)@
                },
            },
    {
        if self.stopped {
            return Err(OverleafError::Protocol("realtime connection is closed".to_owned()));
        }
        self.last_msg_id = self.last_msg_id + 1;
        Ok(self.last_msg_id)
    }

    /// The tree of the project. Fails when the tree changed in a way that could
    /// not be tracked; the session should then be replaced.
    pub fn tree(&self) -> (tree: Result<ProjectTree>)
        ensures
            tree_result(tree) == current_tree(self@),
    {
        if self.tree_dirty {
            return Err(
                OverleafError::OutOfSync(
                    "project tree changed in a way that could not be tracked".to_owned(),
                ),
            );
        }
        match &self.tree {
            Some(tree) => Ok(tree.clone()),
            None => Err(OverleafError::Protocol("project tree not available".to_owned())),
        }
    }

    /// Takes in an entity that was created through the web interface.
    pub fn tree_apply_created(
        &mut self,
        parent_folder_id: &str,
        entity_id: String,
        name: String,
        kind: EntityKind,
    )
        ensures
            final(self)@ == with_tree(
                old(self)@,
                |tree: TreeView| with_node(tree, entity_id@, name@, kind, parent_folder_id@),
            ),
    {
        if let Some(tree) = &mut self.tree {
            tree.insert_node(entity_id, name, kind, parent_folder_id);
        }
    }

    /// Takes in that an entity was renamed through the web interface.
    pub fn tree_apply_renamed(&mut self, entity_id: &str, name: String)
        ensures
            final(self)@ == with_tree(
                old(self)@,
                |tree: TreeView| with_name(tree, entity_id@, name@),
            ),
    {
        if let Some(tree) = &mut self.tree {
            let _found = tree.rename_node(entity_id, name);
        }
    }

    /// Takes in that an entity was moved through the web interface.
    pub fn tree_apply_moved(&mut self, entity_id: &str, folder_id: &str)
        ensures
            final(self)@ == with_tree(
                old(self)@,
                |tree: TreeView| with_parent(tree, entity_id@, folder_id@),
            ),
    {
        if let Some(tree) = &mut self.tree {
            let _found = tree.reparent_node(entity_id, folder_id);
        }
    }
}

// --- reading a document --------------------------------------------------

/// The content and version of a document.
pub struct DocView {
    pub content: Seq<char>,
    pub version: int,
}

/// A document as plain values.
pub open spec fn doc_view(doc: (String, i64)) -> DocView {
    DocView { content: doc.0@, version: doc.1 as int }
}

/// An optional document as plain values.
pub open spec fn opt_doc(doc: Option<(String, i64)>) -> Option<DocView> {
    match doc {
        Some(doc) => Some(doc_view(doc)),
        None => None,
    }
}

/// A document, or the error in its place, as plain values.
pub open spec fn doc_result(res: Result<(String, i64)>) -> core::result::Result<
    DocView,
    ErrorView,
> {
    match res {
        Ok(doc) => Ok(doc_view(doc)),
        Err(e) => Err(e@),
    }
}

/// What a shadow holds.
pub open spec fn held(shadow: ShadowView) -> DocView {
    DocView { content: shadow.content, version: shadow.version }
}

/// The document as its shadow holds it, where that can be handed out: the
/// shadow is trusted, or an edit is in flight. In the latter case the state
/// before the edit is handed out, so that the edit is not disturbed.
pub open spec fn served(conn: ConnView, doc_id: Seq<char>) -> Option<DocView> {
    if conn.docs.contains_key(doc_id) && (!conn.docs[doc_id].dirty || conn.docs[doc_id].in_flight
        is Some) {
        Some(held(conn.docs[doc_id]))
    } else {
        None
    }
}

/// The document as a trusted shadow holds it.
pub open spec fn trusted(conn: ConnView, doc_id: Seq<char>) -> Option<DocView> {
    if conn.docs.contains_key(doc_id) && !conn.docs[doc_id].dirty {
        Some(held(conn.docs[doc_id]))
    } else {
        None
    }
}

/// The lines that came over the wire, where all of them are strings.
pub open spec fn wire_lines(items: Seq<JsonView>) -> Option<Seq<Seq<char>>>
    decreases items.len(),
{
    if items.len() == 0 {
        Some(Seq::empty())
    } else {
        match (wire_lines(items.drop_last()), text_of(items.last())) {
            (Some(lines), Some(raw)) => Some(lines.push(wire_decoded(raw))),
            _ => None,
        }
    }
}

/// The only kind of document that can be edited.
pub open spec fn text_ot() -> Seq<char> {
    "sharejs-text-ot"@
}

/// The kind of document that can only be read.
pub open spec fn history_ot() -> Seq<char> {
    "history-ot"@
}

/// The error for a kind of document that is not supported.
pub open spec fn unsupported(kind: Seq<char>) -> ErrorView {
    ErrorView::Protocol("doc uses OT type "@ + kind + "; only sharejs-text-ot is supported"@)
}

/// A document that was just joined.
#[derive(Debug)]
pub struct JoinedDoc {
    pub content: String,
    pub version: i64,
    pub read_only: bool,
}

/// A document that was just joined, as plain values.
pub struct JoinedView {
    pub doc: DocView,
    pub read_only: bool,
}

impl View for JoinedDoc {
    type V = JoinedView;

    open spec fn view(&self) -> JoinedView {
        JoinedView {
            doc: DocView { content: self.content@, version: self.version as int },
            read_only: self.read_only,
        }
    }
}

/// A document that was just joined, or the error in its place, as plain values.
pub open spec fn joined_result(res: Result<JoinedDoc>) -> core::result::Result<
    JoinedView,
    ErrorView,
> {
    match res {
        Ok(joined) => Ok(joined@),
        Err(e) => Err(e@),
    }
}

/// The kind of document that a `joinDoc` ack names.
pub open spec fn ot_type(args: Seq<ArgView>) -> Seq<char> {
    match text_arg(args, 5) {
        Some(kind) => kind,
        None => text_ot(),
    }
}

/// The document that a `joinDoc` ack brings.
pub open spec fn joined_doc(args: Seq<ArgView>) -> core::result::Result<JoinedView, ErrorView> {
    if args.len() > 0 && args[0].body != JsonView::Null {
        Err(ErrorView::Protocol("joinDoc rejected: "@ + args[0].text))
    } else if !(args.len() > 1 && args[1].body is Array) {
        Err(ErrorView::Protocol("joinDoc returned no lines"@))
    } else if !(args.len() > 2 && integer_of(args[2].body) is Some) {
        Err(ErrorView::Protocol("joinDoc returned no version"@))
    } else if ot_type(args) != text_ot() && ot_type(args) != history_ot() {
        Err(unsupported(ot_type(args)))
    } else {
        match wire_lines(args[1].body->Array_0) {
            Some(lines) => Ok(
                JoinedView {
                    doc: DocView {
                        content: joined(lines, "\n"@),
                        version: integer_of(args[2].body)->0,
                    },
                    read_only: ot_type(args) == history_ot(),
                },
            ),
            None => Err(ErrorView::Protocol("joinDoc line is not a string"@)),
        }
    }
}

/// The shadow of a document that was just joined. The operations on a document
/// that can only be read cannot be followed, so that it has to be fetched for
/// every reader.
pub open spec fn fresh_shadow(joined: JoinedView) -> ShadowView {
    ShadowView {
        content: joined.doc.content,
        version: joined.doc.version,
        dirty: joined.read_only,
        raced: false,
        in_flight: None,
        read_only: joined.read_only,
    }
}

/// A session after a document was joined.
pub open spec fn with_joined(conn: ConnView, doc_id: Seq<char>, joined: JoinedView) -> ConnView {
    ConnView { docs: conn.docs.insert(doc_id, fresh_shadow(joined)), ..conn }
}

/// A document that was just joined and can be edited is handed out as it came.
pub proof fn joined_doc_is_served(conn: ConnView, doc_id: Seq<char>, joined: JoinedView)
    requires
        !joined.read_only,
    ensures
        served(with_joined(conn, doc_id, joined), doc_id) == Some(joined.doc),
        trusted(with_joined(conn, doc_id, joined), doc_id) == Some(joined.doc),
{
}

fn decoded_lines(items: &Vec<Json>) -> (lines: Option<Vec<String>>)
    ensures
        match lines {
            Some(lines) => wire_lines(Seq::new(items@.len(), |i: int| items@[i]@)) == Some(
                texts(lines@),
            ),
            None => wire_lines(Seq::new(items@.len(), |i: int| items@[i]@)) is None,
        },
{
    let ghost shown = Seq::new(items@.len(), |i: int| items@[i]@);
    let mut lines: Vec<String> = Vec::new();
    let mut i: usize = 0;
    assert(shown.take(0) =~= Seq::<JsonView>::empty());
    assert(texts(lines@) =~= Seq::<Seq<char>>::empty());
    while i < items.len()
        invariant
            i <= items@.len(),
            shown == Seq::new(items@.len(), |j: int| items@[j]@),
            wire_lines(shown.take(i as int)) == Some(texts(lines@)),
        decreases items@.len() - i,
    {
        assert(shown.take(i + 1).drop_last() =~= shown.take(i as int));
        assert(shown.take(i + 1).last() == items@[i as int]@);
        let ghost before = texts(lines@);
        match items[i].as_str() {
            Some(raw) => {
                let line = DocShadow::decode_wire_line(raw.as_str());
                lines.push(line);
                assert(texts(lines@) =~= before.push(line@));
            },
            None => {
                proof {
                    lemma_bad_line(shown, i + 1);
                }
                return None;
            },
        }
        i += 1;
    }
    assert(shown.take(items@.len() as int) =~= shown);
    Some(lines)
}

proof fn lemma_bad_line(items: Seq<JsonView>, n: int)
    requires
        0 <= n <= items.len(),
        wire_lines(items.take(n)) is None,
    ensures
        wire_lines(items) is None,
    decreases items.len() - n,
{
    if n == items.len() {
        assert(items.take(n) =~= items);
    } else {
        assert(items.take(n + 1).drop_last() =~= items.take(n));
        lemma_bad_line(items, n + 1);
    }
}

fn unsupported_error(kind: &str) -> (error: OverleafError)
    ensures
        error@ == unsupported(kind@),
{
    let mut text = concat("doc uses OT type ", kind);
    text.append("; only sharejs-text-ot is supported");
    OverleafError::Protocol(text)
}

/// The document that a `joinDoc` ack brings.
pub fn read_joined_doc(args: &Vec<JsonArg>) -> (doc: Result<JoinedDoc>)
    ensures
        joined_result(doc) == joined_doc(arg_views(args@)),
{
    let ghost shown = arg_views(args@);
    let n: usize = args.len();
    if n > 0 && !args[0].body.is_null() {
        return Err(
            OverleafError::Protocol(concat("joinDoc rejected: ", args[0].text.as_str())),
        );
    }
    let items = if n > 1 {
        args[1].body.as_array()
    } else {
        None
    };
    let items = match items {
        Some(items) => items,
        None => {
            return Err(OverleafError::Protocol("joinDoc returned no lines".to_owned()));
        },
    };
    let version = if n > 2 {
        args[2].body.as_i64()
    } else {
        None
    };
    let version: i64 = match version {
        Some(version) => version,
        None => {
            return Err(OverleafError::Protocol("joinDoc returned no version".to_owned()));
        },
    };
    let kind = if n > 5 {
        args[5].body.as_str()
    } else {
        None
    };
    let kind = match kind {
        Some(kind) => kind,
        None => "sharejs-text-ot".to_owned(),
    };
    assert(kind@ == ot_type(shown));
    let read_only = same_text(kind.as_str(), "history-ot");
    if !read_only && !same_text(kind.as_str(), "sharejs-text-ot") {
        return Err(unsupported_error(kind.as_str()));
    }
    match decoded_lines(items) {
        Some(lines) => Ok(JoinedDoc { content: join(&lines, "\n"), version, read_only }),
        None => Err(OverleafError::Protocol("joinDoc line is not a string".to_owned())),
    }
}

impl ProjectConnection {
    /// The content and version of a document, where its shadow can be handed
    /// out; otherwise it has to be joined.
    pub fn read_doc(&self, doc_id: &str) -> (doc: Option<(String, i64)>)
        ensures
            opt_doc(doc) == served(self@, doc_id@),
    {
        match self.docs.get(doc_id) {
            Some(shadow) => if !shadow.dirty || shadow.in_flight.is_some() {
                Some((shadow.content.clone(), shadow.version))
            } else {
                None
            },
            None => None,
        }
    }

    /// The content and version of a document that was joined meanwhile.
    pub fn joined_meanwhile(&self, doc_id: &str) -> (doc: Option<(String, i64)>)
        ensures
            opt_doc(doc) == trusted(self@, doc_id@),
    {
        match self.docs.get(doc_id) {
            Some(shadow) => if !shadow.dirty {
                Some((shadow.content.clone(), shadow.version))
            } else {
                None
            },
            None => None,
        }
    }

    /// Takes in the ack to `joinDoc`. An edit that was in flight on an older
    /// shadow fails.
    pub fn join_doc(
        &mut self,
        doc_id: &str,
        args: &Vec<JsonArg>,
        settled: &mut Vec<Settled>,
    ) -> (doc: Result<(String, i64)>)
        ensures
            match joined_doc(arg_views(args@)) {
                Ok(read) => {
                    &&& doc_result(doc) == Ok::<DocView, ErrorView>(read.doc)
                    &&& final(self)@ == with_joined(old(self)@, doc_id@, read)
                    &&& settled_views(final(settled)@) == settled_views(old(settled)@) + (
                    if old(self)@.docs.contains_key(doc_id@) {
                        failure(old(self)@.docs[doc_id@], "document was re-joined"@)
                    } else {
                        Seq::empty()
                    })
                },
                Err(e) => {
                    &&& doc_result(doc) == Err::<DocView, ErrorView>(e)
                    &&& final(self)@ == old(self)@
                    &&& settled_views(final(settled)@) == settled_views(old(settled)@)
                },
            },
    {
        let joined = match read_joined_doc(args) {
            Ok(joined) => joined,
            Err(e) => {
                return Err(e);
            },
        };
        let ghost before = self@;
        let ghost notices = settled_views(settled@);
        match self.docs.remove(doc_id) {
            Some(mut previous) => {
                previous.fail_in_flight("document was re-joined", settled);
            },
            None => {
                assert(notices + Seq::<SettledView>::empty() =~= notices);
            },
        }
        let mut shadow = DocShadow::joined(joined.content.clone(), joined.version);
        shadow.dirty = joined.read_only;
        shadow.read_only = joined.read_only;
        self.docs.insert(doc_id.to_owned(), shadow);
        assert(self.docs@ =~= with_joined(before, doc_id@, joined@).docs);
        Ok((joined.content, joined.version))
    }
}

// --- editing a document --------------------------------------------------

/// The end of a successful edit.
#[derive(Debug)]
pub struct EditOutcome {
    pub content: String,
    pub version: i64,
    pub changed: bool,
}

/// The end of a successful edit, as plain values.
pub struct OutcomeView {
    pub content: Seq<char>,
    pub version: int,
    pub changed: bool,
}

impl View for EditOutcome {
    type V = OutcomeView;

    open spec fn view(&self) -> OutcomeView {
        OutcomeView {
            content: self.content@,
            version: self.version as int,
            changed: self.changed,
        }
    }
}

/// One edit of a document, from the first reading to its confirmation. When
/// another edit comes in between, the document is read and the operation is
/// made anew, up to `retries` times.
#[derive(Debug)]
pub struct EditSession {
    pub doc_id: String,
    pub retries: u32,
    /// How many attempts failed so far.
    pub attempt: u32,
    /// The operation that was submitted last.
    pub ops: Vec<OtComponent>,
    /// The version for which it was made.
    pub version: i64,
}

/// An edit as plain values.
pub struct SessionView {
    pub doc_id: Seq<char>,
    pub retries: u32,
    pub attempt: u32,
    pub ops: Seq<ComponentView>,
    pub version: int,
}

impl View for EditSession {
    type V = SessionView;

    open spec fn view(&self) -> SessionView {
        SessionView {
            doc_id: self.doc_id@,
            retries: self.retries,
            attempt: self.attempt,
            ops: component_views(self.ops@),
            version: self.version as int,
        }
    }
}

/// What an edit needs next.
#[derive(Debug)]
pub enum EditStep {
    /// Read the document and make the operation.
    Read,
    /// Submit the operation and wait for the reply.
    Submit(OtUpdate),
    /// Wait for the confirmation.
    Confirm,
    Done(EditOutcome),
    Fail(OverleafError),
}

/// What an edit needs next, as plain values.
pub enum StepView {
    Read,
    Submit(UpdateView),
    Confirm,
    Done(OutcomeView),
    Fail(ErrorView),
}

impl View for EditStep {
    type V = StepView;

    open spec fn view(&self) -> StepView {
        match *self {
            EditStep::Read => StepView::Read,
            EditStep::Submit(update) => StepView::Submit(update@),
            EditStep::Confirm => StepView::Confirm,
            EditStep::Done(outcome) => StepView::Done(outcome@),
            EditStep::Fail(e) => StepView::Fail(e@),
        }
    }
}

/// How waiting for the confirmation of an edit ended.
#[derive(Debug)]
pub enum Settlement {
    TimedOut,
    /// Nobody will send the confirmation any more.
    Lost,
    Failed(String),
    /// The server applied the edit at this version.
    Applied(i64),
}

/// An edit with its session after something happened, and what is next.
pub struct EditState {
    pub conn: ConnView,
    pub edit: SessionView,
    pub step: StepView,
}

/// An edit that just begins.
pub open spec fn edit_begun(doc_id: Seq<char>, retries: u32) -> SessionView {
    SessionView { doc_id, retries, attempt: 0, ops: Seq::empty(), version: 0 }
}

/// An attempt failed: try again, or give up with the error of this attempt.
pub open spec fn next_attempt(edit: SessionView, error: ErrorView) -> (SessionView, StepView) {
    if edit.attempt < edit.retries {
        (SessionView { attempt: (edit.attempt + 1) as u32, ..edit }, StepView::Read)
    } else {
        (edit, StepView::Fail(error))
    }
}

/// An edit after a failed attempt.
pub open spec fn tried(conn: ConnView, edit: SessionView, error: ErrorView) -> EditState {
    let next = next_attempt(edit, error);
    EditState { conn, edit: next.0, step: next.1 }
}

/// A session in which nothing is in flight on a document, and the document has
/// to be read anew.
pub open spec fn flight_cleared(conn: ConnView, doc_id: Seq<char>) -> ConnView {
    if conn.docs.contains_key(doc_id) {
        ConnView {
            docs: conn.docs.insert(
                doc_id,
                ShadowView { in_flight: None, dirty: true, ..conn.docs[doc_id] },
            ),
            ..conn
        }
    } else {
        conn
    }
}

/// The shadow of a document with an edit on its way.
pub open spec fn departing(shadow: ShadowView, ticket: u64) -> ShadowView {
    ShadowView { raced: false, in_flight: Some(ticket), ..shadow }
}

/// The error for a document that is gone.
pub open spec fn shadow_gone() -> ErrorView {
    ErrorView::Protocol("doc shadow disappeared during edit"@)
}

/// Whether a document can be read but not edited.
pub open spec fn only_read(conn: ConnView, doc_id: Seq<char>) -> bool {
    conn.docs.contains_key(doc_id) && conn.docs[doc_id].read_only
}

/// An edit after the document was read and the operation made. A document that
/// can only be read is not edited.
pub open spec fn planned(
    conn: ConnView,
    edit: SessionView,
    doc: DocView,
    ops: core::result::Result<Seq<ComponentView>, ErrorView>,
    ticket: u64,
) -> EditState {
    if only_read(conn, edit.doc_id) {
        EditState { conn, edit, step: StepView::Fail(unsupported(history_ot())) }
    } else {
        match ops {
            Err(e) => EditState { conn, edit, step: StepView::Fail(e) },
            Ok(ops) => if ops.len() == 0 {
                EditState {
                    conn,
                    edit,
                    step: StepView::Done(
                        OutcomeView { content: doc.content, version: doc.version, changed: false },
                    ),
                }
            } else if !conn.docs.contains_key(edit.doc_id) {
                EditState { conn, edit, step: StepView::Fail(shadow_gone()) }
            } else {
                EditState {
                    conn: ConnView {
                        docs: conn.docs.insert(
                            edit.doc_id,
                            departing(conn.docs[edit.doc_id], ticket),
                        ),
                        ..conn
                    },
                    edit: SessionView { ops, version: doc.version, ..edit },
                    step: StepView::Submit(
                        UpdateView { doc: edit.doc_id, op: ops, v: doc.version },
                    ),
                }
            },
        }
    }
}

/// The notice for an older edit that a new one replaces.
pub open spec fn superseded(
    conn: ConnView,
    edit: SessionView,
    ops: core::result::Result<Seq<ComponentView>, ErrorView>,
) -> Seq<SettledView> {
    if ops is Ok && ops->Ok_0.len() > 0 && conn.docs.contains_key(edit.doc_id)
        && !conn.docs[edit.doc_id].read_only {
        failure(conn.docs[edit.doc_id], "superseded by a new edit"@)
    } else {
        Seq::empty()
    }
}

/// An edit after the reply to its submission. A refusal is final; when no
/// reply came, the edit is tried again.
pub open spec fn replied(
    conn: ConnView,
    edit: SessionView,
    reply: core::result::Result<Seq<ArgView>, ErrorView>,
) -> EditState {
    match reply {
        Ok(args) => if args.len() > 0 && args[0].body != JsonView::Null {
            EditState {
                conn: flight_cleared(conn, edit.doc_id),
                edit,
                step: StepView::Fail(
                    ErrorView::Edit("server rejected update: "@ + args[0].text),
                ),
            }
        } else {
            EditState { conn, edit, step: StepView::Confirm }
        },
        Err(e) => tried(flight_cleared(conn, edit.doc_id), edit, e),
    }
}

/// An edit that the server applied at version `v`. It is replayed on the
/// shadow, unless another edit came in between.
pub open spec fn confirmed(conn: ConnView, edit: SessionView, v: int) -> EditState {
    if !conn.docs.contains_key(edit.doc_id) {
        EditState { conn, edit, step: StepView::Fail(shadow_gone()) }
    } else {
        let shadow = conn.docs[edit.doc_id];
        let replay = replayed(shadow.content, edit.ops);
        if shadow.raced || v != edit.version {
            tried(
                ConnView {
                    docs: conn.docs.insert(edit.doc_id, ShadowView { dirty: true, ..shadow }),
                    ..conn
                },
                edit,
                ErrorView::OutOfSync("a concurrent edit was interleaved"@),
            )
        } else if !replay.complete {
            tried(
                ConnView {
                    docs: conn.docs.insert(
                        edit.doc_id,
                        ShadowView { content: replay.content, dirty: true, ..shadow },
                    ),
                    ..conn
                },
                edit,
                ErrorView::OutOfSync("local replay of confirmed op failed"@),
            )
        } else {
            EditState {
                conn: ConnView {
                    docs: conn.docs.insert(
                        edit.doc_id,
                        ShadowView { content: replay.content, version: v + 1, ..shadow },
                    ),
                    ..conn
                },
                edit,
                step: StepView::Done(
                    OutcomeView { content: replay.content, version: v + 1, changed: true },
                ),
            }
        }
    }
}

/// An edit after waiting for its confirmation.
pub open spec fn concluded(conn: ConnView, edit: SessionView, end: Settlement) -> EditState {
    match end {
        Settlement::TimedOut => tried(
            flight_cleared(conn, edit.doc_id),
            edit,
            ErrorView::Timeout("op sent but not confirmed; doc will be resynced"@),
        ),
        Settlement::Lost => EditState {
            conn,
            edit,
            step: StepView::Fail(ErrorView::Protocol("realtime connection lost mid-edit"@)),
        },
        Settlement::Failed(reason) => tried(conn, edit, ErrorView::Edit(reason@)),
        Settlement::Applied(v) => confirmed(conn, edit, v as int),
    }
}

/// Where a confirmed edit comes to its end, the version behind it fits into the
/// machine's integers.
pub open spec fn can_conclude(conn: ConnView, edit: SessionView, end: Settlement) -> bool {
    match end {
        Settlement::Applied(v) => confirmed(conn, edit, v as int).step is Done ==> v < i64::MAX,
        _ => true,
    }
}

/// An operation, or the error in its place, as plain values.
pub open spec fn ops_result(res: Result<Vec<OtComponent>>) -> core::result::Result<
    Seq<ComponentView>,
    ErrorView,
> {
    match res {
        Ok(ops) => Ok(component_views(ops@)),
        Err(e) => Err(e@),
    }
}

impl ProjectConnection {
    /// Forgets the edit in flight on a document, which then has to be read
    /// anew.
    pub fn clear_in_flight(&mut self, doc_id: &str)
        ensures
            final(self)@ == flight_cleared(old(self)@, doc_id@),
    {
        let ghost before = self@;
        match self.docs.remove(doc_id) {
            Some(mut shadow) => {
                shadow.in_flight = None;
                shadow.dirty = true;
                self.docs.insert(doc_id.to_owned(), shadow);
                assert(self.docs@ =~= flight_cleared(before, doc_id@).docs);
            },
            None => {
                assert(self.docs@ =~= before.docs);
            },
        }
    }
}

impl EditSession {
    /// Begins an edit.
    pub fn begin(doc_id: &str, retries: u32) -> (edit: Self)
        ensures
            edit@ == edit_begun(doc_id@, retries),
    {
        let edit = EditSession {
            doc_id: doc_id.to_owned(),
            retries,
            attempt: 0,
            ops: Vec::new(),
            version: 0,
        };
        assert(component_views(edit.ops@) =~= Seq::<ComponentView>::empty());
        edit
    }

    /// Tries again, or gives up.
    fn try_again(&mut self, error: OverleafError) -> (step: EditStep)
        ensures
            (final(self)@, step@) == next_attempt(old(self)@, error@),
    {
        if self.attempt < self.retries {
            self.attempt = self.attempt + 1;
            EditStep::Read
        } else {
            EditStep::Fail(error)
        }
    }

    /// Takes in the operation that was made for the document as it was read.
    /// `ticket` stands for the wait for the confirmation.
    pub fn on_planned(
        &mut self,
        conn: &mut ProjectConnection,
        content: String,
        version: i64,
        ops: Result<Vec<OtComponent>>,
        ticket: u64,
        settled: &mut Vec<Settled>,
    ) -> (step: EditStep)
        ensures
            (EditState { conn: final(conn)@, edit: final(self)@, step: step@ }) == planned(
                old(conn)@,
                old(self)@,
                DocView { content: content@, version: version as int },
                ops_result(ops),
                ticket,
            ),
            settled_views(final(settled)@) == settled_views(old(settled)@) + superseded(
                old(conn)@,
                old(self)@,
                ops_result(ops),
            ),
    {
        let ghost notices = settled_views(settled@);
        assert(notices + Seq::<SettledView>::empty() =~= notices);
        let read_only = match conn.docs.get(self.doc_id.as_str()) {
            Some(shadow) => shadow.read_only,
            None => false,
        };
        if read_only {
            return EditStep::Fail(unsupported_error("history-ot"));
        }
        let ops = match ops {
            Ok(ops) => ops,
            Err(e) => {
                return EditStep::Fail(e);
            },
        };
        if ops.len() == 0 {
            return EditStep::Done(EditOutcome { content, version, changed: false });
        }
        let ghost before = conn@;
        match conn.docs.remove(self.doc_id.as_str()) {
            Some(mut shadow) => {
                shadow.fail_in_flight("superseded by a new edit", settled);
                shadow.raced = false;
                shadow.in_flight = Some(ticket);
                conn.docs.insert(self.doc_id.clone(), shadow);
            },
            None => {
                assert(conn.docs@ =~= before.docs);
                return EditStep::Fail(
                    OverleafError::Protocol("doc shadow disappeared during edit".to_owned()),
                );
            },
        }
        let op = clone_ops(&ops);
        self.ops = ops;
        self.version = version;
        assert(conn.docs@ =~= before.docs.insert(
            self.doc_id@,
            departing(before.docs[self.doc_id@], ticket),
        ));
        EditStep::Submit(OtUpdate { doc: self.doc_id.clone(), op, v: version })
    }

    /// Takes in the reply to the submission.
    pub fn on_reply(
        &mut self,
        conn: &mut ProjectConnection,
        reply: Result<Vec<JsonArg>>,
    ) -> (step: EditStep)
        ensures
            (EditState { conn: final(conn)@, edit: final(self)@, step: step@ }) == replied(
                old(conn)@,
                old(self)@,
                args_result(reply),
            ),
    {
        match reply {
            Ok(args) => if args.len() > 0 && !args[0].body.is_null() {
                conn.clear_in_flight(self.doc_id.as_str());
                EditStep::Fail(
                    OverleafError::Edit(concat("server rejected update: ", args[0].text.as_str())),
                )
            } else {
                EditStep::Confirm
            },
            Err(e) => {
                conn.clear_in_flight(self.doc_id.as_str());
                self.try_again(e)
            },
        }
    }

    /// Takes in how waiting for the confirmation ended.
    pub fn on_settled(&mut self, conn: &mut ProjectConnection, end: Settlement) -> (step: EditStep)
        requires
            can_conclude(old(conn)@, old(self)@, end),
        ensures
            (EditState { conn: final(conn)@, edit: final(self)@, step: step@ }) == concluded(
                old(conn)@,
                old(self)@,
                end,
            ),
    {
        match end {
            Settlement::TimedOut => {
                conn.clear_in_flight(self.doc_id.as_str());
                self.try_again(
                    OverleafError::Timeout(
                        "op sent but not confirmed; doc will be resynced".to_owned(),
                    ),
                )
            },
            Settlement::Lost => EditStep::Fail(
                OverleafError::Protocol("realtime connection lost mid-edit".to_owned()),
            ),
            Settlement::Failed(reason) => self.try_again(OverleafError::Edit(reason)),
            Settlement::Applied(v) => self.on_applied(conn, v),
        }
    }

    /// Takes in that the server applied the edit.
    fn on_applied(&mut self, conn: &mut ProjectConnection, v: i64) -> (step: EditStep)
        requires
            confirmed(old(conn)@, old(self)@, v as int).step is Done ==> v < i64::MAX,
        ensures
            (EditState { conn: final(conn)@, edit: final(self)@, step: step@ }) == confirmed(
                old(conn)@,
                old(self)@,
                v as int,
            ),
    {
        let ghost before = conn@;
        let ghost edit = self@;
        let mut shadow = match conn.docs.remove(self.doc_id.as_str()) {
            Some(shadow) => shadow,
            None => {
                assert(conn.docs@ =~= before.docs);
                return EditStep::Fail(
                    OverleafError::Protocol("doc shadow disappeared during edit".to_owned()),
                );
            },
        };
        let step = if shadow.raced || v != self.version {
            shadow.dirty = true;
            self.try_again(OverleafError::OutOfSync("a concurrent edit was interleaved".to_owned()))
        } else if !shadow.replay(&self.ops) {
            shadow.dirty = true;
            self.try_again(
                OverleafError::OutOfSync("local replay of confirmed op failed".to_owned()),
            )
        } else {
            shadow.version = v + 1;
            EditStep::Done(
                EditOutcome {
                    content: shadow.content.clone(),
                    version: shadow.version,
                    changed: true,
                },
            )
        };
        let ghost now = shadow@;
        conn.docs.insert(self.doc_id.clone(), shadow);
        proof {
            assert(conn.docs@ =~= before.docs.insert(edit.doc_id, now));
        }
        step
    }
}

// --- what every edit keeps -----------------------------------------------

/// A document of the kind that can only be read is brought by `joinDoc` like any
/// other, is fetched anew for every reader, and refuses every edit.
pub proof fn history_docs_are_read_but_not_edited(
    conn: ConnView,
    args: Seq<ArgView>,
    edit: SessionView,
    doc: DocView,
    ops: core::result::Result<Seq<ComponentView>, ErrorView>,
    ticket: u64,
)
    requires
        ot_type(args) == history_ot(),
        joined_doc(args) is Ok,
    ensures
        ({
            let found = joined_doc(args)->Ok_0;
            let after = with_joined(conn, edit.doc_id, found);
            &&& wire_lines(args[1].body->Array_0) matches Some(lines) && found.doc.content
                == joined(lines, "\n"@)
            &&& served(after, edit.doc_id) is None
            &&& planned(after, edit, doc, ops, ticket).step == StepView::Fail(
                unsupported(history_ot()),
            )
        }),
{
}

/// However an attempt ends, no more than `retries` further ones follow.
pub proof fn attempts_are_bounded(conn: ConnView, edit: SessionView, error: ErrorView)
    requires
        edit.attempt <= edit.retries,
    ensures
        tried(conn, edit, error).edit.attempt <= edit.retries,
        tried(conn, edit, error).step is Read ==> tried(conn, edit, error).edit.attempt
            == edit.attempt + 1,
        edit.attempt == edit.retries ==> tried(conn, edit, error).step == StepView::Fail(error),
{
}

/// When another edit came in between, the document is not handed out again
/// before it was joined anew.
pub proof fn interleaved_edit_forces_a_new_reading(conn: ConnView, edit: SessionView, v: int)
    requires
        conn.docs.contains_key(edit.doc_id),
        conn.docs[edit.doc_id].in_flight is None,
        conn.docs[edit.doc_id].raced || v != edit.version,
    ensures
        served(confirmed(conn, edit, v).conn, edit.doc_id) is None,
        !(confirmed(conn, edit, v).step is Done),
{
}

/// The operation of another client that arrives while an edit is in flight
/// makes the edit count as interleaved.
pub proof fn remote_operation_races_the_edit(conn: ConnView, update: AppliedView)
    requires
        conn.docs.contains_key(update.doc),
        conn.docs[update.doc].in_flight is Some,
        update.op is Some,
    ensures
        updated(conn, update).conn.docs[update.doc].raced,
        updated(conn, update).conn.docs[update.doc].in_flight
            == conn.docs[update.doc].in_flight,
{
}

/// A confirmed edit that nothing interleaved gives the document with the
/// planned replacements, at the next version, to the caller and to all later
/// readers.
pub proof fn confirmed_edit_makes_the_replacements(
    conn: ConnView,
    edit: SessionView,
    edits: Seq<EditView>,
)
    requires
        conn.docs.contains_key(edit.doc_id),
        !conn.docs[edit.doc_id].raced,
        !conn.docs[edit.doc_id].dirty,
        valid_edits(conn.docs[edit.doc_id].content, edits),
        positions_fit(conn.docs[edit.doc_id].content, edits),
        edit.ops == script(conn.docs[edit.doc_id].content, edits),
    ensures
        ({
            let content = spliced(conn.docs[edit.doc_id].content, edits);
            let end = confirmed(conn, edit, edit.version);
            &&& end.step == StepView::Done(
                OutcomeView { content, version: edit.version + 1, changed: true },
            )
            &&& served(end.conn, edit.doc_id) == Some(
                DocView { content, version: edit.version + 1 },
            )
        }),
{
    script_makes_the_replacements(conn.docs[edit.doc_id].content, edits);
}

/// A confirmed overwrite that nothing interleaved leaves the document with
/// exactly the wanted content.
pub proof fn confirmed_overwrite_gives_the_target(
    conn: ConnView,
    edit: SessionView,
    target: Seq<char>,
)
    requires
        conn.docs.contains_key(edit.doc_id),
        !conn.docs[edit.doc_id].raced,
        !conn.docs[edit.doc_id].dirty,
        utf16_size(conn.docs[edit.doc_id].content) <= u64::MAX,
        edit.ops == overwrite_ops(conn.docs[edit.doc_id].content, target),
    ensures
        confirmed(conn, edit, edit.version).step == StepView::Done(
            OutcomeView { content: target, version: edit.version + 1, changed: true },
        ),
        served(confirmed(conn, edit, edit.version).conn, edit.doc_id) == Some(
            DocView { content: target, version: edit.version + 1 },
        ),
{
    overwrite_ops_give_the_target(conn.docs[edit.doc_id].content, target);
}

/// A confirmed replacement of a string that nothing interleaved leaves the
/// document with every occurrence replaced and nothing else changed, as long as
/// all positions fit in 64 bits.
pub proof fn confirmed_replacement_replaces_the_string(
    conn: ConnView,
    edit: SessionView,
    old: Seq<char>,
    new: Seq<char>,
)
    requires
        conn.docs.contains_key(edit.doc_id),
        !conn.docs[edit.doc_id].raced,
        !conn.docs[edit.doc_id].dirty,
        old.len() > 0,
        utf16_size(conn.docs[edit.doc_id].content) + match_starts(
            conn.docs[edit.doc_id].content,
            old,
            0,
        ).len() * utf16_size(new) <= u64::MAX,
        edit.ops == replacement_script(conn.docs[edit.doc_id].content, old, new),
    ensures
        ({
            let content = with_replaced(conn.docs[edit.doc_id].content, old, new, 0);
            let end = confirmed(conn, edit, edit.version);
            &&& end.step == StepView::Done(
                OutcomeView { content, version: edit.version + 1, changed: true },
            )
            &&& served(end.conn, edit.doc_id) == Some(
                DocView { content, version: edit.version + 1 },
            )
        }),
{
    planned_edit_replaces_the_string(conn.docs[edit.doc_id].content, old, new);
}

/// The arguments of a `joinDoc` ack for a document: no error, its lines in the
/// form in which they travel, its version.
pub open spec fn joined_args(args: Seq<ArgView>, content: Seq<char>, version: int) -> bool {
    let lines = split_on(content, '\n');
    &&& args.len() > 2
    &&& args[0].body == JsonView::Null
    &&& args[1].body == JsonView::Array(
        Seq::new(lines.len(), |i: int| JsonView::Text(wire_encoded(lines[i]))),
    )
    &&& args[2].body == JsonView::Integer(version)
}

/// A document is joined as the server holds it: its text, character for
/// character, and its version. Whether it can be edited goes by the kind that
/// the server names, and an ack without a kind means that it can.
pub proof fn document_is_joined_as_it_is(args: Seq<ArgView>, content: Seq<char>, version: int)
    requires
        joined_args(args, content, version),
    ensures
        args.len() <= 5 ==> joined_doc(args) == Ok::<JoinedView, ErrorView>(
            JoinedView { doc: DocView { content, version }, read_only: false },
        ),
        args.len() > 5 && args[5].body == JsonView::Text("sharejs-text-ot"@) ==> joined_doc(args)
            == Ok::<JoinedView, ErrorView>(
            JoinedView { doc: DocView { content, version }, read_only: false },
        ),
        args.len() > 5 && args[5].body == JsonView::Text("history-ot"@) ==> joined_doc(args)
            == Ok::<JoinedView, ErrorView>(
            JoinedView { doc: DocView { content, version }, read_only: true },
        ),
        joined_doc(args) matches Ok(joined) ==> joined.doc == (DocView { content, version }),
{
    let lines = split_on(content, '\n');
    let items = Seq::new(lines.len(), |i: int| JsonView::Text(wire_encoded(lines[i])));
    lemma_lines_come_over(lines, items);
    reveal_strlit("\n");
    assert("\n"@ =~= seq!['\n']);
    join_restores_split(content, '\n');
    reveal_strlit("sharejs-text-ot");
    reveal_strlit("history-ot");
    assert(text_ot()[0] == 's' && history_ot()[0] == 'h');
}

proof fn lemma_lines_come_over(lines: Seq<Seq<char>>, items: Seq<JsonView>)
    requires
        items.len() == lines.len(),
        forall|i: int|
            0 <= i < items.len() ==> #[trigger] items[i] == JsonView::Text(wire_encoded(lines[i])),
    ensures
        wire_lines(items) == Some(lines),
    decreases items.len(),
{
    if items.len() > 0 {
        let short = items.drop_last();
        assert forall|i: int| 0 <= i < short.len() implies #[trigger] short[i]
            == JsonView::Text(wire_encoded(lines.drop_last()[i])) by {
            assert(short[i] == items[i]);
        }
        lemma_lines_come_over(lines.drop_last(), short);
        wire_decoding_undoes_encoding(lines.last());
        assert(items.last() == items[items.len() - 1]);
        assert(lines.drop_last().push(lines.last()) =~= lines);
    } else {
        assert(lines =~= Seq::<Seq<char>>::empty());
    }
}

/// An ack whose first argument is not null refuses the document, one whose
/// lines are no list or whose version is no integer brings none.
pub proof fn refused_document_is_not_joined(args: Seq<ArgView>)
    ensures
        args.len() > 0 && args[0].body != JsonView::Null ==> joined_doc(args) is Err,
        args.len() < 3 ==> joined_doc(args) is Err,
        args.len() > 1 && !(args[1].body is Array) ==> joined_doc(args) is Err,
        args.len() > 2 && !(args[2].body is Integer) ==> joined_doc(args) is Err,
{
}

/// What goes to the server is the operation that was made, for the document
/// that is edited, at the version that was read, and only where there is
/// something to change. Until it is settled the shadow keeps what it holds, and
/// no other document is touched.
pub proof fn operation_is_sent_as_it_was_made(
    conn: ConnView,
    edit: SessionView,
    doc: DocView,
    ops: Seq<ComponentView>,
    ticket: u64,
    other: Seq<char>,
)
    requires
        conn.docs.contains_key(edit.doc_id),
        !conn.docs[edit.doc_id].read_only,
    ensures
        ({
            let next = planned(conn, edit, doc, Ok(ops), ticket);
            let shadow = next.conn.docs[edit.doc_id];
            &&& ops.len() > 0 ==> next.step == StepView::Submit(
                UpdateView { doc: edit.doc_id, op: ops, v: doc.version },
            )
            &&& ops.len() > 0 ==> shadow.in_flight == Some(ticket) && !shadow.raced
            &&& ops.len() == 0 ==> next.conn == conn && next.step == StepView::Done(
                OutcomeView { content: doc.content, version: doc.version, changed: false },
            )
            &&& held(shadow) == held(conn.docs[edit.doc_id])
            &&& shadow.dirty == conn.docs[edit.doc_id].dirty
            &&& other != edit.doc_id ==> (next.conn.docs.contains_key(other)
                <==> conn.docs.contains_key(other)) && next.conn.docs[other] == conn.docs[other]
            &&& next.conn.tree == conn.tree
            &&& next.edit.attempt == edit.attempt && next.edit.retries == edit.retries
        }),
{
}

/// An edit that nothing interleaves with leaves the document as the operation
/// makes it, one version on, and the shadow holds just that.
pub proof fn undisturbed_edit_takes_hold(
    conn: ConnView,
    edit: SessionView,
    doc: DocView,
    ops: Seq<ComponentView>,
    ticket: u64,
)
    requires
        conn.docs.contains_key(edit.doc_id),
        !conn.docs[edit.doc_id].read_only,
        !conn.docs[edit.doc_id].dirty,
        held(conn.docs[edit.doc_id]) == doc,
        ops.len() > 0,
        replayed(doc.content, ops).complete,
    ensures
        ({
            let sent = planned(conn, edit, doc, Ok(ops), ticket);
            let acked = updated(
                sent.conn,
                AppliedView { doc: edit.doc_id, op: None, v: doc.version },
            );
            let done = confirmed(acked.conn, sent.edit, doc.version);
            let content = replayed(doc.content, ops).content;
            &&& acked.settled == seq![SettledView { ticket, outcome: Ok(doc.version) }]
            &&& done.step == StepView::Done(
                OutcomeView { content, version: doc.version + 1, changed: true },
            )
            &&& trusted(done.conn, edit.doc_id) == Some(
                DocView { content, version: doc.version + 1 },
            )
            &&& done.conn.docs[edit.doc_id].in_flight is None
        }),
{
}

/// A reply whose first argument is not null refuses the edit for good, with
/// what the server said; without a reply, or without a confirmation, the edit
/// is tried again while attempts are left. In each case the document has to be
/// read anew.
pub proof fn unsettled_edit_casts_doubt_on_the_document(
    conn: ConnView,
    edit: SessionView,
    args: Seq<ArgView>,
    error: ErrorView,
)
    requires
        conn.docs.contains_key(edit.doc_id),
    ensures
        args.len() > 0 && args[0].body != JsonView::Null ==> ({
            let next = replied(conn, edit, Ok(args));
            &&& next.step matches StepView::Fail(ErrorView::Edit(text)) && text
                == "server rejected update: "@ + args[0].text
            &&& trusted(next.conn, edit.doc_id) is None
            &&& next.conn.docs[edit.doc_id].in_flight is None
        }),
        args.len() == 0 || args[0].body == JsonView::Null ==> replied(conn, edit, Ok(args))
            == (EditState { conn, edit, step: StepView::Confirm }),
        ({
            let next = replied(conn, edit, Err(error));
            &&& trusted(next.conn, edit.doc_id) is None
            &&& next.step == if edit.attempt < edit.retries {
                StepView::Read
            } else {
                StepView::Fail(error)
            }
        }),
        ({
            let next = concluded(conn, edit, Settlement::TimedOut);
            &&& trusted(next.conn, edit.doc_id) is None
            &&& edit.attempt < edit.retries ==> next.step == StepView::Read
            &&& edit.attempt >= edit.retries ==> next.step matches StepView::Fail(
                ErrorView::Timeout(_),
            )
        }),
        concluded(conn, edit, Settlement::Lost).step is Fail,
{
}

/// A session can be used from when its project was joined until it ends.
pub proof fn session_is_usable_between_joining_and_end(
    conn: ConnView,
    project_id: Seq<char>,
    settings: RealtimeSettings,
    reason: Seq<char>,
)
    ensures
        !alive(opened(project_id, settings)),
        current_tree(opened(project_id, settings)) is Err,
        !conn.stopped && conn.phase == PhaseView::Ready ==> alive(conn),
        !alive(closed(conn, reason).conn),
        !conn.tree_dirty && conn.tree is Some ==> current_tree(conn) == Ok::<TreeView, ErrorView>(
            conn.tree->0,
        ),
        conn.tree_dirty ==> current_tree(conn) matches Err(ErrorView::OutOfSync(_)),
{
}

/// What is changed through the web interface ends up in the tree just as it
/// would when others had changed it.
pub proof fn own_changes_are_taken_in_like_those_of_others(
    conn: ConnView,
    payload: PayloadView,
    decoded: Decoded,
    id: Seq<char>,
    value: Seq<char>,
)
    requires
        conn.tree is Some,
        conn.tree->0.nodes.contains_key(id),
        text_arg(payload.args, 0) == Some(id),
        text_arg(payload.args, 1) == Some(value),
    ensures
        payload.name == "reciveEntityRename"@ ==> after_event(conn, payload, decoded).conn
            == with_tree(conn, |tree: TreeView| with_name(tree, id, value)),
        payload.name == "reciveEntityMove"@ ==> after_event(conn, payload, decoded).conn
            == with_tree(conn, |tree: TreeView| with_parent(tree, id, value)),
{
    lemma_tree_event_names_differ(payload.name);
}

/// An ack hands on its arguments, a session that is ready lets its user go on,
/// and whatever ends a wait otherwise is an error that says why.
pub proof fn waits_end_with_what_came(
    args: Vec<JsonArg>,
    name: Seq<char>,
    reason: String,
)
    ensures
        ack_verdict(name, AckWait::Args(args)) == Ok::<Seq<ArgView>, ErrorView>(
            Seq::new(args@.len(), |i: int| args@[i]@),
        ),
        ack_verdict(name, AckWait::TimedOut) matches Err(ErrorView::Timeout(text)) && text
            == "no ack for "@ + name,
        ack_verdict(name, AckWait::Lost) matches Err(ErrorView::Protocol(_)),
        ready_verdict(ReadyWait::Ready) is Ok,
        ready_verdict(ReadyWait::Dead(reason)) == Err::<(), ErrorView>(
            ErrorView::Protocol(reason@),
        ),
        ready_verdict(ReadyWait::TaskGone) matches Err(ErrorView::Protocol(_)),
        ready_verdict(ReadyWait::TimedOut) matches Err(ErrorView::Timeout(_)),
{
}

/// An edit begins with its first attempt, and a new edit of a document ends the
/// one that is still in flight on it.
pub proof fn new_edit_ends_the_one_in_flight(
    conn: ConnView,
    edit: SessionView,
    ops: Seq<ComponentView>,
    ticket: u64,
    doc_id: Seq<char>,
    retries: u32,
)
    requires
        conn.docs.contains_key(edit.doc_id),
        !conn.docs[edit.doc_id].read_only,
        conn.docs[edit.doc_id].in_flight == Some(ticket),
        ops.len() > 0,
    ensures
        superseded(conn, edit, Ok(ops)).len() == 1,
        superseded(conn, edit, Ok(ops))[0].ticket == ticket,
        superseded(conn, edit, Ok(ops))[0].outcome is Err,
        superseded(conn, edit, Ok(Seq::empty())).len() == 0,
        edit_begun(doc_id, retries).doc_id == doc_id,
        edit_begun(doc_id, retries).attempt == 0,
        edit_begun(doc_id, retries).retries == retries,
{
}

/// A document that is not known, or that is in doubt while nothing is in flight
/// on it, is not handed out. One that can be handed out is handed out as its
/// shadow holds it, but only a trusted one is a base for an edit.
pub proof fn doubtful_document_is_not_handed_out(conn: ConnView, doc_id: Seq<char>)
    ensures
        !conn.docs.contains_key(doc_id) ==> served(conn, doc_id) is None && trusted(conn, doc_id)
            is None,
        conn.docs.contains_key(doc_id) ==> ({
            let shadow = conn.docs[doc_id];
            let held = DocView { content: shadow.content, version: shadow.version };
            &&& served(conn, doc_id) is None <==> shadow.dirty && shadow.in_flight is None
            &&& trusted(conn, doc_id) is None <==> shadow.dirty
            &&& served(conn, doc_id) matches Some(doc) ==> doc == held
            &&& trusted(conn, doc_id) matches Some(doc) ==> doc == held
        }),
{
}

} // verus!
