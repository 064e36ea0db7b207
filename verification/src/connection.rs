//! The state of a realtime session and what events do to it.
//!
//! The session itself is plain data. Whoever owns the transport hands in what
//! arrived and does what the answer asks for.
use vstd::prelude::*;

use crate::config::RealtimeSettings;
use crate::error::{concat, error_message, OverleafError, Result};
use crate::frame::{EventPayload, Frame, FrameView, PayloadView};
use crate::json::{arg_views, str_arg, text_arg, text_field, ArgView, JsonArg};
use crate::ot::{AppliedOtUpdate, AppliedView};
use crate::project::{EntityKind, EntityRefJson, JoinProjectArgs, ProjectTree, TreeView};
use crate::shadow::{replayed, DocShadow, ShadowView};
use crate::table::{
    in_order_is_duplicate_free, key_list, key_list_is_unique, lists_keys, Table,
};
use crate::text::{opt_text, same_text, texts};
use crate::tree::{
    every_removal_has_a_list, join_result, removal, subtree, with_name, with_node, with_parent, without_node,
};

verus! {

// --- the state -----------------------------------------------------------

/// How far a session is.
#[derive(Debug)]
pub enum Phase {
    Connecting,
    Ready,
    Dead(String),
}

/// How far a session is, as plain values.
pub enum PhaseView {
    Connecting,
    Ready,
    Dead(Seq<char>),
}

impl View for Phase {
    type V = PhaseView;

    open spec fn view(&self) -> PhaseView {
        match *self {
            Phase::Connecting => PhaseView::Connecting,
            Phase::Ready => PhaseView::Ready,
            Phase::Dead(reason) => PhaseView::Dead(reason@),
        }
    }
}

/// A realtime session for one project. Once `stopped` it stays so, and a new
/// one has to be opened.
pub struct ProjectConnection {
    pub project_id: String,
    pub settings: RealtimeSettings,
    pub phase: Phase,
    pub stopped: bool,
    pub last_msg_id: u64,
    pub public_id: Option<String>,
    pub tree: Option<ProjectTree>,
    pub tree_dirty: bool,
    pub docs: Table<DocShadow>,
}

/// A session as plain values.
pub struct ConnView {
    pub project_id: Seq<char>,
    pub settings: RealtimeSettings,
    pub phase: PhaseView,
    pub stopped: bool,
    pub last_msg_id: u64,
    pub public_id: Option<Seq<char>>,
    pub tree: Option<TreeView>,
    pub tree_dirty: bool,
    pub docs: Map<Seq<char>, ShadowView>,
}

/// An optional tree as plain values.
pub open spec fn opt_tree(tree: Option<ProjectTree>) -> Option<TreeView> {
    match tree {
        Some(tree) => Some(tree@),
        None => None,
    }
}

impl View for ProjectConnection {
    type V = ConnView;

    open spec fn view(&self) -> ConnView {
        ConnView {
            project_id: self.project_id@,
            settings: self.settings,
            phase: self.phase@,
            stopped: self.stopped,
            last_msg_id: self.last_msg_id,
            public_id: opt_text(self.public_id),
            tree: opt_tree(self.tree),
            tree_dirty: self.tree_dirty,
            docs: self.docs@,
        }
    }
}

/// A session that was just opened.
pub open spec fn opened(project_id: Seq<char>, settings: RealtimeSettings) -> ConnView {
    ConnView {
        project_id,
        settings,
        phase: PhaseView::Connecting,
        stopped: false,
        last_msg_id: 0,
        public_id: None,
        tree: None,
        tree_dirty: false,
        docs: Map::empty(),
    }
}

// --- what a step asks for ------------------------------------------------

/// Tells the edit behind a ticket how it ended: with the version at which the
/// server applied it, or with the reason why it failed.
#[derive(Debug)]
pub struct Settled {
    pub ticket: u64,
    pub outcome: core::result::Result<i64, String>,
}

/// The end of an edit, as plain values.
pub struct SettledView {
    pub ticket: u64,
    pub outcome: core::result::Result<int, Seq<char>>,
}

impl View for Settled {
    type V = SettledView;

    open spec fn view(&self) -> SettledView {
        SettledView {
            ticket: self.ticket,
            outcome: match self.outcome {
                Ok(v) => Ok(v as int),
                Err(reason) => Err(reason@),
            },
        }
    }
}

/// The ends of edits, as plain values.
pub open spec fn settled_views(list: Seq<Settled>) -> Seq<SettledView> {
    Seq::new(list.len(), |i: int| list[i]@)
}

/// What the owner of the transport has to do.
#[derive(Debug)]
pub enum Action {
    /// Nothing.
    Idle,
    /// Answer a heartbeat.
    Heartbeat,
    /// Hand the arguments to whoever waits for the ack.
    Ack { id: u64, args: Vec<JsonArg> },
    /// The session is ready.
    Ready,
    /// The session is over; nobody will get an ack any more.
    Closed(String),
}

/// What the owner of the transport has to do, as plain values.
pub enum ActionView {
    Idle,
    Heartbeat,
    Ack { id: u64, args: Seq<ArgView> },
    Ready,
    Closed(Seq<char>),
}

impl View for Action {
    type V = ActionView;

    open spec fn view(&self) -> ActionView {
        match *self {
            Action::Idle => ActionView::Idle,
            Action::Heartbeat => ActionView::Heartbeat,
            Action::Ack { id, args } => ActionView::Ack { id, args: arg_views(args@) },
            Action::Ready => ActionView::Ready,
            Action::Closed(reason) => ActionView::Closed(reason@),
        }
    }
}

/// The answer to what arrived: what to do, and which edits ended.
#[derive(Debug)]
pub struct Reaction {
    pub action: Action,
    pub settled: Vec<Settled>,
}

/// A session after something arrived, with the answer to it.
pub struct Step {
    pub conn: ConnView,
    pub action: ActionView,
    pub settled: Seq<SettledView>,
}

/// The step that led to a session and an answer.
pub open spec fn step_of(conn: ConnView, reaction: Reaction) -> Step {
    Step { conn, action: reaction.action@, settled: settled_views(reaction.settled@) }
}

/// A step that only changes the session.
pub open spec fn quiet(conn: ConnView) -> Step {
    Step { conn, action: ActionView::Idle, settled: Seq::empty() }
}

// --- shadows and the edits in flight -------------------------------------

/// The notice for the edit in flight on a document, when it fails.
pub open spec fn failure(shadow: ShadowView, reason: Seq<char>) -> Seq<SettledView> {
    match shadow.in_flight {
        Some(ticket) => seq![SettledView { ticket, outcome: Err(reason) }],
        None => Seq::empty(),
    }
}

/// A shadow that can no longer be trusted, without an edit in flight.
pub open spec fn spoiled(shadow: ShadowView) -> ShadowView {
    ShadowView { dirty: true, in_flight: None, ..shadow }
}

/// All shadows spoiled.
pub open spec fn all_spoiled(docs: Map<Seq<char>, ShadowView>) -> Map<Seq<char>, ShadowView> {
    docs.map_values(|shadow: ShadowView| spoiled(shadow))
}

/// The notices for the edits in flight on the given documents, in order.
pub open spec fn failures(
    ids: Seq<Seq<char>>,
    docs: Map<Seq<char>, ShadowView>,
    reason: Seq<char>,
) -> Seq<SettledView>
    decreases ids.len(),
{
    if ids.len() == 0 {
        Seq::empty()
    } else {
        failures(ids.drop_last(), docs, reason) + failure(docs[ids.last()], reason)
    }
}

/// What is left after documents were deleted, and the notices for the edits in
/// flight on them.
pub struct Deletion {
    pub docs: Map<Seq<char>, ShadowView>,
    pub settled: Seq<SettledView>,
}

/// The reason given to an edit whose document was deleted.
pub open spec fn deleted_reason() -> Seq<char> {
    "document was deleted"@
}

/// Deletes the shadows of the given ids one after another.
pub open spec fn deleted(ids: Seq<Seq<char>>, docs: Map<Seq<char>, ShadowView>) -> Deletion
    decreases ids.len(),
{
    if ids.len() == 0 {
        Deletion { docs, settled: Seq::empty() }
    } else {
        let before = deleted(ids.drop_last(), docs);
        let id = ids.last();
        if before.docs.contains_key(id) {
            Deletion {
                docs: before.docs.remove(id),
                settled: before.settled + failure(before.docs[id], deleted_reason()),
            }
        } else {
            before
        }
    }
}

/// Deleting documents removes their shadows and no others.
pub proof fn deletion_removes_exactly_the_ids(
    ids: Seq<Seq<char>>,
    docs: Map<Seq<char>, ShadowView>,
)
    ensures
        deleted(ids, docs).docs == docs.remove_keys(ids.to_set()),
    decreases ids.len(),
{
    if ids.len() > 0 {
        let short = ids.drop_last();
        deletion_removes_exactly_the_ids(short, docs);
        assert forall|x: Seq<char>| ids.to_set().contains(x) <==> short.to_set().contains(x) || x
            == ids.last() by {
            if short.contains(x) {
                assert(ids[short.index_of(x)] == x);
            }
            assert(ids[ids.len() - 1] == ids.last());
            if ids.contains(x) {
                let k = ids.index_of(x);
                if k < short.len() {
                    assert(short[k] == x);
                }
            }
        }
        assert(deleted(ids, docs).docs =~= docs.remove_keys(ids.to_set()));
    } else {
        assert(deleted(ids, docs).docs =~= docs.remove_keys(ids.to_set()));
    }
}

impl DocShadow {
    /// Ends the edit in flight with a failure.
    pub fn fail_in_flight(&mut self, reason: &str, settled: &mut Vec<Settled>)
        ensures
            final(self)@ == (ShadowView { in_flight: None, ..old(self)@ }),
            settled_views(final(settled)@) == settled_views(old(settled)@) + failure(
                old(self)@,
                reason@,
            ),
    {
        let ghost before = settled_views(settled@);
        match self.in_flight {
            Some(ticket) => {
                settled.push(Settled { ticket, outcome: Err(reason.to_owned()) });
                assert(settled_views(settled@) =~= before + failure(old(self)@, reason@));
            },
            None => {
                assert(before + failure(old(self)@, reason@) =~= before);
            },
        }
        self.in_flight = None;
    }
}

// --- the end of a session ------------------------------------------------

/// Ends a session; a second end changes nothing.
pub open spec fn closed(conn: ConnView, reason: Seq<char>) -> Step {
    if conn.stopped {
        quiet(conn)
    } else {
        Step {
            conn: ConnView {
                stopped: true,
                phase: PhaseView::Dead(reason),
                docs: all_spoiled(conn.docs),
                ..conn
            },
            action: ActionView::Closed(reason),
            settled: failures(key_list(conn.docs), conn.docs, reason),
        }
    }
}

/// After the end of a session no document is trusted and no edit waits.
pub proof fn closing_leaves_nothing_in_flight(conn: ConnView, reason: Seq<char>, id: Seq<char>)
    requires
        !conn.stopped,
    ensures
        closed(conn, reason).conn.stopped,
        closed(conn, reason).conn.docs.contains_key(id) <==> conn.docs.contains_key(id),
        conn.docs.contains_key(id) ==> closed(conn, reason).conn.docs[id] == spoiled(conn.docs[id]),
        closed(closed(conn, reason).conn, reason) == quiet(closed(conn, reason).conn),
{
}

// --- what events mean ----------------------------------------------------

/// What was read, outside of this library, from the arguments of an event.
/// `None` stands for an argument that is missing, that could not be read, or
/// that the event does not have.
pub struct Decoded {
    /// The first argument of `joinProjectResponse`, or why it cannot be read.
    pub join: Option<core::result::Result<JoinProjectArgs, String>>,
    /// The first argument of `otUpdateApplied`.
    pub update: Option<AppliedOtUpdate>,
    /// The second argument of the events that announce a new entity.
    pub entity: Option<EntityRefJson>,
}

/// Whether an event announces a new entity.
pub open spec fn announces_entity(name: Seq<char>) -> bool {
    name == "reciveNewDoc"@ || name == "reciveNewFile"@ || name == "reciveNewFolder"@
}

/// Whether `decoded` is what the given functions read from an event's
/// arguments: each is asked only for the event that it belongs to, and gets
/// the JSON text of the argument.
pub open spec fn decoded_by<J, U, E>(
    payload: PayloadView,
    join: J,
    update: U,
    entity: E,
    decoded: Decoded,
) -> bool where
    J: Fn(&str) -> core::result::Result<JoinProjectArgs, String>,
    U: Fn(&str) -> Option<AppliedOtUpdate>,
    E: Fn(&str) -> Option<EntityRefJson>,
 {
    let joins = payload.name == "joinProjectResponse"@ && payload.args.len() > 0;
    let updates = payload.name == "otUpdateApplied"@ && payload.args.len() > 0;
    let creates = announces_entity(payload.name) && payload.args.len() > 1;
    &&& match decoded.join {
        Some(read) => joins && exists|text: &str|
            text@ == payload.args[0].text && #[trigger] call_ensures(join, (text,), read),
        None => !joins,
    }
    &&& if updates {
        exists|text: &str|
            text@ == payload.args[0].text && #[trigger] call_ensures(
                update,
                (text,),
                decoded.update,
            )
    } else {
        decoded.update is None
    }
    &&& if creates {
        exists|text: &str|
            text@ == payload.args[1].text && #[trigger] call_ensures(
                entity,
                (text,),
                decoded.entity,
            )
    } else {
        decoded.entity is None
    }
}

impl EventPayload {
    /// Reads the arguments of this event that other code has to read.
    pub fn decode<J, U, E>(&self, join: J, update: U, entity: E) -> (decoded: Decoded) where
        J: Fn(&str) -> core::result::Result<JoinProjectArgs, String>,
        U: Fn(&str) -> Option<AppliedOtUpdate>,
        E: Fn(&str) -> Option<EntityRefJson>,

        requires
            forall|text: &str| call_requires(join, (text,)),
            forall|text: &str| call_requires(update, (text,)),
            forall|text: &str| call_requires(entity, (text,)),
        ensures
            decoded_by(self@, join, update, entity, decoded),
    {
        let name = self.name.as_str();
        let n: usize = self.args.len();
        let mut decoded = Decoded { join: None, update: None, entity: None };
        proof {
            lemma_event_names_differ();
        }
        if same_text(name, "joinProjectResponse") {
            if n > 0 {
                decoded.join = Some(join(self.args[0].text.as_str()));
            }
        } else if same_text(name, "otUpdateApplied") {
            if n > 0 {
                decoded.update = update(self.args[0].text.as_str());
            }
        } else if same_text(name, "reciveNewDoc") || same_text(name, "reciveNewFile")
            || same_text(name, "reciveNewFolder") {
            if n > 1 {
                decoded.entity = entity(self.args[1].text.as_str());
            }
        }
        decoded
    }
}

proof fn lemma_event_names_differ()
    ensures
        "joinProjectResponse"@ != "otUpdateApplied"@,
        !announces_entity("joinProjectResponse"@),
        !announces_entity("otUpdateApplied"@),
{
    reveal_strlit("joinProjectResponse");
    reveal_strlit("otUpdateApplied");
    reveal_strlit("reciveNewDoc");
    reveal_strlit("reciveNewFile");
    reveal_strlit("reciveNewFolder");
    assert("joinProjectResponse"@[0] == 'j');
    assert("otUpdateApplied"@[0] == 'o');
    assert("reciveNewDoc"@[0] == 'r');
    assert("reciveNewFile"@[0] == 'r');
    assert("reciveNewFolder"@[0] == 'r');
}

/// The tree that a `joinProjectResponse` brings, or why there is none.
pub open spec fn joined_project(
    join: Option<core::result::Result<JoinProjectArgs, String>>,
) -> core::result::Result<TreeView, Seq<char>> {
    match join {
        None => Err("missing args"@),
        Some(Err(e)) => Err(e@),
        Some(Ok(args)) => match join_result(args.project) {
            Ok(tree) => Ok(tree),
            Err(e) => Err(error_message(e)),
        },
    }
}

/// The detail that an `otUpdateError` gives.
pub open spec fn error_detail(args: Seq<ArgView>) -> Seq<char> {
    if args.len() == 0 {
        "unknown"@
    } else {
        match text_field(args[0].body, "message"@) {
            Some(message) => message,
            None => args[0].text,
        }
    }
}

/// The document that an `otUpdateError` is about.
pub open spec fn error_doc(args: Seq<ArgView>) -> Option<Seq<char>> {
    if args.len() > 1 {
        text_field(args[1].body, "doc"@)
    } else {
        None
    }
}

/// The kind of entity that an event announces.
pub open spec fn announced_kind(name: Seq<char>) -> EntityKind {
    if name == "reciveNewDoc"@ {
        EntityKind::Doc
    } else if name == "reciveNewFile"@ {
        EntityKind::File
    } else {
        EntityKind::Folder
    }
}

/// The shadow of a document after the server applied an update to it.
pub open spec fn updated_shadow(shadow: ShadowView, update: AppliedView) -> ShadowView {
    match update.op {
        None => ShadowView { in_flight: None, ..shadow },
        Some(ops) => {
            let replay = replayed(shadow.content, ops);
            if shadow.in_flight is Some {
                ShadowView { raced: true, dirty: true, ..shadow }
            } else if update.v != shadow.version {
                ShadowView { dirty: true, ..shadow }
            } else if replay.complete {
                ShadowView { content: replay.content, version: update.v + 1, ..shadow }
            } else {
                ShadowView { content: replay.content, dirty: true, ..shadow }
            }
        },
    }
}

/// The notice for an edit that an update confirms.
pub open spec fn confirmation(shadow: ShadowView, update: AppliedView) -> Seq<SettledView> {
    match (shadow.in_flight, update.op) {
        (Some(ticket), None) => seq![SettledView { ticket, outcome: Ok(update.v) }],
        _ => Seq::empty(),
    }
}

/// A session after the server applied an update. An update without an
/// operation confirms the edit in flight. The operation of another client is
/// replayed when it fits the version at hand and nothing is in flight;
/// otherwise the document has to be fetched again.
pub open spec fn updated(conn: ConnView, update: AppliedView) -> Step {
    if conn.docs.contains_key(update.doc) {
        let shadow = conn.docs[update.doc];
        Step {
            conn: ConnView {
                docs: conn.docs.insert(update.doc, updated_shadow(shadow, update)),
                ..conn
            },
            action: ActionView::Idle,
            settled: confirmation(shadow, update),
        }
    } else {
        quiet(conn)
    }
}

/// Whether an update is replayed on its document.
pub open spec fn is_replayed(conn: ConnView, update: AppliedView) -> bool {
    &&& conn.docs.contains_key(update.doc)
    &&& conn.docs[update.doc].in_flight is None
    &&& update.op is Some
    &&& update.v == conn.docs[update.doc].version
    &&& replayed(conn.docs[update.doc].content, update.op->0).complete
}

/// The version behind an update that is replayed fits into the machine's
/// integers.
pub open spec fn has_next_version(conn: ConnView, update: AppliedView) -> bool {
    is_replayed(conn, update) ==> update.v < i64::MAX
}

/// The same for the update that an event brings, if it brings one.
pub open spec fn leaves_room(conn: ConnView, payload: PayloadView, decoded: Decoded) -> bool {
    payload.name == "otUpdateApplied"@ && decoded.update is Some ==> has_next_version(
        conn,
        decoded.update->0@,
    )
}

/// A session after the server refused an update. Where the document is not
/// known, all are in doubt.
pub open spec fn refused(conn: ConnView, args: Seq<ArgView>) -> Step {
    let detail = error_detail(args);
    match error_doc(args) {
        Some(id) if conn.docs.contains_key(id) => Step {
            conn: ConnView {
                docs: conn.docs.insert(id, spoiled(conn.docs[id])),
                ..conn
            },
            action: ActionView::Idle,
            settled: failure(conn.docs[id], detail),
        },
        _ => Step {
            conn: ConnView { docs: all_spoiled(conn.docs), ..conn },
            action: ActionView::Idle,
            settled: failures(key_list(conn.docs), conn.docs, detail),
        },
    }
}

/// A session after an entity with everything below it is gone.
pub open spec fn entity_removed(conn: ConnView, id: Seq<char>) -> Step {
    match conn.tree {
        Some(tree) => {
            let gone = deleted(removal(tree.nodes, id), conn.docs);
            Step {
                conn: ConnView { tree: Some(without_node(tree, id)), docs: gone.docs, ..conn },
                action: ActionView::Idle,
                settled: gone.settled,
            }
        },
        None => quiet(conn),
    }
}

/// A session whose tree can no longer be trusted.
pub open spec fn tree_lost(conn: ConnView) -> ConnView {
    ConnView { tree_dirty: true, ..conn }
}

/// A session after an event.
pub open spec fn after_event(conn: ConnView, payload: PayloadView, decoded: Decoded) -> Step {
    let name = payload.name;
    let args = payload.args;
    if name == "joinProjectResponse"@ {
        match joined_project(decoded.join) {
            Ok(tree) => Step {
                conn: ConnView {
                    public_id: opt_text(decoded.join->0->Ok_0.public_id),
                    tree: Some(tree),
                    tree_dirty: false,
                    phase: PhaseView::Ready,
                    ..conn
                },
                action: ActionView::Ready,
                settled: Seq::empty(),
            },
            Err(e) => closed(conn, "bad joinProjectResponse: "@ + e),
        }
    } else if name == "connectionRejected"@ {
        closed(
            conn,
            "connection rejected: "@ + if args.len() > 0 {
                args[0].text
            } else {
                "no detail"@
            },
        )
    } else if name == "otUpdateApplied"@ {
        match decoded.update {
            Some(update) => updated(conn, update@),
            None => quiet(conn),
        }
    } else if name == "otUpdateError"@ {
        refused(conn, args)
    } else if announces_entity(name) {
        match (text_arg(args, 0), decoded.entity, conn.tree) {
            (Some(folder), Some(entity), Some(tree)) => quiet(
                ConnView {
                    tree: Some(
                        with_node(tree, entity.id@, entity.name@, announced_kind(name), folder),
                    ),
                    ..conn
                },
            ),
            _ => quiet(tree_lost(conn)),
        }
    } else if name == "removeEntity"@ {
        match text_arg(args, 0) {
            Some(id) => entity_removed(conn, id),
            None => quiet(tree_lost(conn)),
        }
    } else if name == "reciveEntityRename"@ {
        match (text_arg(args, 0), text_arg(args, 1), conn.tree) {
            (Some(id), Some(new_name), Some(tree)) if tree.nodes.contains_key(id) => quiet(
                ConnView { tree: Some(with_name(tree, id, new_name)), ..conn },
            ),
            _ => quiet(tree_lost(conn)),
        }
    } else if name == "reciveEntityMove"@ {
        match (text_arg(args, 0), text_arg(args, 1), conn.tree) {
            (Some(id), Some(folder), Some(tree)) if tree.nodes.contains_key(id) => quiet(
                ConnView { tree: Some(with_parent(tree, id, folder)), ..conn },
            ),
            _ => quiet(tree_lost(conn)),
        }
    } else {
        quiet(conn)
    }
}

/// A session after a frame.
pub open spec fn after_frame(conn: ConnView, frame: FrameView, decoded: Decoded) -> Step {
    match frame {
        FrameView::Heartbeat => Step {
            conn,
            action: ActionView::Heartbeat,
            settled: Seq::empty(),
        },
        FrameView::Ack { id, args } => Step {
            conn,
            action: ActionView::Ack { id, args },
            settled: Seq::empty(),
        },
        FrameView::Event(payload) => after_event(conn, payload, decoded),
        FrameView::ProtoError { reason } => closed(conn, "socket.io error frame: "@ + reason),
        FrameView::Disconnect => closed(conn, "server sent disconnect"@),
        _ => quiet(conn),
    }
}

fn idle() -> (reaction: Reaction)
    ensures
        reaction.action@ == ActionView::Idle,
        settled_views(reaction.settled@) == Seq::<SettledView>::empty(),
{
    let reaction = Reaction { action: Action::Idle, settled: Vec::new() };
    assert(settled_views(reaction.settled@) =~= Seq::<SettledView>::empty());
    reaction
}

impl ProjectConnection {
    /// A session that was just opened.
    pub fn open(project_id: &str, settings: RealtimeSettings) -> (conn: Self)
        ensures
            conn@ == opened(project_id@, settings),
    {
        ProjectConnection {
            project_id: project_id.to_owned(),
            settings,
            phase: Phase::Connecting,
            stopped: false,
            last_msg_id: 0,
            public_id: None,
            tree: None,
            tree_dirty: false,
            docs: Table::new(),
        }
    }

    /// Spoils all shadows and fails the edits in flight on them.
    fn spoil_all(&mut self, reason: &str) -> (settled: Vec<Settled>)
        ensures
            final(self)@ == (ConnView { docs: all_spoiled(old(self)@.docs), ..old(self)@ }),
            settled_views(settled@) == failures(key_list(old(self)@.docs), old(self)@.docs, reason@),
    {
        let ghost conn = self@;
        let ghost docs = self.docs@;
        let mut settled: Vec<Settled> = Vec::new();
        let n: usize = self.docs.len();
        let ghost keys = key_list(docs);
        let mut i: usize = 0;
        assert(settled_views(settled@) =~= failures(keys.take(0), docs, reason@));
        while i < n
            invariant
                i <= n,
                n == keys.len(),
                keys == key_list(docs),
                lists_keys(keys, docs),
                keys == self.docs.keys(),
                self@ == (ConnView { docs: self.docs@, ..conn }),
                forall|k: Seq<char>| #[trigger]
                    self.docs@.contains_key(k) <==> docs.contains_key(k),
                forall|j: int|
                    0 <= j < i ==> self.docs@[#[trigger] keys[j]] == spoiled(docs[keys[j]]),
                forall|j: int| i <= j < n ==> self.docs@[#[trigger] keys[j]] == docs[keys[j]],
                settled_views(settled@) == failures(keys.take(i as int), docs, reason@),
                conn == old(self)@,
                docs == conn.docs,
            decreases n - i,
        {
            let id = self.docs.key_at(i).clone();
            let ghost was = self.docs@;
            assert(keys[i as int] == id@);
            match self.docs.remove(id.as_str()) {
                Some(mut shadow) => {
                    shadow.dirty = true;
                    shadow.fail_in_flight(reason, &mut settled);
                    self.docs.insert(id, shadow);
                },
                None => {
                    assert(false);
                },
            }
            let _kept: usize = self.docs.len();
            proof {
                assert(self.docs@ =~= was.insert(keys[i as int], spoiled(docs[keys[i as int]])));
                assert forall|k: Seq<char>| #[trigger]
                    self.docs@.contains_key(k) <==> docs.contains_key(k) by {
                    assert(was.contains_key(k) <==> docs.contains_key(k));
                    assert(docs.contains_key(keys[i as int])) by {
                        assert(keys.contains(keys[i as int]));
                    }
                }
                assert(lists_keys(keys, self.docs@)) by {
                    assert forall|k: Seq<char>| #[trigger]
                        self.docs@.contains_key(k) <==> keys.contains(k) by {
                        assert(docs.contains_key(k) <==> keys.contains(k));
                    }
                }
                key_list_is_unique(keys, self.docs@);
                in_order_is_duplicate_free(keys);
                assert(keys.take(i + 1).drop_last() =~= keys.take(i as int));
            }
            i += 1;
        }
        proof {
            assert(keys.take(n as int) =~= keys);
            assert forall|k: Seq<char>| docs.contains_key(k) implies self.docs@[k] == spoiled(
                docs[k],
            ) by {
                assert(keys.contains(k));
                assert(keys[keys.index_of(k)] == k);
            }
            assert(self.docs@ =~= all_spoiled(docs));
        }
        settled
    }

    /// Ends the session.
    pub fn die(&mut self, reason: &str) -> (reaction: Reaction)
        ensures
            step_of(final(self)@, reaction) == closed(old(self)@, reason@),
    {
        if self.stopped {
            return idle();
        }
        let settled = self.spoil_all(reason);
        self.stopped = true;
        self.phase = Phase::Dead(reason.to_owned());
        Reaction { action: Action::Closed(reason.to_owned()), settled }
    }

    /// Ends the session because a poll failed.
    pub fn poll_failed(&mut self, error: &OverleafError) -> (reaction: Reaction)
        ensures
            step_of(final(self)@, reaction) == closed(
                old(self)@,
                "poll failed: "@ + error_message(error@),
            ),
    {
        let reason = concat("poll failed: ", error.message().as_str());
        self.die(reason.as_str())
    }

    /// Ends the session because a heartbeat could not be sent.
    pub fn heartbeat_failed(&mut self, error: &OverleafError) -> (reaction: Reaction)
        ensures
            step_of(final(self)@, reaction) == closed(
                old(self)@,
                "heartbeat send failed: "@ + error_message(error@),
            ),
    {
        let reason = concat("heartbeat send failed: ", error.message().as_str());
        self.die(reason.as_str())
    }

    /// Ends the session on behalf of this side.
    pub fn shutdown(&mut self) -> (reaction: Reaction)
        ensures
            step_of(final(self)@, reaction) == closed(old(self)@, "closed by client"@),
    {
        self.die("closed by client")
    }

    /// Takes in that the server applied an update.
    pub fn on_update_applied(&mut self, update: &AppliedOtUpdate) -> (reaction: Reaction)
        requires
            has_next_version(old(self)@, update@),
        ensures
            step_of(final(self)@, reaction) == updated(old(self)@, update@),
    {
        let ghost before = self@;
        let mut reaction = idle();
        match self.docs.remove(update.doc.as_str()) {
            None => {
                assert(self.docs@ =~= before.docs);
            },
            Some(mut shadow) => {
                let ghost was = shadow@;
                match &update.op {
                    None => {
                        if let Some(ticket) = shadow.in_flight {
                            reaction.settled.push(Settled { ticket, outcome: Ok(update.v) });
                        }
                        shadow.in_flight = None;
                        assert(settled_views(reaction.settled@) =~= confirmation(was, update@));
                    },
                    Some(ops) => {
                        if shadow.in_flight.is_some() {
                            shadow.raced = true;
                            shadow.dirty = true;
                        } else if update.v == shadow.version {
                            if shadow.replay(ops) {
                                shadow.version = update.v + 1;
                            } else {
                                shadow.dirty = true;
                            }
                        } else {
                            shadow.dirty = true;
                        }
                        assert(settled_views(reaction.settled@) =~= confirmation(was, update@));
                    },
                }
                assert(shadow@ == updated_shadow(was, update@));
                self.docs.insert(update.doc.clone(), shadow);
                assert(self.docs@ =~= updated(before, update@).conn.docs);
            },
        }
        reaction
    }

    /// Takes in that the server refused an update.
    fn on_update_refused(&mut self, args: &Vec<JsonArg>) -> (reaction: Reaction)
        ensures
            step_of(final(self)@, reaction) == refused(old(self)@, arg_views(args@)),
    {
        let ghost before = self@;
        let ghost shown = arg_views(args@);
        let detail = if args.len() == 0 {
            "unknown".to_owned()
        } else {
            match args[0].body.get_str("message") {
                Some(message) => message,
                None => args[0].text.clone(),
            }
        };
        assert(detail@ == error_detail(shown));
        let doc = if args.len() > 1 {
            args[1].body.get_str("doc")
        } else {
            None
        };
        assert(opt_text(doc) == error_doc(shown));
        if let Some(id) = doc {
            if let Some(mut shadow) = self.docs.remove(id.as_str()) {
                let mut reaction = idle();
                shadow.dirty = true;
                shadow.fail_in_flight(detail.as_str(), &mut reaction.settled);
                self.docs.insert(id, shadow);
                proof {
                    assert(self.docs@ =~= refused(before, shown).conn.docs);
                    assert(settled_views(reaction.settled@) =~= refused(before, shown).settled);
                }
                return reaction;
            }
            assert(self.docs@ =~= before.docs);
        }
        let settled = self.spoil_all(detail.as_str());
        Reaction { action: Action::Idle, settled }
    }

    /// Takes in that an entity with everything below it is gone.
    pub fn tree_apply_removed(&mut self, entity_id: &str) -> (reaction: Reaction)
        ensures
            step_of(final(self)@, reaction) == entity_removed(old(self)@, entity_id@),
    {
        let ghost before = self@;
        let mut reaction = idle();
        let removed = match &mut self.tree {
            Some(tree) => tree.remove_node(entity_id),
            None => {
                return reaction;
            },
        };
        let ghost ids = texts(removed@);
        let mut i: usize = 0;
        assert(ids.take(0) =~= Seq::<Seq<char>>::empty());
        while i < removed.len()
            invariant
                i <= removed@.len(),
                ids == texts(removed@),
                ids == removal(before.tree->0.nodes, entity_id@),
                before.tree is Some,
                self@ == (ConnView {
                    tree: Some(without_node(before.tree->0, entity_id@)),
                    docs: self.docs@,
                    ..before
                }),
                (Deletion { docs: self.docs@, settled: settled_views(reaction.settled@) })
                    == deleted(ids.take(i as int), before.docs),
                reaction.action@ == ActionView::Idle,
                before == old(self)@,
            decreases removed@.len() - i,
        {
            assert(ids.take(i + 1).drop_last() =~= ids.take(i as int));
            assert(ids.take(i + 1).last() == removed@[i as int]@);
            let ghost had = self.docs@;
            match self.docs.remove(removed[i].as_str()) {
                Some(mut shadow) => {
                    shadow.fail_in_flight("document was deleted", &mut reaction.settled);
                },
                None => {
                    assert(self.docs@ =~= had);
                },
            }
            i += 1;
        }
        assert(ids.take(removed@.len() as int) =~= ids);
        reaction
    }

    /// Takes in what an event says; `decoded` is what was read from its
    /// arguments elsewhere.
    pub fn handle_event(&mut self, payload: &EventPayload, decoded: Decoded) -> (reaction: Reaction)
        requires
            leaves_room(old(self)@, payload@, decoded),
        ensures
            step_of(final(self)@, reaction) == after_event(old(self)@, payload@, decoded),
    {
        let name = payload.name.as_str();
        let args = &payload.args;
        if same_text(name, "joinProjectResponse") {
            self.on_joined(decoded.join)
        } else if same_text(name, "connectionRejected") {
            let detail = if args.len() > 0 {
                args[0].text.clone()
            } else {
                "no detail".to_owned()
            };
            let reason = concat("connection rejected: ", detail.as_str());
            self.die(reason.as_str())
        } else if same_text(name, "otUpdateApplied") {
            match decoded.update {
                Some(update) => self.on_update_applied(&update),
                None => idle(),
            }
        } else if same_text(name, "otUpdateError") {
            self.on_update_refused(args)
        } else if same_text(name, "reciveNewDoc") {
            self.on_created(str_arg(args, 0), decoded.entity, EntityKind::Doc)
        } else if same_text(name, "reciveNewFile") {
            self.on_created(str_arg(args, 0), decoded.entity, EntityKind::File)
        } else if same_text(name, "reciveNewFolder") {
            self.on_created(str_arg(args, 0), decoded.entity, EntityKind::Folder)
        } else if same_text(name, "removeEntity") {
            match str_arg(args, 0) {
                Some(id) => self.tree_apply_removed(id.as_str()),
                None => {
                    self.tree_dirty = true;
                    idle()
                },
            }
        } else if same_text(name, "reciveEntityRename") {
            let applied = match (str_arg(args, 0), str_arg(args, 1), &mut self.tree) {
                (Some(id), Some(new_name), Some(tree)) => tree.rename_node(id.as_str(), new_name),
                _ => false,
            };
            if !applied {
                self.tree_dirty = true;
            }
            idle()
        } else if same_text(name, "reciveEntityMove") {
            let applied = match (str_arg(args, 0), str_arg(args, 1), &mut self.tree) {
                (Some(id), Some(folder), Some(tree)) => tree.reparent_node(
                    id.as_str(),
                    folder.as_str(),
                ),
                _ => false,
            };
            if !applied {
                self.tree_dirty = true;
            }
            idle()
        } else {
            idle()
        }
    }

    /// Takes in the project that was joined.
    fn on_joined(
        &mut self,
        join: Option<core::result::Result<JoinProjectArgs, String>>,
    ) -> (reaction: Reaction)
        ensures
            step_of(final(self)@, reaction) == (match joined_project(join) {
                Ok(tree) => Step {
                    conn: ConnView {
                        public_id: opt_text(join->0->Ok_0.public_id),
                        tree: Some(tree),
                        tree_dirty: false,
                        phase: PhaseView::Ready,
                        ..old(self)@
                    },
                    action: ActionView::Ready,
                    settled: Seq::empty(),
                },
                Err(e) => closed(old(self)@, "bad joinProjectResponse: "@ + e),
            }),
    {
        let problem = match join {
            None => "missing args".to_owned(),
            Some(Err(e)) => e,
            Some(Ok(args)) => match ProjectTree::from_join(&args.project) {
                Ok(tree) => {
                    self.public_id = args.public_id;
                    self.tree = Some(tree);
                    self.tree_dirty = false;
                    self.phase = Phase::Ready;
                    let mut reaction = idle();
                    reaction.action = Action::Ready;
                    return reaction;
                },
                Err(e) => e.message(),
            },
        };
        let reason = concat("bad joinProjectResponse: ", problem.as_str());
        self.die(reason.as_str())
    }

    /// Takes in a new entity.
    fn on_created(
        &mut self,
        folder_id: Option<String>,
        entity: Option<EntityRefJson>,
        kind: EntityKind,
    ) -> (reaction: Reaction)
        ensures
            step_of(final(self)@, reaction) == (match (
                opt_text(folder_id),
                entity,
                old(self)@.tree,
            ) {
                (Some(folder), Some(entity), Some(tree)) => quiet(
                    ConnView {
                        tree: Some(with_node(tree, entity.id@, entity.name@, kind, folder)),
                        ..old(self)@
                    },
                ),
                _ => quiet(tree_lost(old(self)@)),
            }),
    {
        match (folder_id, entity, &mut self.tree) {
            (Some(folder), Some(entity), Some(tree)) => {
                tree.insert_node(entity.id, entity.name, kind, folder.as_str());
            },
            _ => {
                self.tree_dirty = true;
            },
        }
        idle()
    }

    /// Takes in a frame; `decoded` is what was read from the arguments of an
    /// event elsewhere.
    pub fn dispatch(&mut self, frame: Frame, decoded: Decoded) -> (reaction: Reaction)
        requires
            match frame@ {
                FrameView::Event(payload) => leaves_room(old(self)@, payload, decoded),
                _ => true,
            },
        ensures
            step_of(final(self)@, reaction) == after_frame(old(self)@, frame@, decoded),
    {
        match frame {
            Frame::Heartbeat => {
                let mut reaction = idle();
                reaction.action = Action::Heartbeat;
                reaction
            },
            Frame::Ack { id, args } => {
                let mut reaction = idle();
                reaction.action = Action::Ack { id, args };
                reaction
            },
            Frame::Event(payload) => self.handle_event(&payload, decoded),
            Frame::ProtoError { reason } => {
                let text = concat("socket.io error frame: ", reason.as_str());
                self.die(text.as_str())
            },
            Frame::Disconnect => self.die("server sent disconnect"),
            _ => idle(),
        }
    }
}

// --- what every event keeps ----------------------------------------------

/// A trusted shadow follows the operations of other clients: it stays trusted
/// exactly when the operation is for the version at hand and fits, and then it
/// holds the document with the operation applied, at the next version.
pub proof fn trusted_shadow_follows_the_server(shadow: ShadowView, update: AppliedView)
    requires
        !shadow.dirty,
        shadow.in_flight is None,
        update.op is Some,
    ensures
        ({
            let now = updated_shadow(shadow, update);
            let replay = replayed(shadow.content, update.op->0);
            &&& !now.dirty <==> update.v == shadow.version && replay.complete
            &&& !now.dirty ==> now.content == replay.content && now.version == update.v + 1
        }),
{
}

/// No frame makes a shadow trusted again that was in doubt.
pub proof fn doubt_stays(conn: ConnView, frame: FrameView, decoded: Decoded, id: Seq<char>)
    requires
        conn.docs.contains_key(id),
        conn.docs[id].dirty,
    ensures
        after_frame(conn, frame, decoded).conn.docs.contains_key(id) ==> after_frame(
            conn,
            frame,
            decoded,
        ).conn.docs[id].dirty,
{
    if conn.tree is Some {
        if let FrameView::Event(payload) = frame {
            if let Some(gone) = text_arg(payload.args, 0) {
                deletion_removes_exactly_the_ids(removal(conn.tree->0.nodes, gone), conn.docs);
            }
        }
    }
}

/// No frame adds a shadow: documents only come by being joined.
pub proof fn frames_add_no_documents(
    conn: ConnView,
    frame: FrameView,
    decoded: Decoded,
    id: Seq<char>,
)
    requires
        !conn.docs.contains_key(id),
    ensures
        !after_frame(conn, frame, decoded).conn.docs.contains_key(id),
{
    if conn.tree is Some {
        if let FrameView::Event(payload) = frame {
            if let Some(gone) = text_arg(payload.args, 0) {
                deletion_removes_exactly_the_ids(removal(conn.tree->0.nodes, gone), conn.docs);
            }
        }
    }
}

/// A session that is over stays over, whatever still arrives.
pub proof fn end_is_final(conn: ConnView, frame: FrameView, decoded: Decoded)
    requires
        conn.stopped,
    ensures
        after_frame(conn, frame, decoded).conn.stopped,
{
}

/// Whether the edit behind a ticket was told how it ended.
pub open spec fn told(settled: Seq<SettledView>, ticket: u64) -> bool {
    exists|i: int| 0 <= i < settled.len() && (#[trigger] settled[i]).ticket == ticket
}

proof fn lemma_failures_tell(
    ids: Seq<Seq<char>>,
    docs: Map<Seq<char>, ShadowView>,
    reason: Seq<char>,
    id: Seq<char>,
    ticket: u64,
)
    requires
        ids.contains(id),
        docs[id].in_flight == Some(ticket),
    ensures
        told(failures(ids, docs, reason), ticket),
    decreases ids.len(),
{
    let short = ids.drop_last();
    let before = failures(short, docs, reason);
    let now = failures(ids, docs, reason);
    if ids.last() == id {
        assert(now[before.len() as int].ticket == ticket);
    } else {
        let k = ids.index_of(id);
        assert(short[k] == id);
        lemma_failures_tell(short, docs, reason, id, ticket);
        let i = choose|i: int| 0 <= i < before.len() && (#[trigger] before[i]).ticket == ticket;
        assert(now[i].ticket == ticket);
    }
}

proof fn lemma_deletion_tells(
    ids: Seq<Seq<char>>,
    docs: Map<Seq<char>, ShadowView>,
    id: Seq<char>,
    ticket: u64,
)
    requires
        docs.contains_key(id),
        docs[id].in_flight == Some(ticket),
    ensures
        told(deleted(ids, docs).settled, ticket) || (deleted(ids, docs).docs.contains_key(id)
            && deleted(ids, docs).docs[id] == docs[id]),
    decreases ids.len(),
{
    if ids.len() > 0 {
        let before = deleted(ids.drop_last(), docs);
        let now = deleted(ids, docs);
        lemma_deletion_tells(ids.drop_last(), docs, id, ticket);
        if told(before.settled, ticket) {
            let i = choose|i: int|
                0 <= i < before.settled.len() && (#[trigger] before.settled[i]).ticket == ticket;
            assert(now.settled[i].ticket == ticket);
        } else if ids.last() == id {
            assert(now.settled[before.settled.len() as int].ticket == ticket);
        }
    }
}

/// No edit in flight is forgotten: after any frame it is still in flight, or it
/// was told how it ended.
pub proof fn no_edit_is_forgotten(
    conn: ConnView,
    frame: FrameView,
    decoded: Decoded,
    id: Seq<char>,
    ticket: u64,
)
    requires
        lists_keys(key_list(conn.docs), conn.docs),
        conn.docs.contains_key(id),
        conn.docs[id].in_flight == Some(ticket),
    ensures
        ({
            let after = after_frame(conn, frame, decoded);
            ||| after.conn.docs.contains_key(id) && after.conn.docs[id].in_flight == Some(ticket)
            ||| told(after.settled, ticket)
        }),
{
    let after = after_frame(conn, frame, decoded);
    let keys = key_list(conn.docs);
    assert(keys.contains(id));
    assert forall|reason: Seq<char>| told(#[trigger] failures(keys, conn.docs, reason), ticket) by {
        lemma_failures_tell(keys, conn.docs, reason, id, ticket);
    }
    assert forall|reason: Seq<char>|
        told(#[trigger] failure(conn.docs[id], reason), ticket) by {
        assert(failure(conn.docs[id], reason)[0].ticket == ticket);
    }
    if let FrameView::Event(payload) = frame {
        if payload.name == "otUpdateApplied"@ {
            if let Some(update) = decoded.update {
                let told_now = confirmation(conn.docs[id], update@);
                if update@.doc == id && update@.op is None {
                    assert(told_now[0].ticket == ticket);
                    assert(told(told_now, ticket));
                }
            }
        }
        if conn.tree is Some {
            if let Some(gone) = text_arg(payload.args, 0) {
                lemma_deletion_tells(
                    removal(conn.tree->0.nodes, gone),
                    conn.docs,
                    id,
                    ticket,
                );
            }
        }
    }
}

/// An update bears on the document that it names and on no other. One without
/// an operation settles the edit in flight, with the version at which it was
/// applied; one with an operation settles nothing.
pub proof fn update_bears_on_its_document(conn: ConnView, update: AppliedView, id: Seq<char>)
    ensures
        ({
            let next = updated(conn, update);
            &&& next.conn.docs.contains_key(id) <==> conn.docs.contains_key(id)
            &&& id != update.doc ==> next.conn.docs[id] == conn.docs[id]
            &&& next.conn == (ConnView { docs: next.conn.docs, ..conn })
            &&& conn.docs.contains_key(update.doc) && update.op is None
                && conn.docs[update.doc].in_flight is Some ==> next.settled == seq![
                SettledView { ticket: conn.docs[update.doc].in_flight->0, outcome: Ok(update.v) },
            ]
            &&& update.op is Some ==> next.settled.len() == 0
            &&& conn.docs.contains_key(update.doc) && update.op is None ==> ({
                let now = next.conn.docs[update.doc];
                let was = conn.docs[update.doc];
                now.in_flight is None && now.content == was.content && now.version == was.version
                    && now.dirty == was.dirty
            })
        }),
{
}

/// While an edit is in flight, or at another version than the one at hand, the
/// operation of another client is not replayed: the shadow keeps its text and
/// is no longer trusted.
pub proof fn untimely_operation_is_not_replayed(shadow: ShadowView, update: AppliedView)
    requires
        update.op is Some,
        shadow.in_flight is Some || update.v != shadow.version,
    ensures
        updated_shadow(shadow, update).content == shadow.content,
        updated_shadow(shadow, update).version == shadow.version,
        updated_shadow(shadow, update).dirty,
        updated_shadow(shadow, update).in_flight == shadow.in_flight,
{
}

/// A refused update casts doubt on the document that it names and on no other;
/// where it names none that is known, on all of them. The edits in flight there
/// are over, and the texts stay as they are.
pub proof fn refusal_casts_doubt_where_it_belongs(
    conn: ConnView,
    args: Seq<ArgView>,
    id: Seq<char>,
)
    requires
        conn.docs.contains_key(id),
    ensures
        ({
            let next = refused(conn, args);
            let now = next.conn.docs[id];
            let was = conn.docs[id];
            let named = error_doc(args) matches Some(doc) && conn.docs.contains_key(doc);
            &&& next.conn.docs.contains_key(id)
            &&& now.content == was.content && now.version == was.version
            &&& now.read_only == was.read_only
            &&& named && error_doc(args) != Some(id) ==> now == was
            &&& !named || error_doc(args) == Some(id) ==> now.dirty && now.in_flight is None
            &&& next.conn.tree == conn.tree && next.conn.phase == conn.phase
        }),
{
}

pub(crate) proof fn lemma_tree_event_names_differ(name: Seq<char>)
    ensures
        name == "reciveEntityRename"@ || name == "reciveEntityMove"@ || name == "removeEntity"@
            || announces_entity(name) ==> name != "joinProjectResponse"@ && name
            != "connectionRejected"@ && name != "otUpdateApplied"@ && name != "otUpdateError"@,
        name == "reciveEntityRename"@ || name == "reciveEntityMove"@ || name == "removeEntity"@
            ==> !announces_entity(name),
        name == "reciveEntityRename"@ || name == "reciveEntityMove"@ ==> name != "removeEntity"@,
        name == "reciveEntityMove"@ ==> name != "reciveEntityRename"@,
        name == "reciveNewFile"@ || name == "reciveNewFolder"@ ==> name != "reciveNewDoc"@,
        name == "reciveNewFolder"@ ==> name != "reciveNewFile"@,
{
    reveal_strlit("joinProjectResponse");
    reveal_strlit("connectionRejected");
    reveal_strlit("otUpdateApplied");
    reveal_strlit("otUpdateError");
    reveal_strlit("reciveNewDoc");
    reveal_strlit("reciveNewFile");
    reveal_strlit("reciveNewFolder");
    reveal_strlit("removeEntity");
    reveal_strlit("reciveEntityRename");
    reveal_strlit("reciveEntityMove");
    assert("joinProjectResponse"@[0] == 'j');
    assert("connectionRejected"@[0] == 'c');
    assert("otUpdateApplied"@[0] == 'o');
    assert("otUpdateError"@[0] == 'o');
    assert("reciveNewDoc"@[0] == 'r');
    assert("reciveNewFile"@[0] == 'r');
    assert("reciveNewFolder"@[0] == 'r');
    assert("removeEntity"@[0] == 'r');
    assert("reciveEntityRename"@[0] == 'r');
    assert("reciveEntityMove"@[0] == 'r');
    assert("reciveNewDoc"@[2] == 'c');
    assert("reciveNewFile"@[2] == 'c');
    assert("reciveNewFolder"@[2] == 'c');
    assert("removeEntity"@[2] == 'm');
    assert("reciveNewDoc"@[6] == 'N');
    assert("reciveNewFile"@[6] == 'N');
    assert("reciveNewFolder"@[6] == 'N');
    assert("reciveEntityRename"@[6] == 'E');
    assert("reciveEntityMove"@[6] == 'E');
    assert("reciveNewDoc"@[9] == 'D');
    assert("reciveNewFile"@[9] == 'F');
    assert("reciveNewFolder"@[9] == 'F');
    assert("reciveNewFile"@[10] == 'i');
    assert("reciveNewFolder"@[10] == 'o');
    assert("reciveEntityRename"@[12] == 'R');
    assert("reciveEntityMove"@[12] == 'M');
}

/// What others do to the tree is done to the tree at hand: an entity that they
/// rename, move or add is known under its new name, in its new folder, and
/// nothing else about the tree or the documents changes.
pub proof fn tree_follows_the_events(
    conn: ConnView,
    payload: PayloadView,
    decoded: Decoded,
    id: Seq<char>,
    value: Seq<char>,
    other: Seq<char>,
)
    requires
        conn.tree is Some,
        other != id,
    ensures
        payload.name == "reciveEntityRename"@ && text_arg(payload.args, 0) == Some(id) && text_arg(
            payload.args,
            1,
        ) == Some(value) && conn.tree->0.nodes.contains_key(id) ==> ({
            let was = conn.tree->0;
            let next = after_event(conn, payload, decoded);
            let now = next.conn.tree->0;
            &&& next.conn == (ConnView { tree: Some(now), ..conn })
            &&& next.settled.len() == 0
            &&& now.nodes.dom() == was.nodes.dom()
            &&& now.nodes[id].name == value
            &&& now.nodes[id].kind == was.nodes[id].kind
            &&& now.nodes[id].parent == was.nodes[id].parent
            &&& now.nodes[other] == was.nodes[other]
            &&& now.root_folder_id == was.root_folder_id
        }),
        payload.name == "reciveEntityMove"@ && text_arg(payload.args, 0) == Some(id) && text_arg(
            payload.args,
            1,
        ) == Some(value) && conn.tree->0.nodes.contains_key(id) ==> ({
            let was = conn.tree->0;
            let next = after_event(conn, payload, decoded);
            let now = next.conn.tree->0;
            &&& next.conn == (ConnView { tree: Some(now), ..conn })
            &&& next.settled.len() == 0
            &&& now.nodes.dom() == was.nodes.dom()
            &&& now.nodes[id].name == was.nodes[id].name
            &&& now.nodes[id].kind == was.nodes[id].kind
            &&& value == was.root_folder_id ==> now.nodes[id].parent is None
            &&& value != was.root_folder_id ==> now.nodes[id].parent == Some(value)
            &&& now.nodes[other] == was.nodes[other]
            &&& now.root_folder_id == was.root_folder_id
        }),
        announces_entity(payload.name) && text_arg(payload.args, 0) == Some(value) && (
        decoded.entity matches Some(entity) && entity.id@ == id) ==> ({
            let was = conn.tree->0;
            let next = after_event(conn, payload, decoded);
            let now = next.conn.tree->0;
            &&& next.conn == (ConnView { tree: Some(now), ..conn })
            &&& next.settled.len() == 0
            &&& now.nodes.dom() == was.nodes.dom().insert(id)
            &&& now.nodes[id].name == decoded.entity->0.name@
            &&& payload.name == "reciveNewDoc"@ ==> now.nodes[id].kind == EntityKind::Doc
            &&& payload.name == "reciveNewFile"@ ==> now.nodes[id].kind == EntityKind::File
            &&& payload.name == "reciveNewFolder"@ ==> now.nodes[id].kind == EntityKind::Folder
            &&& value == was.root_folder_id ==> now.nodes[id].parent is None
            &&& value != was.root_folder_id ==> now.nodes[id].parent == Some(value)
            &&& now.nodes[other] == was.nodes[other]
            &&& now.root_folder_id == was.root_folder_id
        }),
{
    lemma_tree_event_names_differ(payload.name);
    let now = after_event(conn, payload, decoded).conn.tree->0;
    let was = conn.tree->0;
    if conn.tree->0.nodes.contains_key(id) {
        assert(with_name(was, id, value).nodes.dom() =~= was.nodes.dom());
        assert(with_parent(was, id, value).nodes.dom() =~= was.nodes.dom());
    }
    if let Some(entity) = decoded.entity {
        assert(with_node(
            was,
            entity.id@,
            entity.name@,
            announced_kind(payload.name),
            value,
        ).nodes.dom() =~= was.nodes.dom().insert(entity.id@));
    }
}

/// An event about an entity that the tree does not have, or one that says too
/// little, is not guessed at: the tree is not trusted from then on.
pub proof fn event_that_cannot_be_followed_loses_the_tree(
    conn: ConnView,
    payload: PayloadView,
    decoded: Decoded,
)
    requires
        payload.name == "reciveEntityRename"@ || payload.name == "reciveEntityMove"@,
        text_arg(payload.args, 0) is None || text_arg(payload.args, 1) is None || conn.tree is None
            || !conn.tree->0.nodes.contains_key(text_arg(payload.args, 0)->0),
    ensures
        after_event(conn, payload, decoded).conn == (ConnView { tree_dirty: true, ..conn }),
{
    lemma_tree_event_names_differ(payload.name);
}

/// When others remove an entity, it and everything below it leave the tree, the
/// documents among them are forgotten, and all others stay as they are.
pub proof fn removed_documents_are_forgotten(
    conn: ConnView,
    payload: PayloadView,
    decoded: Decoded,
    id: Seq<char>,
)
    requires
        conn.tree is Some,
        payload.name == "removeEntity"@,
        text_arg(payload.args, 0) is Some,
        conn.tree->0.nodes.dom().finite(),
    ensures
        ({
            let top = text_arg(payload.args, 0)->0;
            let was = conn.tree->0;
            let next = after_event(conn, payload, decoded).conn;
            let gone = subtree(was.nodes, top).contains(id);
            &&& next.tree is Some
            &&& next.tree->0.nodes.contains_key(id) <==> was.nodes.contains_key(id) && !gone
            &&& next.docs.contains_key(id) <==> conn.docs.contains_key(id) && !gone
            &&& next.docs.contains_key(id) ==> next.docs[id] == conn.docs[id]
        }),
{
    lemma_tree_event_names_differ(payload.name);
    let top = text_arg(payload.args, 0)->0;
    let list = removal(conn.tree->0.nodes, top);
    every_removal_has_a_list(conn.tree->0.nodes, top);
    deletion_removes_exactly_the_ids(list, conn.docs);
    assert(list.contains(id) <==> subtree(conn.tree->0.nodes, top).contains(id));
}

/// A session becomes ready when its project is joined: it then has the tree that
/// the server describes, and its documents stay as they are. A project that
/// cannot be read, like a rejected connection, ends the session.
pub proof fn joining_makes_the_session_ready(
    conn: ConnView,
    payload: PayloadView,
    decoded: Decoded,
)
    requires
        !conn.stopped,
        payload.name == "joinProjectResponse"@ || payload.name == "connectionRejected"@,
    ensures
        ({
            let next = after_event(conn, payload, decoded);
            let joins = payload.name == "joinProjectResponse"@;
            let read = decoded.join matches Some(Ok(args)) && join_result(args.project) is Ok;
            &&& joins && read ==> next.conn == (ConnView {
                tree: Some(join_result(decoded.join->0->Ok_0.project)->Ok_0),
                tree_dirty: false,
                phase: PhaseView::Ready,
                public_id: opt_text(decoded.join->0->Ok_0.public_id),
                ..conn
            }) && next.action == ActionView::Ready && next.settled.len() == 0
            &&& !joins || !read ==> next.conn.stopped && next.conn.phase is Dead && next.action
                is Closed
        }),
{
    reveal_strlit("joinProjectResponse");
    reveal_strlit("connectionRejected");
    assert("joinProjectResponse"@[0] == 'j');
    assert("connectionRejected"@[0] == 'c');
}

/// What a frame asks for: a heartbeat is answered, an ack is handed on with its
/// number and arguments, an error or a disconnect ends the session, and neither
/// a connect, nor a message, nor a filler does anything.
pub proof fn frames_ask_for_what_they_are(
    conn: ConnView,
    decoded: Decoded,
    id: u64,
    args: Seq<ArgView>,
    text: Seq<char>,
    arg: ArgView,
)
    requires
        !conn.stopped,
    ensures
        after_frame(conn, FrameView::Heartbeat, decoded) == (Step {
            conn,
            action: ActionView::Heartbeat,
            settled: Seq::empty(),
        }),
        after_frame(conn, FrameView::Ack { id, args }, decoded) == (Step {
            conn,
            action: ActionView::Ack { id, args },
            settled: Seq::empty(),
        }),
        after_frame(conn, FrameView::Disconnect, decoded).conn.stopped,
        after_frame(conn, FrameView::ProtoError { reason: text }, decoded).conn.stopped,
        after_frame(conn, FrameView::ProtoError { reason: text }, decoded).action
            == ActionView::Closed("socket.io error frame: "@ + text),
        after_frame(conn, FrameView::Connect, decoded) == quiet(conn),
        after_frame(conn, FrameView::Noop, decoded) == quiet(conn),
        after_frame(conn, FrameView::Message(text), decoded) == quiet(conn),
        after_frame(conn, FrameView::JsonMsg(arg), decoded) == quiet(conn),
        quiet(conn).conn == conn && quiet(conn).settled.len() == 0 && quiet(conn).action
            == ActionView::Idle,
{
}

/// An event of any other name changes nothing.
pub proof fn other_events_change_nothing(conn: ConnView, payload: PayloadView, decoded: Decoded)
    requires
        payload.name != "joinProjectResponse"@,
        payload.name != "connectionRejected"@,
        payload.name != "otUpdateApplied"@,
        payload.name != "otUpdateError"@,
        payload.name != "reciveNewDoc"@,
        payload.name != "reciveNewFile"@,
        payload.name != "reciveNewFolder"@,
        payload.name != "removeEntity"@,
        payload.name != "reciveEntityRename"@,
        payload.name != "reciveEntityMove"@,
    ensures
        after_event(conn, payload, decoded).conn == conn,
        after_event(conn, payload, decoded).settled.len() == 0,
        after_event(conn, payload, decoded).action == ActionView::Idle,
{
}

/// Updates and refusals are taken in as such: an update that could be read
/// bears on its document, and a refusal is heard in any case.
pub proof fn updates_and_refusals_are_heard(
    conn: ConnView,
    payload: PayloadView,
    decoded: Decoded,
)
    ensures
        payload.name == "otUpdateApplied"@ && decoded.update is Some ==> after_event(
            conn,
            payload,
            decoded,
        ) == updated(conn, decoded.update->0@),
        payload.name == "otUpdateError"@ ==> after_event(conn, payload, decoded) == refused(
            conn,
            payload.args,
        ),
{
    reveal_strlit("joinProjectResponse");
    reveal_strlit("connectionRejected");
    reveal_strlit("otUpdateApplied");
    reveal_strlit("otUpdateError");
    assert("joinProjectResponse"@[0] == 'j');
    assert("connectionRejected"@[0] == 'c');
    assert("otUpdateApplied"@[0] == 'o');
    assert("otUpdateError"@[0] == 'o');
    assert("otUpdateApplied"@[8] == 'A');
    assert("otUpdateError"@[8] == 'E');
}

/// When a session ends, every edit in flight is told so, with the reason.
pub proof fn every_edit_in_flight_is_told_of_the_end(
    ids: Seq<Seq<char>>,
    docs: Map<Seq<char>, ShadowView>,
    reason: Seq<char>,
    i: int,
    ticket: u64,
)
    requires
        0 <= i < ids.len(),
        docs[ids[i]].in_flight == Some(ticket),
    ensures
        failures(ids, docs, reason).contains(SettledView { ticket, outcome: Err(reason) }),
    decreases ids.len(),
{
    let notice = SettledView { ticket, outcome: Err(reason) };
    let before = failures(ids.drop_last(), docs, reason);
    let all = failures(ids, docs, reason);
    if i == ids.len() - 1 {
        assert(all[before.len() as int] == notice);
    } else {
        every_edit_in_flight_is_told_of_the_end(ids.drop_last(), docs, reason, i, ticket);
        assert(all[before.index_of(notice)] == notice);
    }
}

/// The edit that a refusal ends is told the server's message, or what the server
/// sent where that is no message. The document is the one that the second
/// argument names.
pub proof fn refusal_hands_on_the_message(
    conn: ConnView,
    args: Seq<ArgView>,
    id: Seq<char>,
    ticket: u64,
)
    requires
        args.len() > 1,
        text_field(args[1].body, "doc"@) == Some(id),
        conn.docs.contains_key(id),
        conn.docs[id].in_flight == Some(ticket),
    ensures
        refused(conn, args).settled == seq![
            SettledView {
                ticket,
                outcome: Err(
                    match text_field(args[0].body, "message"@) {
                        Some(message) => message,
                        None => args[0].text,
                    },
                ),
            },
        ],
        refused(conn, args).conn.docs[id].dirty,
{
}

/// A session that ends over its project says why it could not be read.
pub proof fn unreadable_project_is_named_as_the_reason(
    conn: ConnView,
    payload: PayloadView,
    decoded: Decoded,
)
    requires
        !conn.stopped,
        payload.name == "joinProjectResponse"@,
    ensures
        decoded.join is None ==> after_event(conn, payload, decoded).action == ActionView::Closed(
            "bad joinProjectResponse: "@ + "missing args"@,
        ),
        decoded.join matches Some(Err(e)) ==> after_event(conn, payload, decoded).action
            == ActionView::Closed("bad joinProjectResponse: "@ + e@),
        decoded.join is Some && decoded.join->0 is Ok && decoded.join->0->Ok_0.project.root_folder@.len()
            == 0 ==> after_event(conn, payload, decoded).conn.stopped,
{
}

} // verus!
