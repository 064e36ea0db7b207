//! Making sure that a folder exists.
use vstd::prelude::*;

use crate::error::{ErrorView, OverleafError};
use crate::order::precedes;
use crate::pieces::joined;
use crate::project::{
    entity_at, every_path_leads_to_an_entity, folder_at, found_at, kind_word, lemma_entity_at,
    normalized, normalizing_twice_is_normalizing_once, path_in, path_is_found_within_the_tree,
    path_names, plain_name, slash_path, slash_path_keeps_plain_names, trail, EntityKind,
    EntityRefJson, Nodes, ProjectTree, TreeView,
};
use crate::text::texts;
use crate::tree::{
    lemma_slash_path_grows, lemma_trail_is_not_empty, new_entity_is_found_in_its_folder, with_node,
};

verus! {

/// A walk along the folders of a path, which creates those that are missing.
pub struct FolderWalk {
    /// The tree with the folders that were created so far.
    pub tree: ProjectTree,
    /// The names along the path.
    pub names: Vec<String>,
    /// How many of them were walked.
    pub done: usize,
    /// The path of the folder that was reached; empty for the root folder.
    pub path: String,
    /// Its id.
    pub folder_id: String,
}

/// What a walk needs next.
#[derive(Debug)]
pub enum WalkStep {
    /// The folder exists; this is its id.
    Done(String),
    /// A folder is missing and has to be created.
    Create { parent_id: String, name: String },
    /// The path cannot be a folder.
    Fail(OverleafError),
}

/// What a walk needs next, as plain values.
pub enum WalkView {
    Done(Seq<char>),
    Create { parent_id: Seq<char>, name: Seq<char> },
    Fail(ErrorView),
}

impl View for WalkStep {
    type V = WalkView;

    open spec fn view(&self) -> WalkView {
        match *self {
            WalkStep::Done(id) => WalkView::Done(id@),
            WalkStep::Create { parent_id, name } => WalkView::Create {
                parent_id: parent_id@,
                name: name@,
            },
            WalkStep::Fail(e) => WalkView::Fail(e@),
        }
    }
}

/// Where a walk along `names` stands.
pub struct WalkState {
    pub tree: TreeView,
    pub names: Seq<Seq<char>>,
    pub done: int,
    pub folder_id: Seq<char>,
}

impl FolderWalk {
    /// Where this walk stands.
    pub open spec fn state(self) -> WalkState {
        WalkState {
            tree: self.tree@,
            names: texts(self.names@),
            done: self.done as int,
            folder_id: self.folder_id@,
        }
    }

    /// Whether the walk is within its path, and the path is made of plain
    /// names.
    pub open spec fn valid(self) -> bool {
        &&& self.done <= self.names@.len()
        &&& forall|i: int|
            0 <= i < self.names@.len() ==> plain_name((#[trigger] texts(self.names@)[i]))
        &&& self.path@ == walked_path(texts(self.names@).take(self.done as int))
    }
}

/// The path of the folder behind some names; empty for the root folder.
pub open spec fn walked_path(names: Seq<Seq<char>>) -> Seq<char> {
    if names.len() == 0 {
        Seq::empty()
    } else {
        slash_path(names)
    }
}

/// The error for a path that something other than a folder stands on.
pub open spec fn not_a_folder(path: Seq<char>, kind: EntityKind) -> ErrorView {
    ErrorView::Edit(path + " exists and is a "@ + kind_word(kind) + ", not a folder"@)
}

/// Where a walk gets on its own, and what it needs there.
pub open spec fn walked(state: WalkState) -> (WalkState, WalkView)
    decreases state.names.len() - state.done,
{
    if state.done < 0 || state.done >= state.names.len() {
        (state, WalkView::Done(state.folder_id))
    } else {
        let path = slash_path(state.names.take(state.done + 1));
        match entity_at(state.tree.nodes, path) {
            Some((id, EntityKind::Folder)) => walked(
                WalkState { done: state.done + 1, folder_id: id, ..state },
            ),
            Some((_, kind)) => (state, WalkView::Fail(not_a_folder(path, kind))),
            None => (
                state,
                WalkView::Create {
                    parent_id: state.folder_id,
                    name: state.names[state.done],
                },
            ),
        }
    }
}

/// The beginning of a walk.
pub open spec fn walk_begun(tree: TreeView, path: Seq<char>) -> WalkState {
    WalkState {
        tree,
        names: path_names(path),
        done: 0,
        folder_id: tree.root_folder_id,
    }
}

/// The first step of a walk: a folder that exists is found at once.
pub open spec fn first_step(tree: TreeView, path: Seq<char>) -> (WalkState, WalkView) {
    match folder_at(tree, path) {
        Some(id) => (walk_begun(tree, path), WalkView::Done(id)),
        None => walked(walk_begun(tree, path)),
    }
}

/// A walk after the folder that it asked for was created.
pub open spec fn after_creation(state: WalkState, id: Seq<char>, name: Seq<char>) -> WalkState {
    WalkState {
        tree: with_node(state.tree, id, name, EntityKind::Folder, state.folder_id),
        done: state.done + 1,
        folder_id: id,
        ..state
    }
}

/// A walk only asks for folders at whose path nothing stands, and only below
/// folders that it walked.
pub proof fn only_missing_folders_are_created(state: WalkState)
    requires
        0 <= state.done <= state.names.len(),
    ensures
        ({
            let (end, step) = walked(state);
            &&& state.done <= end.done <= end.names.len()
            &&& end.names == state.names
            &&& end.tree == state.tree
            &&& step matches WalkView::Create { parent_id, name } ==> {
                &&& end.done < end.names.len()
                &&& name == end.names[end.done]
                &&& parent_id == end.folder_id
                &&& entity_at(end.tree.nodes, slash_path(end.names.take(end.done + 1))) is None
            }
        }),
    decreases state.names.len() - state.done,
{
    if state.done < state.names.len() {
        let path = slash_path(state.names.take(state.done + 1));
        match entity_at(state.tree.nodes, path) {
            Some((id, EntityKind::Folder)) => {
                only_missing_folders_are_created(
                    WalkState { done: state.done + 1, folder_id: id, ..state },
                );
            },
            _ => {},
        }
    }
}

/// The creations along a path come to an end: each one moves the walk on.
pub proof fn each_creation_moves_on(state: WalkState, id: Seq<char>, name: Seq<char>)
    requires
        0 <= state.done < state.names.len(),
    ensures
        walked(after_creation(state, id, name)).0.done > state.done,
        walked(after_creation(state, id, name)).0.done <= state.names.len(),
{
    only_missing_folders_are_created(after_creation(state, id, name));
}

// --- where a finished walk ends ------------------------------------------

/// A folder that was created.
pub struct NewFolder {
    pub id: Seq<char>,
    pub name: Seq<char>,
}

/// Where a walk stands, and what it needs there, after the given folders were
/// created for it one after another: the first step is what `FolderWalk::begin`
/// gives, each further one what `FolderWalk::on_created` gives.
pub open spec fn walk_through(tree: TreeView, path: Seq<char>, created: Seq<NewFolder>) -> (
    WalkState,
    WalkView,
)
    decreases created.len(),
{
    if created.len() == 0 {
        first_step(tree, path)
    } else {
        let (state, _) = walk_through(tree, path, created.drop_last());
        walked(after_creation(state, created.last().id, created.last().name))
    }
}

/// Whether each of the folders was asked for by the walk, was created under the
/// name that was asked for, and has an id that was not in use.
pub open spec fn as_asked(tree: TreeView, path: Seq<char>, created: Seq<NewFolder>) -> bool
    decreases created.len(),
{
    created.len() == 0 || {
        let (state, step) = walk_through(tree, path, created.drop_last());
        let new = created.last();
        &&& as_asked(tree, path, created.drop_last())
        &&& step matches WalkView::Create { name, .. } && new.name == name
        &&& !state.tree.nodes.contains_key(new.id)
        &&& new.id != tree.root_folder_id
    }
}

/// Whether no entity lies in a folder of that id.
pub open spec fn is_empty_folder(tree: TreeView, id: Seq<char>) -> bool {
    forall|other: Seq<char>| #[trigger]
        tree.nodes.contains_key(other) ==> tree.nodes[other].parent != Some(id)
}

/// Whether nothing lay in any of the folders before they were created.
pub open spec fn all_empty(tree: TreeView, path: Seq<char>, created: Seq<NewFolder>) -> bool
    decreases created.len(),
{
    created.len() == 0 || {
        let (state, _) = walk_through(tree, path, created.drop_last());
        &&& all_empty(tree, path, created.drop_last())
        &&& is_empty_folder(state.tree, created.last().id)
    }
}

/// How many of the first `n` names lead to nothing.
pub open spec fn missing(tree: TreeView, names: Seq<Seq<char>>, n: int) -> nat
    decreases n,
{
    if n <= 0 {
        0
    } else {
        missing(tree, names, n - 1) + if entity_at(tree.nodes, slash_path(names.take(n))) is None {
            1nat
        } else {
            0nat
        }
    }
}

/// How many folders have to be created for a path.
pub open spec fn needed(tree: TreeView, path: Seq<char>) -> nat {
    if folder_at(tree, path) is Some {
        0
    } else {
        missing(tree, path_names(path), path_names(path).len() as int)
    }
}

/// Whether a walk stands in the folder behind the names that it walked. The root
/// folder is no entity of the tree.
pub open spec fn on_track(state: WalkState) -> bool {
    &&& state.tree.nodes.dom().finite()
    &&& !state.tree.nodes.contains_key(state.tree.root_folder_id)
    &&& 0 <= state.done <= state.names.len()
    &&& if state.done == 0 {
        state.folder_id == state.tree.root_folder_id
    } else {
        entity_at(state.tree.nodes, slash_path(state.names.take(state.done))) == Some(
            (state.folder_id, EntityKind::Folder),
        )
    }
}

proof fn lemma_stays_on_track(state: WalkState)
    requires
        on_track(state),
    ensures
        on_track(walked(state).0),
        walked(state).1 matches WalkView::Done(id) ==> walked(state).0.done == state.names.len()
            && id == walked(state).0.folder_id,
    decreases state.names.len() - state.done,
{
    if state.done < state.names.len() {
        let path = slash_path(state.names.take(state.done + 1));
        if let Some((id, EntityKind::Folder)) = entity_at(state.tree.nodes, path) {
            lemma_stays_on_track(WalkState { done: state.done + 1, folder_id: id, ..state });
        }
    }
}

proof fn lemma_slash_path_longer(names: Seq<Seq<char>>, k: int)
    requires
        0 < k < names.len(),
    ensures
        slash_path(names.take(k)).len() < slash_path(names).len(),
    decreases names.len(),
{
    reveal_strlit("/");
    let short = names.drop_last();
    assert(short.push(names.last()) =~= names);
    lemma_slash_path_grows(short, names.last());
    if k < short.len() {
        assert(short.take(k) =~= names.take(k));
        lemma_slash_path_longer(short, k);
    } else {
        assert(names.take(k) =~= short);
    }
}

/// What has a path only since `id` was added lies below `id`.
proof fn lemma_trail_with_new(before: Nodes, now: Nodes, id: Seq<char>, other: Seq<char>, fuel: nat)
    requires
        !before.contains_key(id),
        now == before.insert(id, now[id]),
        other != id,
        trail(now, other, fuel) is Some,
    ensures
        trail(before, other, fuel) == trail(now, other, fuel) || exists|less: nat|
            {
                &&& less <= fuel
                &&& (#[trigger] trail(now, id, less)) is Some
                &&& trail(now, id, less)->0.len() < trail(now, other, fuel)->0.len()
                &&& trail(now, id, less)->0 == trail(now, other, fuel)->0.take(
                    trail(now, id, less)->0.len() as int,
                )
            },
    decreases fuel,
{
    let names = trail(now, other, fuel)->0;
    if let Some(parent) = now[other].parent {
        let up = (fuel - 1) as nat;
        let above = trail(now, parent, up)->0;
        assert(names == above.push(now[other].name));
        if parent == id {
            assert(names.take(above.len() as int) =~= above);
            assert(trail(now, id, up) is Some);
        } else {
            lemma_trail_with_new(before, now, id, parent, up);
            if trail(before, parent, up) != trail(now, parent, up) {
                let less = choose|less: nat|
                    {
                        &&& less <= up
                        &&& (#[trigger] trail(now, id, less)) is Some
                        &&& trail(now, id, less)->0.len() < above.len()
                        &&& trail(now, id, less)->0 == above.take(
                            trail(now, id, less)->0.len() as int,
                        )
                    };
                let start = trail(now, id, less)->0;
                assert(names.take(start.len() as int) =~= above.take(start.len() as int));
            }
        }
    }
}

/// Where a new folder is created at a path with nothing on it, it is what the
/// path leads to.
proof fn lemma_creation(state: WalkState, id: Seq<char>)
    requires
        on_track(state),
        state.done < state.names.len(),
        entity_at(state.tree.nodes, slash_path(state.names.take(state.done + 1))) is None,
        !state.tree.nodes.contains_key(id),
        id != state.tree.root_folder_id,
    ensures
        on_track(after_creation(state, id, state.names[state.done])),
        path_in(after_creation(state, id, state.names[state.done]).tree.nodes, id) == Some(
            slash_path(state.names.take(state.done + 1)),
        ),
        forall|other: Seq<char>| #[trigger]
            path_in(state.tree.nodes, other) is Some ==> path_in(
                after_creation(state, id, state.names[state.done]).tree.nodes,
                other,
            ) == path_in(state.tree.nodes, other),
{
    let name = state.names[state.done];
    let walked_names = state.names.take(state.done);
    let path = slash_path(state.names.take(state.done + 1));
    let before = state.tree.nodes;
    let now = after_creation(state, id, name).tree.nodes;
    let n = before.dom().len();
    assert(now.dom() =~= before.dom().insert(id));
    assert(state.names.take(state.done + 1) =~= walked_names.push(name));
    lemma_slash_path_grows(walked_names, name);
    if state.done > 0 {
        let folder = choose|folder: Seq<char>| found_at(before, slash_path(walked_names), folder);
        assert(folder == state.folder_id);
    }
    assert forall|other: Seq<char>| #[trigger] path_in(before, other) is Some implies path_in(
        now,
        other,
    ) == path_in(before, other) by {
        new_entity_is_found_in_its_folder(
            state.tree,
            id,
            name,
            EntityKind::Folder,
            state.folder_id,
            other,
        );
    }
    new_entity_is_found_in_its_folder(
        state.tree,
        id,
        name,
        EntityKind::Folder,
        state.folder_id,
        id,
    );
    assert(path_in(now, id) == Some(path));
    assert forall|other: Seq<char>| #[trigger]
        now.contains_key(other) && path_in(now, other) == Some(path) && other
            != id implies precedes(id, other) by {
        lemma_nothing_else_there(before, now, id, other, path);
    }
    assert(found_at(now, path, id));
    lemma_entity_at(now, path, id);
}

proof fn lemma_nothing_else_there(
    before: Nodes,
    now: Nodes,
    id: Seq<char>,
    other: Seq<char>,
    path: Seq<char>,
)
    requires
        before.dom().finite(),
        !before.contains_key(id),
        now == before.insert(id, now[id]),
        path_in(now, id) == Some(path),
        entity_at(before, path) is None,
        other != id,
        now.contains_key(other),
    ensures
        path_in(now, other) != Some(path),
{
    if path_in(now, other) == Some(path) {
        let fuel = now.dom().len();
        let names = trail(now, other, fuel)->0;
        let own = trail(now, id, fuel)->0;
        assert(now.dom() =~= before.dom().insert(id));
        lemma_trail_with_new(before, now, id, other, fuel);
        if trail(before, other, fuel) == trail(now, other, fuel) {
            path_is_found_within_the_tree(before, other, fuel);
            every_path_leads_to_an_entity(before, other);
        } else {
            let less = choose|less: nat|
                {
                    &&& less <= fuel
                    &&& (#[trigger] trail(now, id, less)) is Some
                    &&& trail(now, id, less)->0.len() < names.len()
                    &&& trail(now, id, less)->0 == names.take(
                        trail(now, id, less)->0.len() as int,
                    )
                };
            path_is_found_within_the_tree(now, id, less);
            lemma_trail_is_not_empty(now, id, fuel);
            lemma_slash_path_longer(names, own.len() as int);
        }
    }
}

proof fn lemma_found_at_once(tree: TreeView, path: Seq<char>, created: Seq<NewFolder>)
    requires
        folder_at(tree, path) is Some,
        as_asked(tree, path, created),
    ensures
        created.len() == 0,
    decreases created.len(),
{
    if created.len() > 0 {
        lemma_found_at_once(tree, path, created.drop_last());
    }
}

proof fn lemma_walk_on_track(tree: TreeView, path: Seq<char>, created: Seq<NewFolder>)
    requires
        tree.nodes.dom().finite(),
        !tree.nodes.contains_key(tree.root_folder_id),
        folder_at(tree, path) is None,
        as_asked(tree, path, created),
    ensures
        ({
            let (end, step) = walk_through(tree, path, created);
            &&& on_track(end)
            &&& end.names == path_names(path)
            &&& end.tree.root_folder_id == tree.root_folder_id
            &&& step matches WalkView::Done(id) ==> end.done == end.names.len() && id
                == end.folder_id
            &&& step matches WalkView::Create { name, .. } ==> {
                &&& end.done < end.names.len()
                &&& name == end.names[end.done]
                &&& entity_at(end.tree.nodes, slash_path(end.names.take(end.done + 1))) is None
            }
            &&& forall|other: Seq<char>| #[trigger]
                path_in(tree.nodes, other) is Some ==> path_in(end.tree.nodes, other) == path_in(
                    tree.nodes,
                    other,
                )
        }),
    decreases created.len(),
{
    let start = if created.len() == 0 {
        walk_begun(tree, path)
    } else {
        let earlier = created.drop_last();
        let state = walk_through(tree, path, earlier).0;
        lemma_walk_on_track(tree, path, earlier);
        lemma_creation(state, created.last().id);
        after_creation(state, created.last().id, created.last().name)
    };
    lemma_stays_on_track(start);
    only_missing_folders_are_created(start);
}

/// A walk that comes to its end gives the id of the folder at the path that was
/// asked for, and every entity that had a path before still has it. The folders
/// that the walk asks for are taken to be created as asked, under new ids.
pub proof fn finished_walk_gives_the_folder(
    tree: TreeView,
    path: Seq<char>,
    created: Seq<NewFolder>,
)
    requires
        tree.nodes.dom().finite(),
        !tree.nodes.contains_key(tree.root_folder_id),
        as_asked(tree, path, created),
    ensures
        ({
            let (end, step) = walk_through(tree, path, created);
            &&& step matches WalkView::Done(id) ==> folder_at(end.tree, path) == Some(id)
            &&& forall|other: Seq<char>| #[trigger]
                path_in(tree.nodes, other) is Some ==> path_in(end.tree.nodes, other) == path_in(
                    tree.nodes,
                    other,
                )
        }),
{
    if folder_at(tree, path) is Some {
        lemma_found_at_once(tree, path, created);
    } else {
        lemma_walk_on_track(tree, path, created);
        let (end, step) = walk_through(tree, path, created);
        assert(end.names.take(end.names.len() as int) =~= end.names);
    }
}

/// A new folder with nothing in it changes what its own path leads to, and
/// nothing else.
proof fn lemma_other_paths_stay(state: WalkState, id: Seq<char>, path: Seq<char>)
    requires
        on_track(state),
        state.done < state.names.len(),
        entity_at(state.tree.nodes, slash_path(state.names.take(state.done + 1))) is None,
        !state.tree.nodes.contains_key(id),
        id != state.tree.root_folder_id,
        is_empty_folder(state.tree, id),
        path != slash_path(state.names.take(state.done + 1)),
    ensures
        entity_at(after_creation(state, id, state.names[state.done]).tree.nodes, path) == entity_at(
            state.tree.nodes,
            path,
        ),
{
    let before = state.tree.nodes;
    let now = after_creation(state, id, state.names[state.done]).tree.nodes;
    lemma_creation(state, id);
    assert(now.dom() =~= before.dom().insert(id));
    assert forall|other: Seq<char>| other != id implies #[trigger] path_in(now, other) == path_in(
        before,
        other,
    ) by {
        if path_in(now, other) is Some {
            let fuel = now.dom().len();
            lemma_trail_apart(before, now, id, other, fuel);
            path_is_found_within_the_tree(before, other, fuel);
        } else if path_in(before, other) is Some {
            assert(path_in(now, other) == path_in(before, other));
        }
    }
    assert forall|x: Seq<char>| #[trigger] found_at(now, path, x) <==> found_at(before, path, x) by {
        assert(x != id ==> path_in(now, x) == path_in(before, x));
        if found_at(now, path, x) {
            assert forall|other: Seq<char>| #[trigger]
                before.contains_key(other) && path_in(before, other) == Some(path) && other
                    != x implies precedes(x, other) by {
                assert(now.contains_key(other));
                assert(path_in(now, other) == path_in(before, other));
            }
        }
        if found_at(before, path, x) {
            assert forall|other: Seq<char>| #[trigger]
                now.contains_key(other) && path_in(now, other) == Some(path) && other
                    != x implies precedes(x, other) by {
                assert(other != id);
                assert(path_in(now, other) == path_in(before, other));
                assert(before.contains_key(other));
            }
        }
    }
    if exists|x: Seq<char>| found_at(before, path, x) {
        let x = choose|x: Seq<char>| found_at(before, path, x);
        assert(found_at(now, path, x));
        lemma_entity_at(before, path, x);
        lemma_entity_at(now, path, x);
    } else if exists|x: Seq<char>| found_at(now, path, x) {
        let x = choose|x: Seq<char>| found_at(now, path, x);
        assert(found_at(before, path, x));
    }
}

proof fn lemma_trail_apart(before: Nodes, now: Nodes, id: Seq<char>, other: Seq<char>, fuel: nat)
    requires
        now == before.insert(id, now[id]),
        forall|x: Seq<char>| #[trigger]
            before.contains_key(x) ==> before[x].parent != Some(id),
        other != id,
        trail(now, other, fuel) is Some,
    ensures
        trail(before, other, fuel) == trail(now, other, fuel),
    decreases fuel,
{
    assert(before.contains_key(other));
    if let Some(parent) = now[other].parent {
        lemma_trail_apart(before, now, id, parent, (fuel - 1) as nat);
    }
}

/// Whether a walk sees the rest of its way as it was in `tree`.
spec fn sees_the_rest(tree: TreeView, state: WalkState) -> bool {
    forall|k: int|
        state.done < k <= state.names.len() ==> entity_at(
            state.tree.nodes,
            slash_path(#[trigger] state.names.take(k)),
        ) == entity_at(tree.nodes, slash_path(state.names.take(k)))
}

proof fn lemma_walking_misses_nothing(tree: TreeView, state: WalkState)
    requires
        0 <= state.done <= state.names.len(),
        sees_the_rest(tree, state),
    ensures
        sees_the_rest(tree, walked(state).0),
        missing(tree, state.names, walked(state).0.done) == missing(tree, state.names, state.done),
    decreases state.names.len() - state.done,
{
    if state.done < state.names.len() {
        let path = slash_path(state.names.take(state.done + 1));
        if let Some((id, EntityKind::Folder)) = entity_at(state.tree.nodes, path) {
            let next = WalkState { done: state.done + 1, folder_id: id, ..state };
            assert(sees_the_rest(tree, next));
            lemma_walking_misses_nothing(tree, next);
        }
    }
}

proof fn lemma_creations_are_counted(tree: TreeView, path: Seq<char>, created: Seq<NewFolder>)
    requires
        tree.nodes.dom().finite(),
        !tree.nodes.contains_key(tree.root_folder_id),
        folder_at(tree, path) is None,
        as_asked(tree, path, created),
        all_empty(tree, path, created),
    ensures
        ({
            let end = walk_through(tree, path, created).0;
            &&& sees_the_rest(tree, end)
            &&& created.len() == missing(tree, path_names(path), end.done)
        }),
    decreases created.len(),
{
    let start = if created.len() == 0 {
        walk_begun(tree, path)
    } else {
        let earlier = created.drop_last();
        let id = created.last().id;
        let state = walk_through(tree, path, earlier).0;
        lemma_walk_on_track(tree, path, earlier);
        lemma_creations_are_counted(tree, path, earlier);
        let next = after_creation(state, id, created.last().name);
        let here = state.names.take(state.done + 1);
        assert forall|k: int| next.done < k <= next.names.len() implies entity_at(
            next.tree.nodes,
            slash_path(#[trigger] next.names.take(k)),
        ) == entity_at(tree.nodes, slash_path(next.names.take(k))) by {
            let there = state.names.take(k);
            assert(there.take(state.done + 1) =~= here);
            lemma_slash_path_longer(there, state.done + 1);
            lemma_other_paths_stay(state, id, slash_path(there));
        }
        next
    };
    lemma_walking_misses_nothing(tree, start);
}

/// A walk that comes to its end had one folder created for every name on its
/// way that led to nothing, and none where the folder existed from the start.
/// The folders are taken to be created as asked, under ids that nothing in the
/// tree refers to.
pub proof fn one_folder_is_created_for_each_missing_name(
    tree: TreeView,
    path: Seq<char>,
    created: Seq<NewFolder>,
)
    requires
        tree.nodes.dom().finite(),
        !tree.nodes.contains_key(tree.root_folder_id),
        as_asked(tree, path, created),
        all_empty(tree, path, created),
    ensures
        walk_through(tree, path, created).1 is Done ==> created.len() == needed(tree, path),
{
    if folder_at(tree, path) is Some {
        lemma_found_at_once(tree, path, created);
    } else {
        lemma_walk_on_track(tree, path, created);
        lemma_creations_are_counted(tree, path, created);
    }
}

impl FolderWalk {
    /// Begins a walk along a path.
    pub fn begin(tree: &ProjectTree, folder_path: &str) -> (walk: (FolderWalk, WalkStep))
        ensures
            walk.0.valid(),
            (walk.0.state(), walk.1@) == first_step(tree@, folder_path@),
    {
        let names = ProjectTree::split_path(folder_path);
        proof {
            normalizing_twice_is_normalizing_once(folder_path@);
            assert(texts(names@).take(0) =~= Seq::<Seq<char>>::empty());
        }
        let path = String::new();
        assert(path@ =~= Seq::<char>::empty());
        let mut walk = FolderWalk {
            folder_id: tree.root_folder_id.clone(),
            tree: tree.clone(),
            names,
            done: 0,
            path,
        };
        match walk.tree.folder_id_of(folder_path) {
            Some(id) => (walk, WalkStep::Done(id)),
            None => {
                let step = walk.go_on();
                (walk, step)
            },
        }
    }

    /// Walks on as far as the folders exist.
    fn go_on(&mut self) -> (step: WalkStep)
        requires
            old(self).valid(),
        ensures
            final(self).valid(),
            (final(self).state(), step@) == walked(old(self).state()),
    {
        let ghost names = texts(self.names@);
        while self.done < self.names.len()
            invariant
                self.valid(),
                names == texts(self.names@),
                names == texts(old(self).names@),
                walked(self.state()) == walked(old(self).state()),
            decreases self.names@.len() - self.done,
        {
            let ghost before = *self;
            let mut path = self.path.clone();
            path.append("/");
            path.append(self.names[self.done].as_str());
            proof {
                let now = names.take(self.done + 1);
                assert(now.drop_last() =~= names.take(self.done as int));
                assert(path@ == slash_path(now)) by {
                    if self.done == 0 {
                        assert(now =~= seq![names[0]]);
                        assert(joined(now, "/"@) == names[0]);
                        assert(path@ =~= "/"@ + names[0]);
                    } else {
                        assert(path@ =~= "/"@ + joined(now, "/"@));
                    }
                }
                assert forall|i: int| 0 <= i < now.len() implies plain_name(#[trigger] now[i]) by {
                    assert(plain_name(names[i]));
                }
                slash_path_keeps_plain_names(now);
                assert(normalized(path@) == path@);
            }
            match self.tree.lookup(path.as_str()) {
                Some((id, EntityKind::Folder)) => {
                    self.folder_id = id;
                    self.path = path;
                    self.done = self.done + 1;
                },
                Some((_, kind)) => {
                    let mut text = path.clone();
                    text.append(" exists and is a ");
                    text.append(kind.describe());
                    text.append(", not a folder");
                    return WalkStep::Fail(OverleafError::Edit(text));
                },
                None => {
                    return WalkStep::Create {
                        parent_id: self.folder_id.clone(),
                        name: self.names[self.done].clone(),
                    };
                },
            }
        }
        WalkStep::Done(self.folder_id.clone())
    }

    /// Takes in the folder that was created, and walks on.
    pub fn on_created(&mut self, created: EntityRefJson) -> (step: WalkStep)
        requires
            old(self).valid(),
            old(self).done < old(self).names@.len(),
        ensures
            final(self).valid(),
            (final(self).state(), step@) == walked(
                after_creation(old(self).state(), created.id@, created.name@),
            ),
    {
        let ghost names = texts(self.names@);
        let n: usize = self.names.len();
        assert(self.done < n);
        let id = created.id.clone();
        let mut path = self.path.clone();
        path.append("/");
        path.append(self.names[self.done].as_str());
        proof {
            let now = names.take(self.done + 1);
            assert(now.drop_last() =~= names.take(self.done as int));
            if self.done == 0 {
                assert(now =~= seq![names[0]]);
                assert(joined(now, "/"@) == names[0]);
                assert(path@ =~= slash_path(now));
            } else {
                assert(path@ =~= slash_path(now));
            }
        }
        self.tree.insert_node(id, created.name, EntityKind::Folder, self.folder_id.as_str());
        self.folder_id = created.id;
        self.path = path;
        self.done = self.done + 1;
        self.go_on()
    }
}

/// A walk goes through every folder that is there, asks for the first one that
/// is missing, and fails only where something stands that is no folder. It is
/// done when it has gone through all of them.
pub proof fn walk_stops_at_what_is_no_folder(state: WalkState)
    requires
        0 <= state.done <= state.names.len(),
    ensures
        state.done == state.names.len() ==> walked(state).1 == WalkView::Done(state.folder_id),
        state.done < state.names.len() ==> match entity_at(
            state.tree.nodes,
            slash_path(state.names.take(state.done + 1)),
        ) {
            Some((id, EntityKind::Folder)) => walked(state) == walked(
                WalkState { done: state.done + 1, folder_id: id, ..state },
            ),
            Some(_) => walked(state).1 is Fail,
            None => walked(state) == (
                state,
                WalkView::Create { parent_id: state.folder_id, name: state.names[state.done] },
            ),
        },
        walked(state).1 is Fail ==> walked(state).0.done < state.names.len() && (entity_at(
            state.tree.nodes,
            slash_path(state.names.take(walked(state).0.done + 1)),
        ) matches Some((_, kind)) && kind != EntityKind::Folder),
        walked(state).1 is Done ==> walked(state).0.done == state.names.len(),
    decreases state.names.len() - state.done,
{
    if state.done < state.names.len() {
        if let Some((id, EntityKind::Folder)) = entity_at(
            state.tree.nodes,
            slash_path(state.names.take(state.done + 1)),
        ) {
            walk_stops_at_what_is_no_folder(
                WalkState { done: state.done + 1, folder_id: id, ..state },
            );
        }
    }
}

/// A folder that is there is found without a walk; otherwise the walk goes along
/// the names of the path from the root folder on.
pub proof fn folders_that_exist_are_found_at_once(tree: TreeView, path: Seq<char>)
    ensures
        folder_at(tree, path) matches Some(id) ==> first_step(tree, path).1 == WalkView::Done(id),
        folder_at(tree, path) is None ==> first_step(tree, path) == walked(
            WalkState {
                tree,
                names: path_names(path),
                done: 0,
                folder_id: tree.root_folder_id,
            },
        ),
{
}

} // verus!
