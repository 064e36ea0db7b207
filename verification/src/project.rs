//! Projects and their file trees.
use vstd::prelude::*;

use crate::order::{
    ascending, ascending_list_is_unique, comes_before, finite_sets_are_listed, precedes, precedes_asymmetric,
    precedes_irreflexive, precedes_total, precedes_transitive,
};
use crate::pieces::{
    join, joined, joined_from_the_front, lists_are_joined_piece_by_piece, split, split_on,
    split_pieces_are_free_of_the_separator, split_restores_join, texts_are_split_piece_by_piece,
};
use crate::table::{
    in_order, in_order_is_duplicate_free, listed_keys_are_counted, lists_keys, Table,
};
use crate::text::{
    clone_opt, opt_text, same_text, texts, trim, trimmed, trimmed_is_the_inner_stretch,
    trimming_twice_is_trimming_once,
};

verus! {

// --- what the server reports ---------------------------------------------

/// A project as the project list shows it.
#[derive(Debug)]
pub struct ProjectInfo {
    pub id: String,
    pub name: String,
    pub access_level: Option<String>,
}

/// A project as plain values.
pub struct ProjectView {
    pub id: Seq<char>,
    pub name: Seq<char>,
    pub access_level: Option<Seq<char>>,
}

impl View for ProjectInfo {
    type V = ProjectView;

    open spec fn view(&self) -> ProjectView {
        ProjectView {
            id: self.id@,
            name: self.name@,
            access_level: opt_text(self.access_level),
        }
    }
}

impl Clone for ProjectInfo {
    fn clone(&self) -> (copy: Self)
        ensures
            copy@ == self@,
    {
        ProjectInfo {
            id: self.id.clone(),
            name: self.name.clone(),
            access_level: clone_opt(&self.access_level),
        }
    }
}

/// Projects as plain values.
pub open spec fn project_views(list: Seq<ProjectInfo>) -> Seq<ProjectView> {
    Seq::new(list.len(), |i: int| list[i]@)
}

/// The projects that an account can access.
#[derive(Debug)]
pub struct ProjectList {
    pub projects: Vec<ProjectInfo>,
}

/// The first argument of the `joinProjectResponse` event.
#[derive(Debug)]
pub struct JoinProjectArgs {
    pub public_id: Option<String>,
    pub project: JoinedProject,
    pub permissions_level: Option<String>,
    pub protocol_version: Option<i64>,
}

/// A project as the realtime service describes it on joining.
#[derive(Debug)]
pub struct JoinedProject {
    pub id: String,
    pub name: String,
    pub root_doc_id: Option<String>,
    pub root_folder: Vec<FolderJson>,
    pub compiler: Option<String>,
}

/// A folder with all that it holds.
#[derive(Debug)]
pub struct FolderJson {
    pub id: String,
    pub name: String,
    pub folders: Vec<FolderJson>,
    pub docs: Vec<EntityRefJson>,
    pub file_refs: Vec<EntityRefJson>,
}

/// A doc or file by its id and name.
#[derive(Debug)]
pub struct EntityRefJson {
    pub id: String,
    pub name: String,
}

/// The answer to an upload.
#[derive(Debug)]
pub struct UploadResponse {
    pub success: bool,
    pub entity_id: Option<String>,
    pub entity_type: Option<String>,
}

/// The kinds of entities in a project.
#[derive(Debug, Clone, Copy, PartialEq, Eq, PartialOrd, Ord, Structural)]
pub enum EntityKind {
    Doc,
    File,
    Folder,
}

/// The word for a kind of entity.
pub open spec fn kind_word(kind: EntityKind) -> Seq<char> {
    match kind {
        EntityKind::Doc => "doc"@,
        EntityKind::File => "file"@,
        EntityKind::Folder => "folder"@,
    }
}

impl EntityKind {
    /// The path segment of the web routes for this kind.
    pub fn route_segment(self) -> (word: &'static str)
        ensures
            word@ == kind_word(self),
    {
        match self {
            EntityKind::Doc => "doc",
            EntityKind::File => "file",
            EntityKind::Folder => "folder",
        }
    }

    /// The word for this kind.
    pub fn describe(self) -> (word: &'static str)
        ensures
            word@ == kind_word(self),
    {
        match self {
            EntityKind::Doc => "doc",
            EntityKind::File => "file",
            EntityKind::Folder => "folder",
        }
    }
}

// --- the tree ------------------------------------------------------------

/// An entity of a tree. `parent` is the id of the folder that holds it, or
/// `None` for the root folder.
#[derive(Debug)]
pub struct TreeNode {
    pub name: String,
    pub kind: EntityKind,
    pub parent: Option<String>,
}

/// An entity as plain values.
pub struct NodeView {
    pub name: Seq<char>,
    pub kind: EntityKind,
    pub parent: Option<Seq<char>>,
}

impl View for TreeNode {
    type V = NodeView;

    open spec fn view(&self) -> NodeView {
        NodeView { name: self.name@, kind: self.kind, parent: opt_text(self.parent) }
    }
}

/// The entities of a tree by their ids.
pub type Nodes = Map<Seq<char>, NodeView>;

/// A flat view of a project's files, keyed by entity id. Paths are computed on
/// demand by walking up the parents, so that renaming, moving and removing are
/// simple changes of single entries.
pub struct ProjectTree {
    pub project_id: String,
    pub project_name: String,
    pub root_folder_id: String,
    pub root_doc_id: Option<String>,
    pub compiler: Option<String>,
    pub nodes: Table<TreeNode>,
}

/// A tree as plain values.
pub struct TreeView {
    pub project_id: Seq<char>,
    pub project_name: Seq<char>,
    pub root_folder_id: Seq<char>,
    pub root_doc_id: Option<Seq<char>>,
    pub compiler: Option<Seq<char>>,
    pub nodes: Nodes,
}

impl View for ProjectTree {
    type V = TreeView;

    open spec fn view(&self) -> TreeView {
        TreeView {
            project_id: self.project_id@,
            project_name: self.project_name@,
            root_folder_id: self.root_folder_id@,
            root_doc_id: opt_text(self.root_doc_id),
            compiler: opt_text(self.compiler),
            nodes: self.nodes@,
        }
    }
}

// --- paths ---------------------------------------------------------------

/// The pieces of a path that name something: white space around a piece does
/// not count, and neither do empty pieces and `.`.
pub open spec fn named_pieces(parts: Seq<Seq<char>>) -> Seq<Seq<char>>
    decreases parts.len(),
{
    if parts.len() == 0 {
        Seq::empty()
    } else {
        let before = named_pieces(parts.drop_last());
        let piece = trimmed(parts.last());
        if piece.len() == 0 || piece == "."@ {
            before
        } else {
            before.push(piece)
        }
    }
}

/// The names along a path.
pub open spec fn path_names(path: Seq<char>) -> Seq<Seq<char>> {
    named_pieces(split_on(path, '/'))
}

/// The path with the given names, in the form `/a/b/c`.
pub open spec fn slash_path(names: Seq<Seq<char>>) -> Seq<char> {
    "/"@ + joined(names, "/"@)
}

/// A path in the form `/a/b/c`.
pub open spec fn normalized(path: Seq<char>) -> Seq<char> {
    slash_path(path_names(path))
}

/// The names from the root folder down to an entity; none when it or a folder
/// above it is missing, or when `fuel` steps do not reach the root.
pub open spec fn trail(nodes: Nodes, id: Seq<char>, fuel: nat) -> Option<Seq<Seq<char>>>
    decreases fuel,
{
    if fuel == 0 || !nodes.contains_key(id) {
        None
    } else {
        match nodes[id].parent {
            None => Some(seq![nodes[id].name]),
            Some(parent) => match trail(nodes, parent, (fuel - 1) as nat) {
                Some(names) => Some(names.push(nodes[id].name)),
                None => None,
            },
        }
    }
}

/// The path of an entity; none when it or a folder above it is missing, or
/// when the folders above it never lead to the root. As many steps as there
/// are entities are always enough (`path_is_found_within_the_tree`).
pub open spec fn path_in(nodes: Nodes, id: Seq<char>) -> Option<Seq<char>> {
    match trail(nodes, id, nodes.dom().len()) {
        Some(names) => Some(slash_path(names)),
        None => None,
    }
}

pub(crate) proof fn lemma_trail_more_fuel(nodes: Nodes, id: Seq<char>, fuel: nat, more: nat)
    requires
        trail(nodes, id, fuel) is Some,
        fuel <= more,
    ensures
        trail(nodes, id, more) == trail(nodes, id, fuel),
    decreases fuel,
{
    match nodes[id].parent {
        None => {},
        Some(parent) => {
            lemma_trail_more_fuel(nodes, parent, (fuel - 1) as nat, (more - 1) as nat);
        },
    }
}

/// A trail that never comes by `gone` needs no entry for it.
proof fn lemma_trail_without(nodes: Nodes, id: Seq<char>, fuel: nat, gone: Seq<char>)
    requires
        trail(nodes, id, fuel) is Some,
        forall|less: nat| less <= fuel ==> (#[trigger] trail(nodes, gone, less)) is None,
    ensures
        trail(nodes.remove(gone), id, fuel) == trail(nodes, id, fuel),
    decreases fuel,
{
    assert(id != gone) by {
        assert(trail(nodes, gone, fuel) is None);
    }
    match nodes[id].parent {
        None => {},
        Some(parent) => {
            lemma_trail_without(nodes, parent, (fuel - 1) as nat, gone);
        },
    }
}

pub(crate) proof fn lemma_trail_wider(small: Nodes, nodes: Nodes, id: Seq<char>, fuel: nat)
    requires
        trail(small, id, fuel) is Some,
        forall|k: Seq<char>|
            #[trigger] small.contains_key(k) ==> nodes.contains_key(k) && nodes[k] == small[k],
    ensures
        trail(nodes, id, fuel) == trail(small, id, fuel),
    decreases fuel,
{
    match small[id].parent {
        None => {},
        Some(parent) => {
            lemma_trail_wider(small, nodes, parent, (fuel - 1) as nat);
        },
    }
}

proof fn lemma_shortest_fuel(nodes: Nodes, id: Seq<char>, fuel: nat) -> (least: nat)
    requires
        trail(nodes, id, fuel) is Some,
    ensures
        least <= fuel,
        trail(nodes, id, least) == trail(nodes, id, fuel),
        forall|less: nat| less < least ==> (#[trigger] trail(nodes, id, less)) is None,
    decreases fuel,
{
    if fuel > 0 && trail(nodes, id, (fuel - 1) as nat) is Some {
        lemma_trail_more_fuel(nodes, id, (fuel - 1) as nat, fuel);
        lemma_shortest_fuel(nodes, id, (fuel - 1) as nat)
    } else {
        assert forall|less: nat| less < fuel implies (#[trigger] trail(nodes, id, less)) is None by {
            if trail(nodes, id, less) is Some {
                lemma_trail_more_fuel(nodes, id, less, (fuel - 1) as nat);
            }
        }
        fuel
    }
}

/// A walk up the folders that reaches the root at all does so in no more steps
/// than the tree has entities.
pub proof fn path_is_found_within_the_tree(nodes: Nodes, id: Seq<char>, fuel: nat)
    requires
        nodes.dom().finite(),
        trail(nodes, id, fuel) is Some,
    ensures
        trail(nodes, id, nodes.dom().len()) == trail(nodes, id, fuel),
    decreases nodes.dom().len(),
{
    let least = lemma_shortest_fuel(nodes, id, fuel);
    let n = nodes.dom().len();
    assert(nodes.dom().contains(id));
    assert(n > 0) by {
        if n == 0 {
            assert(nodes.dom() =~= Set::empty());
        }
    }
    match nodes[id].parent {
        None => {
            assert(trail(nodes, id, 1nat) is Some);
            lemma_trail_more_fuel(nodes, id, 1, n);
            lemma_trail_more_fuel(nodes, id, 1, fuel);
        },
        Some(parent) => {
            let rest = nodes.remove(id);
            let up = (least - 1) as nat;
            assert(trail(nodes, parent, up) is Some);
            lemma_trail_without(nodes, parent, up, id);
            assert(rest.dom() =~= nodes.dom().remove(id));
            path_is_found_within_the_tree(rest, parent, up);
            assert(rest.dom().len() == n - 1);
            lemma_trail_wider(rest, nodes, parent, (n - 1) as nat);
            assert(trail(nodes, id, n) is Some);
            if n <= least {
                lemma_trail_more_fuel(nodes, id, n, least);
            } else {
                lemma_trail_more_fuel(nodes, id, least, n);
            }
        },
    }
}

/// Whether a name can stand in a path as it is: it is not empty and not `.`,
/// holds no slash, and has no white space around it.
pub open spec fn plain_name(name: Seq<char>) -> bool {
    &&& name.len() > 0
    &&& name != "."@
    &&& !name.contains('/')
    &&& trimmed(name) == name
}

proof fn lemma_named_pieces(parts: Seq<Seq<char>>)
    requires
        forall|i: int| 0 <= i < parts.len() ==> !(#[trigger] parts[i]).contains('/'),
    ensures
        forall|i: int|
            0 <= i < named_pieces(parts).len() ==> plain_name(#[trigger] named_pieces(parts)[i]),
    decreases parts.len(),
{
    if parts.len() > 0 {
        let short = parts.drop_last();
        assert forall|i: int| 0 <= i < short.len() implies !(#[trigger] short[i]).contains('/') by {
            assert(!parts[i].contains('/'));
        }
        lemma_named_pieces(short);
        let last = parts.last();
        assert(!parts[parts.len() - 1].contains('/'));
        trimming_twice_is_trimming_once(last);
        trimmed_is_the_inner_stretch(last);
        assert(!trimmed(last).contains('/')) by {
            if trimmed(last).contains('/') {
                let k = trimmed(last).index_of('/');
                let (from, to) = choose|from: int, to: int|
                    0 <= from <= to <= last.len() && trimmed(last) == #[trigger] last.subrange(
                        from,
                        to,
                    );
                assert(last[from + k] == '/');
            }
        }
        let now = named_pieces(parts);
        assert forall|i: int| 0 <= i < now.len() implies plain_name(#[trigger] now[i]) by {
            if i < named_pieces(short).len() {
                assert(plain_name(named_pieces(short)[i]));
            }
        }
    }
}

proof fn lemma_plain_names_stay(names: Seq<Seq<char>>)
    requires
        forall|i: int| 0 <= i < names.len() ==> plain_name(#[trigger] names[i]),
    ensures
        named_pieces(seq![Seq::<char>::empty()] + names) == names,
    decreases names.len(),
{
    let all = seq![Seq::<char>::empty()] + names;
    if names.len() == 0 {
        assert(all.drop_last() =~= Seq::<Seq<char>>::empty());
        assert(trimmed(all.last()) =~= Seq::<char>::empty());
        assert(named_pieces(all.drop_last()) =~= names);
    } else {
        let short = names.drop_last();
        assert forall|i: int| 0 <= i < short.len() implies plain_name(#[trigger] short[i]) by {
            assert(plain_name(names[i]));
        }
        lemma_plain_names_stay(short);
        assert(all.drop_last() =~= seq![Seq::<char>::empty()] + short);
        assert(plain_name(names[names.len() - 1]));
        assert(named_pieces(all) =~= names);
    }
}

/// A path made of plain names keeps its names.
pub proof fn slash_path_keeps_plain_names(names: Seq<Seq<char>>)
    requires
        forall|i: int| 0 <= i < names.len() ==> plain_name(#[trigger] names[i]),
    ensures
        path_names(slash_path(names)) == names,
{
    reveal_strlit("/");
    assert("/"@ =~= seq!['/']);
    let root = Seq::<char>::empty();
    let rest = if names.len() == 0 {
        seq![root]
    } else {
        names
    };
    let all = seq![root] + rest;
    joined_from_the_front(root, rest, "/"@);
    assert(slash_path(names) =~= joined(all, seq!['/']));
    assert forall|i: int| 0 <= i < all.len() implies !(#[trigger] all[i]).contains('/') by {
        if i > 0 && names.len() > 0 {
            assert(plain_name(names[i - 1]));
        }
    }
    split_restores_join(all, '/');
    lemma_plain_names_stay(names);
    if names.len() == 0 {
        assert(all.drop_last() =~= seq![root] + names);
        assert(trimmed(all.last()) =~= root);
    }
}

/// Normalizing a path a second time changes nothing.
pub proof fn normalizing_twice_is_normalizing_once(path: Seq<char>)
    ensures
        normalized(normalized(path)) == normalized(path),
        forall|i: int| 0 <= i < path_names(path).len() ==> plain_name(#[trigger] path_names(path)[i]),
{
    split_pieces_are_free_of_the_separator(path, '/');
    lemma_named_pieces(split_on(path, '/'));
    slash_path_keeps_plain_names(path_names(path));
}

/// The names along a path are those along its parts, from slash to slash. A part
/// without slashes is a name, without the white space around it, unless nothing
/// or only a dot is left of it.
pub proof fn names_stand_between_slashes(a: Seq<char>, b: Seq<char>)
    ensures
        path_names(a + seq!['/'] + b) == path_names(a) + path_names(b),
        !a.contains('/') ==> path_names(a) == (if trimmed(a).len() == 0 || trimmed(a) == "."@ {
            Seq::empty()
        } else {
            seq![trimmed(a)]
        }),
{
    texts_are_split_piece_by_piece(a, b, '/');
    lemma_named_concat(split_on(a, '/'), split_on(b, '/'));
    if !a.contains('/') {
        let one = seq![a];
        assert(one.drop_last() =~= Seq::<Seq<char>>::empty());
        assert(named_pieces(one.drop_last()) =~= Seq::<Seq<char>>::empty());
        assert(named_pieces(one) =~= (if trimmed(a).len() == 0 || trimmed(a) == "."@ {
            Seq::empty()
        } else {
            seq![trimmed(a)]
        }));
    }
}

proof fn lemma_named_concat(a: Seq<Seq<char>>, b: Seq<Seq<char>>)
    ensures
        named_pieces(a + b) == named_pieces(a) + named_pieces(b),
    decreases b.len(),
{
    if b.len() == 0 {
        assert(a + b =~= a);
        assert(named_pieces(a) + named_pieces(b) =~= named_pieces(a));
    } else {
        lemma_named_concat(a, b.drop_last());
        assert((a + b).drop_last() =~= a + b.drop_last());
        assert(named_pieces(a + b) =~= named_pieces(a) + named_pieces(b));
    }
}

/// A path has one slash before each of its names and none behind the last; the
/// path without names is a slash.
pub proof fn each_name_follows_a_slash(names: Seq<Seq<char>>, name: Seq<char>)
    ensures
        slash_path(Seq::empty()) == seq!['/'],
        slash_path(seq![name]) == seq!['/'] + name,
        names.len() > 0 ==> slash_path(names.push(name)) == slash_path(names) + seq!['/'] + name,
{
    reveal_strlit("/");
    assert("/"@ =~= seq!['/']);
    assert(slash_path(Seq::empty()) =~= seq!['/']);
    assert(slash_path(seq![name]) =~= seq!['/'] + name);
    if names.len() > 0 {
        assert(names.push(name).drop_last() =~= names);
        assert(slash_path(names.push(name)) =~= slash_path(names) + seq!['/'] + name);
    }
}

/// Whether the names `start` stand at the start of `names`.
pub open spec fn leads(start: Seq<Seq<char>>, names: Seq<Seq<char>>) -> bool {
    start.len() <= names.len() && names.take(start.len() as int) == start
}

/// A path lies at or below another one exactly when it begins with all of its
/// names, at whatever depth. Both are in the form `/a/b/c`.
pub proof fn a_path_below_begins_with_the_names(path: Seq<char>, top: Seq<char>)
    requires
        normalized(path) == path,
        normalized(top) == top,
    ensures
        leads(path_names(top), path_names(path)) <==> top == seq!['/'] || path == top || exists|
            rest: Seq<char>,
        | path == #[trigger] (top + seq!['/'] + rest),
{
    let names = path_names(path);
    let start = path_names(top);
    normalizing_twice_is_normalizing_once(path);
    normalizing_twice_is_normalizing_once(top);
    reveal_strlit("/");
    assert("/"@ =~= seq!['/']);
    if start.len() == 0 {
        each_name_follows_a_slash(start, Seq::empty());
        assert(start =~= Seq::empty());
        assert(names.take(0) =~= start);
    } else {
        lemma_names_have_length(start);
        if leads(start, names) {
            let more = names.skip(start.len() as int);
            assert(names =~= start + more);
            if more.len() == 0 {
                assert(names =~= start);
            } else {
                lists_are_joined_piece_by_piece(start, more, Seq::empty(), "/"@);
                let rest = joined(more, "/"@);
                assert(path =~= top + seq!['/'] + rest);
            }
        }
        if path == top {
            assert(names.take(start.len() as int) =~= start);
        }
        if exists|rest: Seq<char>| path == #[trigger] (top + seq!['/'] + rest) {
            let rest = choose|rest: Seq<char>| path == #[trigger] (top + seq!['/'] + rest);
            names_stand_between_slashes(top, rest);
            assert(names.take(start.len() as int) =~= start);
        }
        assert(top != seq!['/']);
    }
}

proof fn lemma_names_have_length(names: Seq<Seq<char>>)
    requires
        names.len() > 0,
        forall|i: int| 0 <= i < names.len() ==> plain_name(#[trigger] names[i]),
    ensures
        slash_path(names).len() > 1,
{
    reveal_strlit("/");
    assert(plain_name(names[names.len() - 1]));
}

fn is_dot(text: &str) -> (yes: bool)
    ensures
        yes == (text@ == "."@),
{
    same_text(text, ".")
}

impl ProjectTree {
    /// Brings a path into the form `/a/b/c`.
    pub fn normalize_path(path: &str) -> (out: String)
        ensures
            out@ == normalized(path@),
    {
        let names = Self::split_path(path);
        let mut out = "/".to_owned();
        out.append(join(&names, "/").as_str());
        out
    }

    /// The names along a path.
    pub fn split_path(path: &str) -> (names: Vec<String>)
        ensures
            texts(names@) == path_names(path@),
    {
        let parts = split(path, '/');
        let ghost all = texts(parts@);
        let mut names: Vec<String> = Vec::new();
        let mut i: usize = 0;
        assert(all.take(0) =~= Seq::<Seq<char>>::empty());
        assert(texts(names@) =~= Seq::<Seq<char>>::empty());
        while i < parts.len()
            invariant
                i <= parts@.len(),
                all == texts(parts@),
                texts(names@) == named_pieces(all.take(i as int)),
            decreases parts@.len() - i,
        {
            assert(all.take(i + 1).drop_last() =~= all.take(i as int));
            let ghost before = texts(names@);
            let piece = trim(parts[i].as_str());
            if !(piece.as_str().is_empty() || is_dot(piece.as_str())) {
                names.push(piece);
                assert(texts(names@) =~= before.push(piece@));
            }
            i += 1;
        }
        assert(all.take(parts@.len() as int) =~= all);
        names
    }

    /// The path of an entity.
    pub fn path_of(&self, id: &str) -> (path: Option<String>)
        ensures
            opt_text(path) == path_in(self@.nodes, id@),
    {
        let n: usize = self.nodes.len();
        let ghost nodes = self@.nodes;
        proof {
            listed_keys_are_counted(self.nodes.keys(), nodes);
        }
        let mut climbed: Vec<String> = Vec::new();
        let mut cursor: String = id.to_owned();
        let mut left: usize = n;
        assert(texts(climbed@).reverse() =~= Seq::<Seq<char>>::empty());
        assert forall|t: Seq<Seq<char>>| t + texts(climbed@).reverse() == t by {
            assert(t + texts(climbed@).reverse() =~= t);
        }
        loop
            invariant_except_break
                trail(nodes, id@, n as nat) == (match trail(nodes, cursor@, left as nat) {
                    Some(names) => Some(names + texts(climbed@).reverse()),
                    None => None,
                }),
            invariant
                nodes == self@.nodes,
                n == nodes.dom().len(),
            ensures
                trail(nodes, id@, n as nat) == Some(texts(climbed@).reverse()),
            decreases left,
        {
            if left == 0 {
                return None;
            }
            match self.nodes.get(cursor.as_str()) {
                None => {
                    return None;
                },
                Some(node) => {
                    let ghost below = texts(climbed@);
                    climbed.push(node.name.clone());
                    assert(texts(climbed@) =~= below.push(node@.name));
                    assert(texts(climbed@).reverse() =~= seq![node@.name] + below.reverse());
                    match &node.parent {
                        None => {
                            break;
                        },
                        Some(parent) => {
                            proof {
                                match trail(nodes, parent@, (left - 1) as nat) {
                                    Some(names) => {
                                        assert(names.push(node@.name) + below.reverse() =~= names
                                            + texts(climbed@).reverse());
                                    },
                                    None => {},
                                }
                            }
                            cursor = parent.clone();
                            left -= 1;
                        },
                    }
                },
            }
        }
        let mut names: Vec<String> = Vec::new();
        let mut i: usize = climbed.len();
        assert(texts(climbed@).reverse().take(0) =~= texts(names@));
        while i > 0
            invariant
                i <= climbed@.len(),
                texts(names@) == texts(climbed@).reverse().take(climbed@.len() - i),
            decreases i,
        {
            let ghost before = texts(names@);
            i -= 1;
            names.push(climbed[i].clone());
            assert(texts(names@) =~= before.push(texts(climbed@)[i as int]));
            assert(texts(names@) =~= texts(climbed@).reverse().take(climbed@.len() - i));
        }
        assert(texts(names@) =~= texts(climbed@).reverse());
        let mut path = "/".to_owned();
        path.append(join(&names, "/").as_str());
        Some(path)
    }
}

// --- finding entities ----------------------------------------------------

/// Whether the entity `id` is the one to be found at `path`: of the entities
/// there, the one whose id comes first.
pub open spec fn found_at(nodes: Nodes, path: Seq<char>, id: Seq<char>) -> bool {
    &&& nodes.contains_key(id)
    &&& path_in(nodes, id) == Some(path)
    &&& forall|other: Seq<char>|
        #[trigger] nodes.contains_key(other) && path_in(nodes, other) == Some(path) && other != id
            ==> precedes(id, other)
}

/// The entity at a path in the form `/a/b/c`, as its id and kind.
pub open spec fn entity_at(nodes: Nodes, path: Seq<char>) -> Option<(Seq<char>, EntityKind)> {
    if exists|id: Seq<char>| found_at(nodes, path, id) {
        let id = choose|id: Seq<char>| found_at(nodes, path, id);
        Some((id, nodes[id].kind))
    } else {
        None
    }
}

/// The id of the folder at a path; `/` is the root folder.
pub open spec fn folder_at(tree: TreeView, path: Seq<char>) -> Option<Seq<char>> {
    if normalized(path) == "/"@ {
        Some(tree.root_folder_id)
    } else {
        match entity_at(tree.nodes, normalized(path)) {
            Some((id, EntityKind::Folder)) => Some(id),
            _ => None,
        }
    }
}

proof fn lemma_least_id(ids: Set<Seq<char>>) -> (least: Seq<char>)
    requires
        ids.finite(),
        ids.len() > 0,
    ensures
        ids.contains(least),
        forall|other: Seq<char>| #[trigger]
            ids.contains(other) && other != least ==> precedes(least, other),
    decreases ids.len(),
{
    let first = ids.choose();
    let rest = ids.remove(first);
    if rest.len() == 0 {
        assert(rest =~= Set::empty());
        assert forall|other: Seq<char>| #[trigger] ids.contains(other) implies other == first by {
            assert(other != first ==> rest.contains(other));
        }
        first
    } else {
        let least = lemma_least_id(rest);
        precedes_total(first, least);
        let least_of_all = if precedes(first, least) {
            first
        } else {
            least
        };
        assert forall|other: Seq<char>| #[trigger]
            ids.contains(other) && other != least_of_all implies precedes(least_of_all, other) by {
            if other != first {
                assert(rest.contains(other));
                if least_of_all == first && other != least {
                    precedes_transitive(first, least, other);
                }
            }
        }
        least_of_all
    }
}

/// Wherever an entity lies, its path leads to an entity: to itself, or to one
/// of the same path with a smaller id.
pub proof fn every_path_leads_to_an_entity(nodes: Nodes, id: Seq<char>)
    requires
        nodes.dom().finite(),
        nodes.contains_key(id),
        path_in(nodes, id) is Some,
    ensures
        match entity_at(nodes, path_in(nodes, id)->0) {
            Some((found, kind)) => {
                &&& nodes.contains_key(found)
                &&& path_in(nodes, found) == path_in(nodes, id)
                &&& kind == nodes[found].kind
                &&& found == id || precedes(found, id)
            },
            None => false,
        },
{
    let path = path_in(nodes, id)->0;
    let same = nodes.dom().filter(|other: Seq<char>| path_in(nodes, other) == Some(path));
    assert(same.contains(id));
    assert(same.len() > 0) by {
        if same.len() == 0 {
            assert(same =~= Set::empty());
        }
    }
    let least = lemma_least_id(same);
    assert forall|other: Seq<char>| #[trigger]
        nodes.contains_key(other) && path_in(nodes, other) == Some(path) && other
            != least implies precedes(least, other) by {
        assert(same.contains(other));
    }
    assert(found_at(nodes, path, least));
    lemma_entity_at(nodes, path, least);
}

pub(crate) proof fn lemma_entity_at(nodes: Nodes, path: Seq<char>, id: Seq<char>)
    requires
        found_at(nodes, path, id),
    ensures
        entity_at(nodes, path) == Some((id, nodes[id].kind)),
{
    let chosen = choose|other: Seq<char>| found_at(nodes, path, other);
    if chosen != id {
        precedes_asymmetric(chosen, id);
    }
}

/// An id and kind as plain values.
pub open spec fn opt_entity(found: Option<(String, EntityKind)>) -> Option<
    (Seq<char>, EntityKind),
> {
    match found {
        Some((id, kind)) => Some((id@, kind)),
        None => None,
    }
}

impl ProjectTree {
    /// The entity at a path, as its id and kind.
    pub fn lookup(&self, path: &str) -> (found: Option<(String, EntityKind)>)
        ensures
            opt_entity(found) == entity_at(self@.nodes, normalized(path@)),
    {
        let wanted = Self::normalize_path(path);
        let ghost nodes = self@.nodes;
        let n: usize = self.nodes.len();
        let ghost keys = self.nodes.keys();
        let mut i: usize = 0;
        while i < n
            invariant
                i <= n,
                n == keys.len(),
                keys == self.nodes.keys(),
                nodes == self@.nodes,
                lists_keys(keys, nodes),
                wanted@ == normalized(path@),
                forall|j: int| 0 <= j < i ==> path_in(nodes, #[trigger] keys[j]) != Some(wanted@),
            decreases n - i,
        {
            let id = self.nodes.key_at(i);
            let there = match self.path_of(id.as_str()) {
                Some(p) => same_text(p.as_str(), wanted.as_str()),
                None => false,
            };
            if there {
                proof {
                    assert forall|other: Seq<char>| #[trigger]
                        nodes.contains_key(other) && path_in(nodes, other) == Some(wanted@) && other
                            != id@ implies precedes(id@, other) by {
                        assert(keys.contains(other));
                        let j = keys.index_of(other);
                        assert(keys[j] == other);
                        assert(j > i);
                    }
                    lemma_entity_at(nodes, wanted@, id@);
                }
                return Some((id.clone(), self.nodes.value_at(i).kind));
            }
            i += 1;
        }
        proof {
            if exists|id: Seq<char>| found_at(nodes, wanted@, id) {
                let id = choose|id: Seq<char>| found_at(nodes, wanted@, id);
                assert(keys.contains(id));
                assert(keys[keys.index_of(id)] == id);
            }
        }
        None
    }

    /// The id of the folder at a path; `/` is the root folder.
    pub fn folder_id_of(&self, path: &str) -> (id: Option<String>)
        ensures
            opt_text(id) == folder_at(self@, path@),
    {
        let wanted = Self::normalize_path(path);
        proof {
            normalizing_twice_is_normalizing_once(path@);
        }
        if same_text(wanted.as_str(), "/") {
            return Some(self.root_folder_id.clone());
        }
        match self.lookup(wanted.as_str()) {
            Some((id, EntityKind::Folder)) => Some(id),
            _ => None,
        }
    }

    /// The kind of an entity.
    pub fn kind_of(&self, id: &str) -> (kind: Option<EntityKind>)
        ensures
            kind == (if self@.nodes.contains_key(id@) {
                Some(self@.nodes[id@].kind)
            } else {
                None
            }),
    {
        match self.nodes.get(id) {
            Some(node) => Some(node.kind),
            None => None,
        }
    }
}

// --- listing entities ----------------------------------------------------

/// An entity with its path.
pub struct EntryView {
    pub path: Seq<char>,
    pub kind: EntityKind,
    pub id: Seq<char>,
}

/// The place of a kind among the kinds.
pub open spec fn kind_rank(kind: EntityKind) -> int {
    match kind {
        EntityKind::Doc => 0,
        EntityKind::File => 1,
        EntityKind::Folder => 2,
    }
}

/// The order of a listing: by path, then by kind, then by id.
pub open spec fn entry_before(a: EntryView, b: EntryView) -> bool {
    ||| precedes(a.path, b.path)
    ||| a.path == b.path && kind_rank(a.kind) < kind_rank(b.kind)
    ||| a.path == b.path && a.kind == b.kind && precedes(a.id, b.id)
}

/// Whether `e` describes an entity of the tree that has a path.
pub open spec fn is_entry(nodes: Nodes, e: EntryView) -> bool {
    &&& nodes.contains_key(e.id)
    &&& path_in(nodes, e.id) == Some(e.path)
    &&& nodes[e.id].kind == e.kind
}

/// Whether `list` holds every entity that has a path, in order.
pub open spec fn lists_entries(nodes: Nodes, list: Seq<EntryView>) -> bool {
    &&& ascending(list, |a: EntryView, b: EntryView| entry_before(a, b))
    &&& forall|e: EntryView| #[trigger] list.contains(e) <==> is_entry(nodes, e)
}

/// The entities that have a path, in order.
pub open spec fn entry_list(nodes: Nodes) -> Seq<EntryView> {
    choose|list: Seq<EntryView>| lists_entries(nodes, list)
}

/// The docs of a listing, each as its path and id.
pub open spec fn docs_of(list: Seq<EntryView>) -> Seq<(Seq<char>, Seq<char>)>
    decreases list.len(),
{
    if list.len() == 0 {
        Seq::empty()
    } else {
        let before = docs_of(list.drop_last());
        if list.last().kind == EntityKind::Doc {
            before.push((list.last().path, list.last().id))
        } else {
            before
        }
    }
}

/// A listing as plain values.
pub open spec fn entry_views(list: Seq<(String, EntityKind, String)>) -> Seq<EntryView> {
    Seq::new(
        list.len(),
        |i: int| EntryView { path: list[i].0@, kind: list[i].1, id: list[i].2@ },
    )
}

/// Paths with ids as plain values.
pub open spec fn pair_views(list: Seq<(String, String)>) -> Seq<(Seq<char>, Seq<char>)> {
    Seq::new(list.len(), |i: int| (list[i].0@, list[i].1@))
}

proof fn lemma_entry_order(a: EntryView, b: EntryView)
    ensures
        entry_before(a, b) ==> !entry_before(b, a),
        a == b || entry_before(a, b) || entry_before(b, a),
{
    precedes_asymmetric(a.path, b.path);
    precedes_asymmetric(a.id, b.id);
    precedes_irreflexive(a.path);
    precedes_total(a.path, b.path);
    precedes_total(a.id, b.id);
}

proof fn lemma_entry_transitive(a: EntryView, b: EntryView, c: EntryView)
    requires
        entry_before(a, b),
        entry_before(b, c),
    ensures
        entry_before(a, c),
{
    if precedes(a.path, b.path) && precedes(b.path, c.path) {
        precedes_transitive(a.path, b.path, c.path);
    }
    if precedes(a.id, b.id) && precedes(b.id, c.id) {
        precedes_transitive(a.id, b.id, c.id);
    }
}

/// A tree has only one listing.
pub proof fn entry_list_is_unique(nodes: Nodes, list: Seq<EntryView>)
    requires
        lists_entries(nodes, list),
    ensures
        entry_list(nodes) == list,
{
    let chosen = entry_list(nodes);
    assert(lists_entries(nodes, chosen));
    let before = |a: EntryView, b: EntryView| entry_before(a, b);
    assert forall|x: EntryView, y: EntryView| #[trigger] before(x, y) implies !before(y, x) by {
        lemma_entry_order(x, y);
    }
    assert forall|e: EntryView| #[trigger] chosen.contains(e) <==> list.contains(e) by {
        assert(chosen.contains(e) <==> is_entry(nodes, e));
        assert(list.contains(e) <==> is_entry(nodes, e));
    }
    ascending_list_is_unique(chosen, list, before);
}

/// Tells whether one entry comes before another in a listing.
fn entry_comes_before(
    a: &(String, EntityKind, String),
    b: &(String, EntityKind, String),
) -> (yes: bool)
    ensures
        yes == entry_before(
            (EntryView { path: a.0@, kind: a.1, id: a.2@ }),
            (EntryView { path: b.0@, kind: b.1, id: b.2@ }),
        ),
{
    proof {
        precedes_asymmetric(a.0@, b.0@);
        precedes_irreflexive(a.0@);
        precedes_total(a.0@, b.0@);
    }
    if comes_before(a.0.as_str(), b.0.as_str()) {
        return true;
    }
    if comes_before(b.0.as_str(), a.0.as_str()) {
        return false;
    }
    let x: u8 = rank(a.1);
    let y: u8 = rank(b.1);
    x < y || (x == y && comes_before(a.2.as_str(), b.2.as_str()))
}

fn rank(kind: EntityKind) -> (n: u8)
    ensures
        n == kind_rank(kind),
{
    match kind {
        EntityKind::Doc => 0,
        EntityKind::File => 1,
        EntityKind::Folder => 2,
    }
}

/// Puts an entry into an ordered listing that does not hold it.
fn place_entry(list: &mut Vec<(String, EntityKind, String)>, entry: (String, EntityKind, String))
    requires
        ascending(entry_views(old(list)@), |a: EntryView, b: EntryView| entry_before(a, b)),
        !entry_views(old(list)@).contains(
            (EntryView { path: entry.0@, kind: entry.1, id: entry.2@ }),
        ),
    ensures
        ascending(entry_views(final(list)@), |a: EntryView, b: EntryView| entry_before(a, b)),
        forall|e: EntryView|
            #[trigger] entry_views(final(list)@).contains(e) <==> entry_views(
                old(list)@,
            ).contains(e) || e == (EntryView { path: entry.0@, kind: entry.1, id: entry.2@ }),
{
    let ghost new = EntryView { path: entry.0@, kind: entry.1, id: entry.2@ };
    let ghost before = entry_views(list@);
    let mut low: usize = 0;
    let mut high: usize = list.len();
    while low < high
        invariant
            low <= high <= list@.len(),
            before == entry_views(list@),
            new == (EntryView { path: entry.0@, kind: entry.1, id: entry.2@ }),
            ascending(before, |a: EntryView, b: EntryView| entry_before(a, b)),
            list@ == old(list)@,
            forall|i: int| 0 <= i < low ==> entry_before(#[trigger] before[i], new),
            forall|i: int| high <= i < before.len() ==> !entry_before(#[trigger] before[i], new),
        decreases high - low,
    {
        let mid: usize = low + (high - low) / 2;
        if entry_comes_before(&list[mid], &entry) {
            assert forall|i: int| 0 <= i < mid + 1 implies entry_before(
                #[trigger] before[i],
                new,
            ) by {
                if i < mid {
                    assert(entry_before(before[i], before[mid as int]));
                    lemma_entry_transitive(before[i], before[mid as int], new);
                }
            }
            low = mid + 1;
        } else {
            assert forall|i: int| mid <= i < before.len() implies !entry_before(
                #[trigger] before[i],
                new,
            ) by {
                if i > mid && entry_before(before[i], new) {
                    assert(entry_before(before[mid as int], before[i]));
                    lemma_entry_transitive(before[mid as int], before[i], new);
                }
            }
            high = mid;
        }
    }
    list.insert(low, entry);
    proof {
        let now = entry_views(list@);
        assert(now =~= before.insert(low as int, new));
        assert forall|i: int| low <= i < before.len() implies entry_before(
            new,
            #[trigger] before[i],
        ) by {
            lemma_entry_order(new, before[i]);
            assert(before.contains(before[i]));
        }
        assert forall|i: int, j: int| 0 <= i < j < now.len() implies entry_before(
            #[trigger] now[i],
            #[trigger] now[j],
        ) by {
            let x = if i < low {
                i
            } else {
                i - 1
            };
            let y = if j < low {
                j
            } else {
                j - 1
            };
            if i != low && j != low {
                assert(entry_before(before[x], before[y]));
            }
        }
        assert forall|e: EntryView| #[trigger] now.contains(e) <==> before.contains(e) || e
            == new by {
            if now.contains(e) {
                let i = now.index_of(e);
                if i < low {
                    assert(before[i] == e);
                } else if i > low {
                    assert(before[i - 1] == e);
                }
            }
            if before.contains(e) {
                let i = before.index_of(e);
                if i < low {
                    assert(now[i] == e);
                } else {
                    assert(now[i + 1] == e);
                }
            }
            assert(now[low as int] == new);
        }
    }
}

impl ProjectTree {
    /// All entities as path, kind and id, in order.
    pub fn entries(&self) -> (list: Vec<(String, EntityKind, String)>)
        ensures
            entry_views(list@) == entry_list(self@.nodes),
            lists_entries(self@.nodes, entry_views(list@)),
    {
        let ghost nodes = self@.nodes;
        let n: usize = self.nodes.len();
        let ghost keys = self.nodes.keys();
        let mut list: Vec<(String, EntityKind, String)> = Vec::new();
        let mut i: usize = 0;
        proof {
            in_order_keys_differ(keys);
        }
        while i < n
            invariant
                i <= n,
                n == keys.len(),
                keys == self.nodes.keys(),
                nodes == self@.nodes,
                lists_keys(keys, nodes),
                keys.no_duplicates(),
                ascending(entry_views(list@), |a: EntryView, b: EntryView| entry_before(a, b)),
                forall|e: EntryView|
                    #[trigger] entry_views(list@).contains(e) <==> is_entry(nodes, e)
                        && keys.take(i as int).contains(e.id),
            decreases n - i,
        {
            let id = self.nodes.key_at(i);
            let kind = self.nodes.value_at(i).kind;
            let ghost before = entry_views(list@);
            assert(keys.take(i + 1) =~= keys.take(i as int).push(id@));
            assert(!keys.take(i as int).contains(id@)) by {
                if keys.take(i as int).contains(id@) {
                    let j = keys.take(i as int).index_of(id@);
                    assert(keys[j] == keys[i as int]);
                }
            }
            proof {
                assert forall|x: Seq<char>| keys.take(i + 1).contains(x) <==> keys.take(
                    i as int,
                ).contains(x) || x == id@ by {
                    if keys.take(i as int).contains(x) {
                        let j = keys.take(i as int).index_of(x);
                        assert(keys.take(i + 1)[j] == x);
                    }
                    assert(keys.take(i + 1)[i as int] == id@);
                    if keys.take(i + 1).contains(x) {
                        let j = keys.take(i + 1).index_of(x);
                        if j < i {
                            assert(keys.take(i as int)[j] == x);
                        }
                    }
                }
            }
            match self.path_of(id.as_str()) {
                Some(path) => {
                    let ghost new = EntryView { path: path@, kind, id: id@ };
                    place_entry(&mut list, (path, kind, id.clone()));
                    assert forall|e: EntryView| #[trigger]
                        entry_views(list@).contains(e) <==> is_entry(nodes, e) && keys.take(
                            i + 1,
                        ).contains(e.id) by {
                        assert(before.contains(e) <==> is_entry(nodes, e) && keys.take(
                            i as int,
                        ).contains(e.id));
                        if is_entry(nodes, e) && e.id == id@ {
                            assert(e == new);
                        }
                    }
                },
                None => {
                    assert forall|e: EntryView| #[trigger]
                        entry_views(list@).contains(e) <==> is_entry(nodes, e) && keys.take(
                            i + 1,
                        ).contains(e.id) by {}
                },
            }
            i += 1;
        }
        assert(keys.take(n as int) =~= keys);
        assert(lists_entries(nodes, entry_views(list@))) by {
            assert forall|e: EntryView| #[trigger] entry_views(list@).contains(e) <==> is_entry(
                nodes,
                e,
            ) by {
                if is_entry(nodes, e) {
                    assert(nodes.contains_key(e.id));
                }
            }
        }
        proof {
            entry_list_is_unique(nodes, entry_views(list@));
        }
        list
    }

    /// The docs as path and id, in order.
    pub fn docs(&self) -> (list: Vec<(String, String)>)
        ensures
            pair_views(list@) == docs_of(entry_list(self@.nodes)),
    {
        let all = self.entries();
        let ghost views = entry_views(all@);
        let mut list: Vec<(String, String)> = Vec::new();
        let mut i: usize = 0;
        assert(views.take(0) =~= Seq::<EntryView>::empty());
        assert(pair_views(list@) =~= Seq::<(Seq<char>, Seq<char>)>::empty());
        while i < all.len()
            invariant
                i <= all@.len(),
                views == entry_views(all@),
                pair_views(list@) == docs_of(views.take(i as int)),
            decreases all@.len() - i,
        {
            assert(views.take(i + 1).drop_last() =~= views.take(i as int));
            let ghost before = pair_views(list@);
            if all[i].1 == EntityKind::Doc {
                list.push((all[i].0.clone(), all[i].2.clone()));
                assert(pair_views(list@) =~= before.push((all@[i as int].0@, all@[i as int].2@)));
            }
            i += 1;
        }
        assert(views.take(all@.len() as int) =~= views);
        list
    }
}

proof fn in_order_keys_differ(keys: Seq<Seq<char>>)
    ensures
        in_order(keys) ==> keys.no_duplicates(),
{
    if in_order(keys) {
        in_order_is_duplicate_free(keys);
    }
}

/// The docs of a listing are its entries that are docs, by path and id.
pub proof fn docs_are_the_doc_entries(list: Seq<EntryView>, path: Seq<char>, id: Seq<char>)
    ensures
        docs_of(list).contains((path, id)) <==> list.contains(
            (EntryView { path, kind: EntityKind::Doc, id }),
        ),
    decreases list.len(),
{
    if list.len() > 0 {
        let short = list.drop_last();
        docs_are_the_doc_entries(short, path, id);
        let e = EntryView { path, kind: EntityKind::Doc, id };
        let before = docs_of(short);
        let now = docs_of(list);
        if short.contains(e) {
            assert(list[short.index_of(e)] == e);
        }
        if list.contains(e) {
            let k = list.index_of(e);
            if k < short.len() {
                assert(short[k] == e);
            } else {
                assert(now[before.len() as int] == (path, id));
            }
        }
        if before.contains((path, id)) {
            assert(now[before.index_of((path, id))] == (path, id));
        }
        if now.contains((path, id)) {
            let k = now.index_of((path, id));
            if k < before.len() {
                assert(before[k] == (path, id));
            } else {
                assert(list[list.len() - 1] == e);
            }
        }
    }
}

/// A listing goes by path, and holds what the tree has at that path: whatever
/// has a path is listed under it, once, as what it is.
pub proof fn listing_goes_by_path(nodes: Nodes, list: Seq<EntryView>, i: int, j: int, id: Seq<char>)
    requires
        lists_entries(nodes, list),
        0 <= i < j < list.len(),
    ensures
        list[i].path == list[j].path || precedes(list[i].path, list[j].path),
        list[i] != list[j],
        nodes.contains_key(list[i].id),
        nodes[list[i].id].kind == list[i].kind,
        path_in(nodes, list[i].id) == Some(list[i].path),
        nodes.contains_key(id) && path_in(nodes, id) is Some ==> exists|k: int|
            0 <= k < list.len() && (#[trigger] list[k]).id == id,
{
    let before = |a: EntryView, b: EntryView| entry_before(a, b);
    assert(before(list[i], list[j]));
    lemma_entry_order(list[i], list[j]);
    assert(list.contains(list[i]));
    assert(is_entry(nodes, list[i]));
    if nodes.contains_key(id) && path_in(nodes, id) is Some {
        let e = EntryView { path: path_in(nodes, id)->0, kind: nodes[id].kind, id };
        assert(is_entry(nodes, e));
        assert(list.contains(e));
        assert(list[list.index_of(e)].id == id);
    }
}

/// What is found at a path lies there and is of the kind that it is said to be;
/// nothing is found where nothing lies.
pub proof fn lookup_finds_what_lies_there(nodes: Nodes, path: Seq<char>, id: Seq<char>)
    requires
        nodes.dom().finite(),
    ensures
        entity_at(nodes, path) matches Some((found, kind)) ==> nodes.contains_key(found)
            && path_in(nodes, found) == Some(path) && nodes[found].kind == kind,
        entity_at(nodes, path) is None && nodes.contains_key(id) ==> path_in(nodes, id) != Some(
            path,
        ),
{
    if nodes.contains_key(id) && path_in(nodes, id) == Some(path) {
        every_path_leads_to_an_entity(nodes, id);
    }
}

/// A path without a name is the root folder. Any other path leads to a folder
/// exactly when what is found there is one, however the path is written.
pub proof fn folders_are_found_by_path(tree: TreeView, path: Seq<char>, id: Seq<char>)
    ensures
        path_names(path).len() == 0 ==> folder_at(tree, path) == Some(tree.root_folder_id),
        path_names(path).len() > 0 ==> (folder_at(tree, path) == Some(id) <==> entity_at(
            tree.nodes,
            normalized(path),
        ) == Some((id, EntityKind::Folder))),
        folder_at(tree, normalized(path)) == folder_at(tree, path),
{
    reveal_strlit("/");
    normalizing_twice_is_normalizing_once(path);
    let names = path_names(path);
    if names.len() == 0 {
        assert(names =~= Seq::<Seq<char>>::empty());
        assert(normalized(path) =~= "/"@);
    } else {
        lemma_names_have_length(names);
    }
}

/// The kinds have the words that the server knows them by.
pub proof fn kinds_have_words_of_their_own()
    ensures
        kind_word(EntityKind::Doc) == seq!['d', 'o', 'c'],
        kind_word(EntityKind::File) == seq!['f', 'i', 'l', 'e'],
        kind_word(EntityKind::Folder) == seq!['f', 'o', 'l', 'd', 'e', 'r'],
{
    reveal_strlit("doc");
    reveal_strlit("file");
    reveal_strlit("folder");
    assert("doc"@ =~= seq!['d', 'o', 'c']);
    assert("file"@ =~= seq!['f', 'i', 'l', 'e']);
    assert("folder"@ =~= seq!['f', 'o', 'l', 'd', 'e', 'r']);
}

/// Every tree has a listing.
pub proof fn every_tree_has_a_listing(nodes: Nodes)
    requires
        nodes.dom().finite(),
    ensures
        lists_entries(nodes, entry_list(nodes)),
{
    let shown = |id: Seq<char>|
        EntryView {
            path: match path_in(nodes, id) {
                Some(path) => path,
                None => Seq::empty(),
            },
            kind: nodes[id].kind,
            id,
        };
    let with_path = nodes.dom().filter(|id: Seq<char>| path_in(nodes, id) is Some);
    let items = with_path.map(shown);
    nodes.dom().lemma_len_filter(|id: Seq<char>| path_in(nodes, id) is Some);
    with_path.lemma_map_finite(shown);
    let before = |a: EntryView, b: EntryView| entry_before(a, b);
    assert forall|x: EntryView, y: EntryView|
        x == y || #[trigger] before(x, y) || before(y, x) by {
        lemma_entry_order(x, y);
    }
    assert forall|x: EntryView, y: EntryView, z: EntryView| #[trigger]
        before(x, y) && #[trigger] before(y, z) implies before(x, z) by {
        lemma_entry_transitive(x, y, z);
    }
    let list = finite_sets_are_listed(items, before);
    assert forall|e: EntryView| #[trigger] list.contains(e) <==> is_entry(nodes, e) by {
        if is_entry(nodes, e) {
            assert(with_path.contains(e.id));
            assert(shown(e.id) == e);
            assert(items.contains(e));
        }
        if items.contains(e) {
            let id = choose|id: Seq<char>| with_path.contains(id) && shown(id) == e;
            assert(with_path.contains(id));
        }
    }
    assert(lists_entries(nodes, list));
}

} // verus!
