//! Building a project's tree and changing it.
use vstd::prelude::*;

use crate::error::{ErrorView, OverleafError, Result};
use crate::order::{
    ascending, ascending_list_is_unique, finite_sets_are_listed, precedes, precedes_asymmetric,
    precedes_total, precedes_transitive,
};
use crate::pieces::joined;
use crate::project::{
    lemma_trail_more_fuel, lemma_trail_wider, path_in, path_is_found_within_the_tree, slash_path,
    trail, EntityKind, EntityRefJson, FolderJson, JoinedProject, NodeView, Nodes, ProjectTree, TreeNode, TreeView,
};
use crate::table::{
    in_order, in_order_is_duplicate_free, listed_keys_are_counted, lists_keys, Table,
};
use crate::text::{clone_opt, opt_str, opt_text, same_text, texts};

verus! {

// --- copying -------------------------------------------------------------

impl Clone for TreeNode {
    fn clone(&self) -> (copy: Self)
        ensures
            copy@ == self@,
    {
        TreeNode { name: self.name.clone(), kind: self.kind, parent: clone_opt(&self.parent) }
    }
}

impl Clone for ProjectTree {
    fn clone(&self) -> (copy: Self)
        ensures
            copy@ == self@,
    {
        let n: usize = self.nodes.len();
        let ghost keys = self.nodes.keys();
        let mut nodes: Table<TreeNode> = Table::new();
        let mut i: usize = 0;
        assert(nodes@ =~= self.nodes@.restrict(keys.take(0).to_set()));
        while i < n
            invariant
                i <= n,
                n == keys.len(),
                keys == self.nodes.keys(),
                lists_keys(keys, self.nodes@),
                nodes@ == self.nodes@.restrict(keys.take(i as int).to_set()),
            decreases n - i,
        {
            let id = self.nodes.key_at(i);
            let node = self.nodes.value_at(i);
            assert(keys.take(i + 1) =~= keys.take(i as int).push(id@));
            nodes.insert(id.clone(), node.clone());
            proof {
                assert(keys.take(i + 1).to_set() =~= keys.take(i as int).to_set().insert(id@)) by {
                    assert forall|x: Seq<char>| keys.take(i + 1).to_set().contains(x) <==> keys.take(
                        i as int,
                    ).to_set().insert(id@).contains(x) by {
                        broadcast use vstd::seq_lib::group_seq_properties;

                    }
                }
                assert(nodes@ =~= self.nodes@.restrict(keys.take(i + 1).to_set()));
            }
            i += 1;
        }
        assert(keys.take(n as int) =~= keys);
        assert(nodes@ =~= self.nodes@);
        ProjectTree {
            project_id: self.project_id.clone(),
            project_name: self.project_name.clone(),
            root_folder_id: self.root_folder_id.clone(),
            root_doc_id: clone_opt(&self.root_doc_id),
            compiler: clone_opt(&self.compiler),
            nodes,
        }
    }
}

// --- changes of single entries -------------------------------------------

/// How a tree stores that an entity lies in the folder `folder`: what lies in
/// the root folder has no parent.
pub open spec fn parent_for(root: Seq<char>, folder: Seq<char>) -> Option<Seq<char>> {
    if folder == root {
        None
    } else {
        Some(folder)
    }
}

/// A tree with one more entity, or with an entity replaced.
pub open spec fn with_node(
    tree: TreeView,
    id: Seq<char>,
    name: Seq<char>,
    kind: EntityKind,
    folder: Seq<char>,
) -> TreeView {
    TreeView {
        nodes: tree.nodes.insert(
            id,
            NodeView { name, kind, parent: parent_for(tree.root_folder_id, folder) },
        ),
        ..tree
    }
}

/// A tree with another name for one of its entities.
pub open spec fn with_name(tree: TreeView, id: Seq<char>, name: Seq<char>) -> TreeView {
    if tree.nodes.contains_key(id) {
        TreeView {
            nodes: tree.nodes.insert(id, NodeView { name, ..tree.nodes[id] }),
            ..tree
        }
    } else {
        tree
    }
}

/// A tree with one of its entities in another folder.
pub open spec fn with_parent(tree: TreeView, id: Seq<char>, folder: Seq<char>) -> TreeView {
    if tree.nodes.contains_key(id) {
        TreeView {
            nodes: tree.nodes.insert(
                id,
                NodeView {
                    parent: parent_for(tree.root_folder_id, folder),
                    ..tree.nodes[id]
                },
            ),
            ..tree
        }
    } else {
        tree
    }
}

impl ProjectTree {
    fn parent_in(&self, folder_id: &str) -> (parent: Option<String>)
        ensures
            opt_text(parent) == parent_for(self@.root_folder_id, folder_id@),
    {
        if same_text(folder_id, self.root_folder_id.as_str()) {
            None
        } else {
            Some(folder_id.to_owned())
        }
    }

    /// Adds an entity to the folder `parent_id`.
    pub fn insert_node(&mut self, id: String, name: String, kind: EntityKind, parent_id: &str)
        ensures
            final(self)@ == with_node(old(self)@, id@, name@, kind, parent_id@),
    {
        let parent = self.parent_in(parent_id);
        self.nodes.insert(id, TreeNode { name, kind, parent });
    }

    /// Gives an entity another name. Returns whether it exists.
    pub fn rename_node(&mut self, id: &str, name: String) -> (found: bool)
        ensures
            found == old(self)@.nodes.contains_key(id@),
            final(self)@ == with_name(old(self)@, id@, name@),
    {
        match self.nodes.remove(id) {
            Some(node) => {
                self.nodes.insert(
                    id.to_owned(),
                    TreeNode { name, kind: node.kind, parent: node.parent },
                );
                assert(self@.nodes =~= with_name(old(self)@, id@, name@).nodes);
                true
            },
            None => {
                assert(self@.nodes =~= old(self)@.nodes);
                false
            },
        }
    }

    /// Moves an entity to another folder. Returns whether it exists.
    pub fn reparent_node(&mut self, id: &str, folder_id: &str) -> (found: bool)
        ensures
            found == old(self)@.nodes.contains_key(id@),
            final(self)@ == with_parent(old(self)@, id@, folder_id@),
    {
        let parent = self.parent_in(folder_id);
        match self.nodes.remove(id) {
            Some(node) => {
                self.nodes.insert(
                    id.to_owned(),
                    TreeNode { name: node.name, kind: node.kind, parent },
                );
                assert(self@.nodes =~= with_parent(old(self)@, id@, folder_id@).nodes);
                true
            },
            None => {
                assert(self@.nodes =~= old(self)@.nodes);
                false
            },
        }
    }
}

// --- where changed entities are found ------------------------------------

/// The path of what is called `name` in the folder at `folder`; the empty path
/// stands for the root folder.
pub open spec fn child_path(folder: Seq<char>, name: Seq<char>) -> Seq<char> {
    folder + "/"@ + name
}

pub(crate) proof fn lemma_slash_path_grows(names: Seq<Seq<char>>, name: Seq<char>)
    ensures
        names.len() > 0 ==> slash_path(names.push(name)) == child_path(slash_path(names), name),
        names.len() == 0 ==> slash_path(names.push(name)) == child_path(Seq::empty(), name),
{
    let more = names.push(name);
    assert(more.drop_last() =~= names);
    if names.len() > 0 {
        assert(slash_path(more) =~= child_path(slash_path(names), name));
    } else {
        assert(joined(more, "/"@) == name);
        assert(slash_path(more) =~= child_path(Seq::empty(), name));
    }
}

/// A new entity is found in the folder that it was put into, and what was found
/// before is still found where it was.
pub proof fn new_entity_is_found_in_its_folder(
    tree: TreeView,
    id: Seq<char>,
    name: Seq<char>,
    kind: EntityKind,
    folder: Seq<char>,
    other: Seq<char>,
)
    requires
        tree.nodes.dom().finite(),
        !tree.nodes.contains_key(id),
        folder != tree.root_folder_id ==> path_in(tree.nodes, folder) is Some,
    ensures
        path_in(with_node(tree, id, name, kind, folder).nodes, id) == Some(
            child_path(
                if folder == tree.root_folder_id {
                    Seq::empty()
                } else {
                    path_in(tree.nodes, folder)->0
                },
                name,
            ),
        ),
        path_in(tree.nodes, other) is Some ==> path_in(
            with_node(tree, id, name, kind, folder).nodes,
            other,
        ) == path_in(tree.nodes, other),
{
    let before = tree.nodes;
    let now = with_node(tree, id, name, kind, folder).nodes;
    let n = before.dom().len();
    assert(now.dom() =~= before.dom().insert(id));
    assert(now.dom().len() == n + 1);
    if path_in(before, other) is Some {
        lemma_trail_wider(before, now, other, n);
        lemma_trail_more_fuel(now, other, n, n + 1);
    }
    if folder == tree.root_folder_id {
        let none = Seq::<Seq<char>>::empty();
        assert(trail(now, id, n + 1) == Some(seq![name]));
        assert(seq![name] =~= none.push(name));
        lemma_slash_path_grows(none, name);
    } else {
        let names = trail(before, folder, n)->0;
        lemma_trail_wider(before, now, folder, n);
        assert(trail(now, id, n + 1) == Some(names.push(name)));
        lemma_trail_is_not_empty(before, folder, n);
        lemma_slash_path_grows(names, name);
    }
}

pub(crate) proof fn lemma_trail_is_not_empty(nodes: Nodes, id: Seq<char>, fuel: nat)
    ensures
        trail(nodes, id, fuel) matches Some(names) ==> names.len() > 0,
    decreases fuel,
{
    if fuel > 0 && nodes.contains_key(id) && nodes[id].parent is Some {
        lemma_trail_is_not_empty(nodes, nodes[id].parent->0, (fuel - 1) as nat);
    }
}

/// Renaming and moving touch no entity but the one named.
pub proof fn changes_touch_one_entity(
    tree: TreeView,
    id: Seq<char>,
    name: Seq<char>,
    folder: Seq<char>,
    other: Seq<char>,
)
    requires
        other != id,
    ensures
        with_name(tree, id, name).nodes.contains_key(other) <==> tree.nodes.contains_key(other),
        with_parent(tree, id, folder).nodes.contains_key(other) <==> tree.nodes.contains_key(other),
        tree.nodes.contains_key(other) ==> with_name(tree, id, name).nodes[other]
            == tree.nodes[other] && with_parent(tree, id, folder).nodes[other]
            == tree.nodes[other],
{
}

// --- removing ------------------------------------------------------------

/// The entity that is met `steps` folders above `id`, or `id` itself for none.
pub open spec fn above(nodes: Nodes, id: Seq<char>, steps: nat) -> Option<Seq<char>>
    decreases steps,
{
    if !nodes.contains_key(id) {
        None
    } else if steps == 0 {
        Some(id)
    } else {
        match nodes[id].parent {
            Some(parent) => above(nodes, parent, (steps - 1) as nat),
            None => None,
        }
    }
}

/// Whether the way up from `id` meets `top` for the first time after `steps`
/// steps.
pub open spec fn first_met(nodes: Nodes, id: Seq<char>, top: Seq<char>, steps: nat) -> bool {
    &&& above(nodes, id, steps) == Some(top)
    &&& forall|less: nat| less < steps ==> #[trigger] above(nodes, id, less) != Some(top)
}

/// How many folders below `top` the entity `id` lies: 0 for `top` itself, and
/// -1 for what does not lie below it.
pub open spec fn depth_below(nodes: Nodes, id: Seq<char>, top: Seq<char>) -> int {
    if exists|steps: nat| first_met(nodes, id, top, steps) {
        (choose|steps: nat| first_met(nodes, id, top, steps)) as int
    } else {
        -1
    }
}

/// An entity with everything below it.
pub open spec fn subtree(nodes: Nodes, top: Seq<char>) -> Set<Seq<char>> {
    Set::new(|id: Seq<char>| depth_below(nodes, id, top) >= 0)
}

/// The order in which a subtree is taken out: from the top down, and by id on
/// the same depth.
pub open spec fn removed_before(
    nodes: Nodes,
    top: Seq<char>,
    a: Seq<char>,
    b: Seq<char>,
) -> bool {
    ||| depth_below(nodes, a, top) < depth_below(nodes, b, top)
    ||| depth_below(nodes, a, top) == depth_below(nodes, b, top) && precedes(a, b)
}

/// Whether `list` holds the subtree of `top` in the order of its removal.
pub open spec fn lists_subtree(nodes: Nodes, top: Seq<char>, list: Seq<Seq<char>>) -> bool {
    &&& ascending(list, |a: Seq<char>, b: Seq<char>| removed_before(nodes, top, a, b))
    &&& forall|id: Seq<char>| #[trigger] list.contains(id) <==> subtree(nodes, top).contains(id)
}

/// The ids that removing `top` takes out, in order.
pub open spec fn removal(nodes: Nodes, top: Seq<char>) -> Seq<Seq<char>> {
    choose|list: Seq<Seq<char>>| lists_subtree(nodes, top, list)
}

/// A tree without an entity and everything below it.
pub open spec fn without_node(tree: TreeView, id: Seq<char>) -> TreeView {
    TreeView { nodes: tree.nodes.remove_keys(subtree(tree.nodes, id)), ..tree }
}

/// There is only one order of removal.
pub proof fn removal_is_unique(nodes: Nodes, top: Seq<char>, list: Seq<Seq<char>>)
    requires
        lists_subtree(nodes, top, list),
    ensures
        removal(nodes, top) == list,
{
    let chosen = removal(nodes, top);
    assert(lists_subtree(nodes, top, chosen));
    let before = |a: Seq<char>, b: Seq<char>| removed_before(nodes, top, a, b);
    assert forall|x: Seq<char>, y: Seq<char>| #[trigger] before(x, y) implies !before(y, x) by {
        precedes_asymmetric(x, y);
    }
    assert forall|e: Seq<char>| #[trigger] chosen.contains(e) <==> list.contains(e) by {
        assert(chosen.contains(e) <==> subtree(nodes, top).contains(e));
        assert(list.contains(e) <==> subtree(nodes, top).contains(e));
    }
    ascending_list_is_unique(chosen, list, before);
}

proof fn lemma_depth(nodes: Nodes, id: Seq<char>, top: Seq<char>, steps: nat)
    requires
        first_met(nodes, id, top, steps),
    ensures
        depth_below(nodes, id, top) == steps,
{
    let chosen = choose|n: nat| first_met(nodes, id, top, n);
    if chosen < steps {
        assert(above(nodes, id, chosen) != Some(top));
    }
    if steps < chosen {
        assert(above(nodes, id, steps) != Some(top));
    }
}

/// The depth of what lies in a folder is one more than that of the folder.
pub proof fn depth_grows_downwards(nodes: Nodes, id: Seq<char>, top: Seq<char>)
    ensures
        nodes.contains_key(id) && id == top ==> depth_below(nodes, id, top) == 0,
        !nodes.contains_key(id) ==> depth_below(nodes, id, top) == -1,
        nodes.contains_key(id) && id != top ==> depth_below(nodes, id, top) == match nodes[id].parent {
            Some(parent) => if depth_below(nodes, parent, top) >= 0 {
                depth_below(nodes, parent, top) + 1
            } else {
                -1
            },
            None => -1,
        },
{
    if !nodes.contains_key(id) {
        assert forall|n: nat| !first_met(nodes, id, top, n) by {
            assert(above(nodes, id, n) is None);
        }
    } else if id == top {
        assert(above(nodes, id, 0) == Some(top));
        lemma_depth(nodes, id, top, 0);
    } else {
        match nodes[id].parent {
            None => {
                assert forall|n: nat| !first_met(nodes, id, top, n) by {
                    if n == 0 {
                        assert(above(nodes, id, 0) == Some(id));
                    }
                }
            },
            Some(parent) => {
                if exists|n: nat| first_met(nodes, parent, top, n) {
                    let n = choose|n: nat| first_met(nodes, parent, top, n);
                    lemma_depth(nodes, parent, top, n);
                    assert forall|less: nat| less < n + 1 implies #[trigger] above(nodes, id, less)
                        != Some(top) by {
                        if less > 0 {
                            assert(above(nodes, parent, (less - 1) as nat) != Some(top));
                        }
                    }
                    assert(above(nodes, id, n + 1) == above(nodes, parent, n));
                    lemma_depth(nodes, id, top, n + 1);
                } else if exists|n: nat| first_met(nodes, id, top, n) {
                    let n = choose|n: nat| first_met(nodes, id, top, n);
                    assert(n > 0) by {
                        assert(above(nodes, id, 0) == Some(id));
                    }
                    let up = (n - 1) as nat;
                    assert(above(nodes, id, n) == above(nodes, parent, up));
                    assert forall|less: nat| less < up implies #[trigger] above(nodes, parent, less)
                        != Some(top) by {
                        assert(above(nodes, id, less + 1) == above(nodes, parent, less));
                    }
                    assert(first_met(nodes, parent, top, up));
                }
            },
        }
    }
}

/// Removing an entity takes it out with everything below it, and nothing else:
/// what stays is as it was, and nothing of it lies in what is gone.
pub proof fn removal_leaves_no_orphans(tree: TreeView, top: Seq<char>, id: Seq<char>)
    ensures
        ({
            let nodes = without_node(tree, top).nodes;
            &&& !nodes.contains_key(top)
            &&& nodes.contains_key(id) ==> {
                &&& tree.nodes.contains_key(id)
                &&& nodes[id] == tree.nodes[id]
                &&& nodes[id].parent matches Some(parent) ==> !subtree(tree.nodes, top).contains(
                    parent,
                )
            }
            &&& tree.nodes.contains_key(id) && !nodes.contains_key(id) ==> id == top || (
            tree.nodes[id].parent matches Some(parent) && subtree(tree.nodes, top).contains(parent))
        }),
{
    depth_grows_downwards(tree.nodes, top, top);
    depth_grows_downwards(tree.nodes, id, top);
}

/// Only `top` itself has depth 0.
proof fn lemma_depth_zero(nodes: Nodes, id: Seq<char>, top: Seq<char>)
    ensures
        depth_below(nodes, id, top) >= -1,
        depth_below(nodes, id, top) == 0 ==> id == top,
        depth_below(nodes, id, top) >= 0 ==> nodes.contains_key(id) && nodes.contains_key(top),
{
    depth_grows_downwards(nodes, id, top);
    if exists|n: nat| first_met(nodes, id, top, n) {
        let n = choose|n: nat| first_met(nodes, id, top, n);
        lemma_above_holds(nodes, id, n);
        if n == 0 {
            assert(above(nodes, id, 0) == Some(id));
        }
    }
}

proof fn lemma_above_holds(nodes: Nodes, id: Seq<char>, steps: nat)
    requires
        above(nodes, id, steps) is Some,
    ensures
        nodes.contains_key(id),
        nodes.contains_key(above(nodes, id, steps)->0),
    decreases steps,
{
    if steps > 0 {
        lemma_above_holds(nodes, nodes[id].parent->0, (steps - 1) as nat);
    }
}

/// When nothing lies at one depth, nothing lies deeper.
proof fn lemma_nothing_deeper(nodes: Nodes, id: Seq<char>, top: Seq<char>, depth: int)
    requires
        depth >= 0,
        forall|x: Seq<char>| #[trigger] depth_below(nodes, x, top) != depth,
    ensures
        depth_below(nodes, id, top) < depth,
    decreases depth_below(nodes, id, top),
{
    if depth_below(nodes, id, top) > depth {
        lemma_depth_zero(nodes, id, top);
        depth_grows_downwards(nodes, id, top);
        let parent = nodes[id].parent->0;
        lemma_nothing_deeper(nodes, parent, top, depth);
        assert(depth_below(nodes, parent, top) != depth);
    }
}

/// Tells whether a text stands in a list.
pub fn listed(list: &Vec<String>, text: &str) -> (yes: bool)
    ensures
        yes == texts(list@).contains(text@),
{
    let mut i: usize = 0;
    while i < list.len()
        invariant
            i <= list@.len(),
            forall|j: int| 0 <= j < i ==> (#[trigger] list@[j])@ != text@,
        decreases list@.len() - i,
    {
        if same_text(list[i].as_str(), text) {
            assert(texts(list@)[i as int] == text@);
            return true;
        }
        i += 1;
    }
    assert forall|j: int| 0 <= j < texts(list@).len() implies texts(list@)[j] != text@ by {
        assert(list@[j]@ != text@);
    }
    false
}

/// Whether the folder of an entity stands in a list.
pub open spec fn orphaned(nodes: Nodes, gone: Seq<Seq<char>>, id: Seq<char>) -> bool {
    &&& nodes.contains_key(id)
    &&& nodes[id].parent matches Some(parent) && gone.contains(parent)
}

impl ProjectTree {
    /// The entities whose folder stands in a list, in order.
    fn orphans(&self, gone: &Vec<String>) -> (list: Vec<String>)
        ensures
            in_order(texts(list@)),
            forall|id: Seq<char>|
                #[trigger] texts(list@).contains(id) <==> orphaned(
                    self@.nodes,
                    texts(gone@),
                    id,
                ),
    {
        let n: usize = self.nodes.len();
        let ghost keys = self.nodes.keys();
        let ghost nodes = self@.nodes;
        let mut list: Vec<String> = Vec::new();
        let mut i: usize = 0;
        while i < n
            invariant
                i <= n,
                n == keys.len(),
                keys == self.nodes.keys(),
                nodes == self@.nodes,
                lists_keys(keys, nodes),
                in_order(texts(list@)),
                forall|j: int|
                    0 <= j < list@.len() ==> keys.take(i as int).contains(#[trigger] texts(list@)[j]),
                forall|id: Seq<char>|
                    #[trigger] texts(list@).contains(id) <==> orphaned(nodes, texts(gone@), id)
                        && keys.take(i as int).contains(id),
            decreases n - i,
        {
            let id = self.nodes.key_at(i);
            let node = self.nodes.value_at(i);
            let ghost before = texts(list@);
            proof {
                assert(keys.take(i + 1) =~= keys.take(i as int).push(id@));
                assert forall|x: Seq<char>| #[trigger]
                    keys.take(i + 1).contains(x) <==> keys.take(i as int).contains(x) || x == id@ by {
                    if keys.take(i as int).contains(x) {
                        let j = keys.take(i as int).index_of(x);
                        assert(keys.take(i + 1)[j] == x);
                    }
                    assert(keys.take(i + 1)[i as int] == id@);
                    if keys.take(i + 1).contains(x) {
                        let j = keys.take(i + 1).index_of(x);
                        if j < i {
                            assert(keys.take(i as int)[j] == x);
                        }
                    }
                }
            }
            let out = match &node.parent {
                Some(parent) => listed(gone, parent.as_str()),
                None => false,
            };
            assert(out == orphaned(nodes, texts(gone@), id@));
            if out {
                list.push(id.clone());
                proof {
                    let now = texts(list@);
                    assert(now =~= before.push(id@));
                    assert forall|x: Seq<char>| #[trigger]
                        now.contains(x) <==> before.contains(x) || x == id@ by {
                        if before.contains(x) {
                            assert(now[before.index_of(x)] == x);
                        }
                        assert(now[before.len() as int] == id@);
                        if now.contains(x) {
                            let j = now.index_of(x);
                            if j < before.len() {
                                assert(before[j] == x);
                            }
                        }
                    }
                    assert forall|a: int, b: int| 0 <= a < b < now.len() implies precedes(
                        #[trigger] now[a],
                        #[trigger] now[b],
                    ) by {
                        if b == before.len() {
                            assert(keys.take(i as int).contains(before[a]));
                            let k = keys.take(i as int).index_of(before[a]);
                            assert(precedes(keys[k], keys[i as int]));
                        } else {
                            assert(precedes(before[a], before[b]));
                        }
                    }
                    assert forall|j: int| 0 <= j < list@.len() implies keys.take(i + 1).contains(
                        #[trigger] texts(list@)[j],
                    ) by {
                        if j < before.len() {
                            assert(keys.take(i as int).contains(before[j]));
                        }
                    }
                }
            }
            i += 1;
        }
        assert(keys.take(n as int) =~= keys);
        list
    }

    /// Removes an entity with everything below it. Returns the ids of what
    /// went, from the top down.
    pub fn remove_node(&mut self, id: &str) -> (removed: Vec<String>)
        ensures
            texts(removed@) == removal(old(self)@.nodes, id@),
            lists_subtree(old(self)@.nodes, id@, texts(removed@)),
            final(self)@ == without_node(old(self)@, id@),
    {
        let ghost nodes = self@.nodes;
        let ghost top = id@;
        let ghost tree = self@;
        let mut removed: Vec<String> = Vec::new();
        proof {
            depth_grows_downwards(nodes, top, top);
        }
        let present = self.nodes.remove(id).is_some();
        if present {
            removed.push(id.to_owned());
            assert(texts(removed@) =~= seq![top]);
        } else {
            assert(texts(removed@) =~= Seq::<Seq<char>>::empty());
        }
        let ghost mut depth: int = 0;
        let _left: usize = self.nodes.len();
        proof {
            listed_keys_are_counted(self.nodes.keys(), self.nodes@);
            assert forall|x: Seq<char>| #[trigger] texts(removed@).contains(x) <==> 0
                <= depth_below(nodes, x, top) <= 0 by {
                lemma_depth_zero(nodes, x, top);
                if x == top && present {
                    assert(texts(removed@)[0] == x);
                }
            }
            assert forall|x: Seq<char>| #[trigger] self@.nodes.contains_key(x) <==> nodes.contains_key(
                x,
            ) && !texts(removed@).contains(x) by {
                lemma_depth_zero(nodes, x, top);
                assert(texts(removed@).contains(x) <==> 0 <= depth_below(nodes, x, top) <= 0);
            }
        }
        loop
            invariant_except_break
                depth >= 0,
                forall|x: Seq<char>| #[trigger]
                    texts(removed@).contains(x) <==> 0 <= depth_below(nodes, x, top) <= depth,
            invariant
                ascending(
                    texts(removed@),
                    |a: Seq<char>, b: Seq<char>| removed_before(nodes, top, a, b),
                ),
                forall|x: Seq<char>| #[trigger]
                    self@.nodes.contains_key(x) <==> nodes.contains_key(x) && !texts(
                        removed@,
                    ).contains(x),
                forall|x: Seq<char>| #[trigger]
                    self@.nodes.contains_key(x) ==> self@.nodes[x] == nodes[x],
                self@ == (TreeView { nodes: self@.nodes, ..tree }),
                self@.nodes.dom().finite(),
                tree == old(self)@,
                nodes == tree.nodes,
                top == id@,
            ensures
                forall|x: Seq<char>| #[trigger]
                    texts(removed@).contains(x) <==> 0 <= depth_below(nodes, x, top),
            decreases self@.nodes.dom().len(),
        {
            let fresh = self.orphans(&removed);
            let ghost layer = texts(fresh@);
            proof {
                assert forall|x: Seq<char>| #[trigger]
                    layer.contains(x) <==> depth_below(nodes, x, top) == depth + 1 by {
                    lemma_depth_zero(nodes, x, top);
                    depth_grows_downwards(nodes, x, top);
                    assert(layer.contains(x) <==> orphaned(self@.nodes, texts(removed@), x));
                    assert(self@.nodes.contains_key(x) <==> nodes.contains_key(x) && !texts(
                        removed@,
                    ).contains(x));
                    assert(texts(removed@).contains(x) <==> 0 <= depth_below(nodes, x, top)
                        <= depth);
                    if nodes.contains_key(x) && nodes[x].parent is Some {
                        let parent = nodes[x].parent->0;
                        assert(texts(removed@).contains(parent) <==> 0 <= depth_below(
                            nodes,
                            parent,
                            top,
                        ) <= depth);
                    }
                    if x == top && nodes.contains_key(top) {
                        assert(depth_below(nodes, x, top) == 0);
                    }
                }
            }
            if fresh.len() == 0 {
                proof {
                    assert forall|x: Seq<char>| #[trigger]
                        texts(removed@).contains(x) <==> 0 <= depth_below(nodes, x, top) by {
                        assert forall|y: Seq<char>| #[trigger] depth_below(nodes, y, top) != depth
                            + 1 by {
                            assert(!layer.contains(y));
                        }
                        lemma_nothing_deeper(nodes, x, top, depth + 1);
                    }
                }
                break;
            }
            let ghost size = self@.nodes.dom().len();
            let ghost before = texts(removed@);
            proof {
                in_order_is_duplicate_free(layer);
                assert(layer.contains(layer[0]));
                assert(orphaned(self@.nodes, before, layer[0]));
                assert(removed@.skip(before.len() as int) =~= Seq::<String>::empty());
                assert(before + layer.take(0) =~= before);
            }
            let mut k: usize = 0;
            while k < fresh.len()
                invariant
                    k <= fresh@.len(),
                    layer == texts(fresh@),
                    layer.no_duplicates(),
                    forall|x: Seq<char>|
                        layer.contains(x) ==> nodes.contains_key(x) && !before.contains(x),
                    texts(removed@) == before + layer.take(k as int),
                    forall|x: Seq<char>| #[trigger]
                        self@.nodes.contains_key(x) <==> nodes.contains_key(x) && !texts(
                            removed@,
                        ).contains(x),
                    forall|x: Seq<char>| #[trigger]
                        self@.nodes.contains_key(x) ==> self@.nodes[x] == nodes[x],
                    self@ == (TreeView { nodes: self@.nodes, ..tree }),
                    self@.nodes.dom().finite(),
                    self@.nodes.dom().len() + k == size,
                decreases fresh@.len() - k,
            {
                let ghost was = texts(removed@);
                let ghost had = self@.nodes;
                let gone = fresh[k].clone();
                proof {
                    assert(layer[k as int] == gone@);
                    assert(layer.contains(gone@));
                    assert(!was.contains(gone@)) by {
                        if was.contains(gone@) {
                            let j = was.index_of(gone@);
                            if j < before.len() {
                                assert(before[j] == gone@);
                            } else {
                                assert(layer.take(k as int)[j - before.len()] == gone@);
                                assert(layer[j - before.len()] == gone@);
                            }
                        }
                    }
                    assert(had.contains_key(gone@));
                }
                let _taken = self.nodes.remove(gone.as_str());
                removed.push(gone);
                proof {
                    assert(layer.take(k + 1) =~= layer.take(k as int).push(gone@));
                    assert(texts(removed@) =~= was.push(gone@));
                    assert(texts(removed@) =~= before + layer.take(k + 1));
                    assert(self@.nodes.dom() =~= had.dom().remove(gone@));
                    assert forall|x: Seq<char>| #[trigger]
                        self@.nodes.contains_key(x) <==> nodes.contains_key(x) && !texts(
                            removed@,
                        ).contains(x) by {
                        assert(had.contains_key(x) <==> nodes.contains_key(x) && !was.contains(x));
                        lemma_push_contains(was, gone@, x);
                    }
                }
                k += 1;
            }
            proof {
                assert(layer.take(layer.len() as int) =~= layer);
                let now = texts(removed@);
                let order = |a: Seq<char>, b: Seq<char>| removed_before(nodes, top, a, b);
                assert forall|i: int, j: int| 0 <= i < j < now.len() implies #[trigger] order(
                    now[i],
                    now[j],
                ) by {
                    if j < before.len() {
                        assert(order(before[i], before[j]));
                    } else if i < before.len() {
                        assert(before.contains(before[i]));
                        assert(layer.contains(layer[j - before.len()]));
                    } else {
                        assert(layer.contains(layer[i - before.len()]));
                        assert(layer.contains(layer[j - before.len()]));
                        assert(precedes(layer[i - before.len()], layer[j - before.len()]));
                    }
                }
                assert forall|x: Seq<char>| #[trigger] now.contains(x) <==> 0 <= depth_below(
                    nodes,
                    x,
                    top,
                ) <= depth + 1 by {
                    assert(before.contains(x) <==> 0 <= depth_below(nodes, x, top) <= depth);
                    assert(layer.contains(x) <==> depth_below(nodes, x, top) == depth + 1);
                    if before.contains(x) {
                        assert(now[before.index_of(x)] == x);
                    }
                    if layer.contains(x) {
                        assert(now[before.len() + layer.index_of(x)] == x);
                    }
                    if now.contains(x) {
                        let j = now.index_of(x);
                        if j < before.len() {
                            assert(before[j] == x);
                        } else {
                            assert(layer[j - before.len()] == x);
                        }
                    }
                }
                depth = depth + 1;
            }
        }
        proof {
            let list = texts(removed@);
            assert(lists_subtree(nodes, top, list));
            removal_is_unique(nodes, top, list);
            assert(self@.nodes =~= without_node(tree, top).nodes) by {
                assert forall|x: Seq<char>| self@.nodes.contains_key(x) <==> without_node(
                    tree,
                    top,
                ).nodes.contains_key(x) by {
                    assert(list.contains(x) <==> subtree(nodes, top).contains(x));
                }
            }
        }
        removed
    }
}

proof fn lemma_push_contains(list: Seq<Seq<char>>, last: Seq<char>, x: Seq<char>)
    ensures
        list.push(last).contains(x) <==> list.contains(x) || x == last,
{
    let now = list.push(last);
    if list.contains(x) {
        assert(now[list.index_of(x)] == x);
    }
    assert(now[list.len() as int] == last);
    if now.contains(x) {
        let j = now.index_of(x);
        if j < list.len() {
            assert(list[j] == x);
        }
    }
}

// --- building from the server's description ------------------------------

/// The entities with those of a folder's docs or files added.
pub open spec fn with_refs(
    nodes: Nodes,
    refs: Seq<EntityRefJson>,
    kind: EntityKind,
    parent: Option<Seq<char>>,
) -> Nodes
    decreases refs.len(),
{
    if refs.len() == 0 {
        nodes
    } else {
        with_refs(nodes, refs.drop_last(), kind, parent).insert(
            refs.last().id@,
            NodeView { name: refs.last().name@, kind, parent },
        )
    }
}

/// The entities with all that a folder holds added: first its docs, then its
/// files, then its folders, each followed by what it holds.
pub open spec fn with_folder(nodes: Nodes, folder: FolderJson, parent: Option<Seq<char>>) -> Nodes
    decreases folder,
{
    let docs = with_refs(nodes, folder.docs@, EntityKind::Doc, parent);
    let files = with_refs(docs, folder.file_refs@, EntityKind::File, parent);
    with_subfolders(files, folder.folders@, parent)
}

/// The entities with the given folders and all that they hold added.
pub open spec fn with_subfolders(
    nodes: Nodes,
    folders: Seq<FolderJson>,
    parent: Option<Seq<char>>,
) -> Nodes
    decreases folders,
{
    if folders.len() == 0 {
        nodes
    } else {
        let sub = folders.last();
        let before = with_subfolders(nodes, folders.drop_last(), parent);
        with_folder(
            before.insert(sub.id@, NodeView { name: sub.name@, kind: EntityKind::Folder, parent }),
            sub,
            Some(sub.id@),
        )
    }
}

/// The tree of a project as the server describes it. The root folder itself is
/// not an entity of the tree.
pub open spec fn joined_tree(project: JoinedProject) -> TreeView {
    let root = project.root_folder@[0];
    TreeView {
        project_id: project.id@,
        project_name: project.name@,
        root_folder_id: root.id@,
        root_doc_id: opt_text(project.root_doc_id),
        compiler: opt_text(project.compiler),
        nodes: with_folder(Map::empty(), root, None),
    }
}

/// A tree, or the error in its place, as plain values.
pub open spec fn tree_result(res: Result<ProjectTree>) -> core::result::Result<
    TreeView,
    ErrorView,
> {
    match res {
        Ok(tree) => Ok(tree@),
        Err(e) => Err(e@),
    }
}

/// What building a tree from the server's description gives.
pub open spec fn join_result(project: JoinedProject) -> core::result::Result<TreeView, ErrorView> {
    if project.root_folder@.len() == 0 {
        Err(ErrorView::Protocol("joinProjectResponse has no root folder"@))
    } else {
        Ok(joined_tree(project))
    }
}

fn owned(text: Option<&str>) -> (copy: Option<String>)
    ensures
        opt_text(copy) == opt_str(text),
{
    match text {
        Some(t) => Some(t.to_owned()),
        None => None,
    }
}

fn collect_refs(
    nodes: &mut Table<TreeNode>,
    refs: &Vec<EntityRefJson>,
    kind: EntityKind,
    parent: Option<&str>,
)
    ensures
        final(nodes)@ == with_refs(old(nodes)@, refs@, kind, opt_str(parent)),
{
    let mut i: usize = 0;
    let ghost first = nodes@;
    assert(refs@.take(0) =~= Seq::<EntityRefJson>::empty());
    while i < refs.len()
        invariant
            i <= refs@.len(),
            nodes@ == with_refs(first, refs@.take(i as int), kind, opt_str(parent)),
        decreases refs@.len() - i,
    {
        let entry = &refs[i];
        assert(refs@.take(i + 1).drop_last() =~= refs@.take(i as int));
        nodes.insert(
            entry.id.clone(),
            TreeNode { name: entry.name.clone(), kind, parent: owned(parent) },
        );
        i += 1;
    }
    assert(refs@.take(refs@.len() as int) =~= refs@);
}

fn collect(nodes: &mut Table<TreeNode>, folder: &FolderJson, parent: Option<&str>)
    ensures
        final(nodes)@ == with_folder(old(nodes)@, *folder, opt_str(parent)),
    decreases folder,
{
    collect_refs(nodes, &folder.docs, EntityKind::Doc, parent);
    collect_refs(nodes, &folder.file_refs, EntityKind::File, parent);
    let ghost files = nodes@;
    let ghost subs = folder.folders@;
    let mut i: usize = 0;
    assert(subs.take(0) =~= Seq::<FolderJson>::empty());
    while i < folder.folders.len()
        invariant
            i <= subs.len(),
            subs == folder.folders@,
            nodes@ == with_subfolders(files, subs.take(i as int), opt_str(parent)),
        decreases subs.len() - i,
    {
        let sub = &folder.folders[i];
        assert(subs.take(i + 1).drop_last() =~= subs.take(i as int));
        nodes.insert(
            sub.id.clone(),
            TreeNode { name: sub.name.clone(), kind: EntityKind::Folder, parent: owned(parent) },
        );
        assert(decreases_to!(folder => folder.folders@[i as int]));
        collect(nodes, sub, Some(sub.id.as_str()));
        i += 1;
    }
    assert(subs.take(subs.len() as int) =~= subs);
}

impl ProjectTree {
    /// Builds the tree of a project from the server's description.
    pub fn from_join(project: &JoinedProject) -> (tree: Result<Self>)
        ensures
            tree_result(tree) == join_result(*project),
    {
        if project.root_folder.len() == 0 {
            return Err(
                OverleafError::Protocol("joinProjectResponse has no root folder".to_owned()),
            );
        }
        let root = &project.root_folder[0];
        let mut nodes: Table<TreeNode> = Table::new();
        collect(&mut nodes, root, None);
        Ok(
            ProjectTree {
                project_id: project.id.clone(),
                project_name: project.name.clone(),
                root_folder_id: root.id.clone(),
                root_doc_id: clone_opt(&project.root_doc_id),
                compiler: clone_opt(&project.compiler),
                nodes,
            },
        )
    }
}

/// The path of an entity is that of its folder, a slash and its name; what lies
/// in the root folder has just a slash before its name. An entity whose folder
/// has no path has none either.
pub proof fn paths_follow_the_folders(nodes: Nodes, id: Seq<char>)
    requires
        nodes.dom().finite(),
        nodes.contains_key(id),
    ensures
        nodes[id].parent is None ==> path_in(nodes, id) == Some(seq!['/'] + nodes[id].name),
        nodes[id].parent matches Some(folder) ==> path_in(nodes, id) == match path_in(
            nodes,
            folder,
        ) {
            Some(path) => Some(path + seq!['/'] + nodes[id].name),
            None => None,
        },
{
    reveal_strlit("/");
    assert("/"@ =~= seq!['/']);
    let n = nodes.dom().len();
    assert(n > 0) by {
        if n == 0 {
            assert(nodes.dom() =~= Set::empty());
            assert(nodes.dom().contains(id));
        }
    }
    let name = nodes[id].name;
    match nodes[id].parent {
        None => {
            let none = Seq::<Seq<char>>::empty();
            assert(seq![name] =~= none.push(name));
            lemma_slash_path_grows(none, name);
            assert(child_path(Seq::empty(), name) =~= seq!['/'] + name);
        },
        Some(folder) => {
            if trail(nodes, folder, n) is Some {
                assert(trail(nodes, id, n + 1) is Some);
                path_is_found_within_the_tree(nodes, id, n + 1);
                let names = trail(nodes, folder, n)->0;
                lemma_trail_is_not_empty(nodes, folder, n);
                lemma_slash_path_grows(names, name);
            } else if trail(nodes, folder, (n - 1) as nat) is Some {
                lemma_trail_more_fuel(nodes, folder, (n - 1) as nat, n);
            }
        },
    }
}

/// Whether a list names an entity.
pub open spec fn names_entity(refs: Seq<EntityRefJson>, id: Seq<char>, name: Seq<char>) -> bool {
    exists|i: int| 0 <= i < refs.len() && (#[trigger] refs[i]).id@ == id && refs[i].name@ == name
}

/// Whether the server's description of a folder says that an entity lies in it
/// or below it.
pub open spec fn describes(
    folder: FolderJson,
    parent: Option<Seq<char>>,
    id: Seq<char>,
    node: NodeView,
) -> bool
    decreases folder,
{
    ||| node.parent == parent && node.kind == EntityKind::Doc && names_entity(
        folder.docs@,
        id,
        node.name,
    )
    ||| node.parent == parent && node.kind == EntityKind::File && names_entity(
        folder.file_refs@,
        id,
        node.name,
    )
    ||| exists|i: int|
        0 <= i < folder.folders@.len() && ((#[trigger] folder.folders@[i]).id@ == id && node == (
        NodeView { name: folder.folders@[i].name@, kind: EntityKind::Folder, parent })
            || describes(folder.folders@[i], Some(folder.folders@[i].id@), id, node))
}

proof fn lemma_refs_are_entered(
    nodes: Nodes,
    refs: Seq<EntityRefJson>,
    kind: EntityKind,
    parent: Option<Seq<char>>,
    id: Seq<char>,
    name: Seq<char>,
)
    ensures
        ({
            let now = with_refs(nodes, refs, kind, parent);
            &&& nodes.contains_key(id) || names_entity(refs, id, name) ==> now.contains_key(id)
            &&& now.contains_key(id) ==> nodes.contains_key(id) && now[id] == nodes[id] || now[id]
                == (NodeView { name: now[id].name, kind, parent }) && names_entity(
                refs,
                id,
                now[id].name,
            )
        }),
    decreases refs.len(),
{
    if refs.len() > 0 {
        let short = refs.drop_last();
        lemma_refs_are_entered(nodes, short, kind, parent, id, name);
        let before = with_refs(nodes, short, kind, parent);
        let now = with_refs(nodes, refs, kind, parent);
        assert(refs[refs.len() - 1] == refs.last());
        if names_entity(refs, id, name) {
            let i = choose|i: int|
                0 <= i < refs.len() && (#[trigger] refs[i]).id@ == id && refs[i].name@ == name;
            if i < short.len() {
                assert(short[i] == refs[i]);
            }
        }
        if now.contains_key(id) && id != refs.last().id@ && names_entity(
            short,
            id,
            before[id].name,
        ) {
            let i = choose|i: int|
                0 <= i < short.len() && (#[trigger] short[i]).id@ == id && short[i].name@
                    == before[id].name;
            assert(refs[i] == short[i]);
        }
    }
}

proof fn lemma_folder_is_entered(
    nodes: Nodes,
    folder: FolderJson,
    parent: Option<Seq<char>>,
    id: Seq<char>,
    node: NodeView,
)
    ensures
        ({
            let now = with_folder(nodes, folder, parent);
            &&& nodes.contains_key(id) || describes(folder, parent, id, node) ==> now.contains_key(
                id,
            )
            &&& now.contains_key(id) ==> nodes.contains_key(id) && now[id] == nodes[id]
                || describes(folder, parent, id, now[id])
        }),
    decreases folder,
{
    let docs = with_refs(nodes, folder.docs@, EntityKind::Doc, parent);
    let files = with_refs(docs, folder.file_refs@, EntityKind::File, parent);
    let now = with_folder(nodes, folder, parent);
    lemma_refs_are_entered(nodes, folder.docs@, EntityKind::Doc, parent, id, node.name);
    lemma_refs_are_entered(docs, folder.file_refs@, EntityKind::File, parent, id, node.name);
    lemma_subfolders_are_entered(files, folder.folders@, parent, id, node);
}

proof fn lemma_subfolders_are_entered(
    nodes: Nodes,
    folders: Seq<FolderJson>,
    parent: Option<Seq<char>>,
    id: Seq<char>,
    node: NodeView,
)
    ensures
        ({
            let now = with_subfolders(nodes, folders, parent);
            &&& nodes.contains_key(id) ==> now.contains_key(id)
            &&& (exists|i: int|
                0 <= i < folders.len() && ((#[trigger] folders[i]).id@ == id && node == (NodeView {
                    name: folders[i].name@,
                    kind: EntityKind::Folder,
                    parent,
                }) || describes(folders[i], Some(folders[i].id@), id, node)))
                ==> now.contains_key(id)
            &&& now.contains_key(id) ==> nodes.contains_key(id) && now[id] == nodes[id] || exists|
                i: int,
            |
                0 <= i < folders.len() && ((#[trigger] folders[i]).id@ == id && now[id] == (
                NodeView { name: folders[i].name@, kind: EntityKind::Folder, parent }) || describes(
                    folders[i],
                    Some(folders[i].id@),
                    id,
                    now[id],
                ))
        }),
    decreases folders,
{
    if folders.len() > 0 {
        let short = folders.drop_last();
        let sub = folders.last();
        lemma_subfolders_are_entered(nodes, short, parent, id, node);
        let before = with_subfolders(nodes, short, parent);
        let own = NodeView { name: sub.name@, kind: EntityKind::Folder, parent };
        let entered = before.insert(sub.id@, own);
        let now = with_subfolders(nodes, folders, parent);
        lemma_folder_is_entered(entered, sub, Some(sub.id@), id, node);
        let last = folders.len() - 1;
        assert(folders[last] == sub);
        assert forall|i: int| 0 <= i < short.len() implies folders[i] == #[trigger] short[i] by {}
        if exists|i: int|
            0 <= i < folders.len() && ((#[trigger] folders[i]).id@ == id && node == (NodeView {
                name: folders[i].name@,
                kind: EntityKind::Folder,
                parent,
            }) || describes(folders[i], Some(folders[i].id@), id, node)) {
            let i = choose|i: int|
                0 <= i < folders.len() && ((#[trigger] folders[i]).id@ == id && node == (NodeView {
                    name: folders[i].name@,
                    kind: EntityKind::Folder,
                    parent,
                }) || describes(folders[i], Some(folders[i].id@), id, node));
            if i < last {
                assert(short[i] == folders[i]);
            }
        }
    }
}

/// The tree of a project holds the docs, files and folders that the server
/// describes and nothing else, each under its name, as what it is, in the folder
/// that it was described in. Of an id that is described twice, one of the
/// descriptions holds.
pub proof fn tree_holds_what_is_described(
    project: JoinedProject,
    id: Seq<char>,
    node: NodeView,
)
    requires
        project.root_folder@.len() > 0,
    ensures
        join_result(project) matches Ok(tree) && {
            &&& describes(project.root_folder@[0], None, id, node) ==> tree.nodes.contains_key(id)
            &&& tree.nodes.contains_key(id) ==> describes(
                project.root_folder@[0],
                None,
                id,
                tree.nodes[id],
            )
            &&& tree.root_folder_id == project.root_folder@[0].id@
            &&& tree.project_id == project.id@
            &&& tree.project_name == project.name@
        },
{
    lemma_folder_is_entered(Map::empty(), project.root_folder@[0], None, id, node);
}

/// What a removal takes out is the entity itself and what has it among the
/// folders above it, however far up; anything else stays.
pub proof fn removal_takes_what_lies_below(nodes: Nodes, id: Seq<char>, top: Seq<char>)
    ensures
        nodes.contains_key(top) ==> subtree(nodes, top).contains(top),
        nodes.contains_key(id) && nodes[id].parent == Some(top) && nodes.contains_key(top)
            ==> subtree(nodes, top).contains(id),
        nodes.contains_key(id) && id != top ==> (subtree(nodes, top).contains(id) <==> (
        nodes[id].parent is Some && subtree(nodes, top).contains(nodes[id].parent->0))),
        !nodes.contains_key(id) ==> !subtree(nodes, top).contains(id),
        !nodes.contains_key(top) ==> !subtree(nodes, top).contains(id),
{
    depth_grows_downwards(nodes, top, top);
    depth_grows_downwards(nodes, id, top);
    lemma_depth_zero(nodes, id, top);
    if nodes.contains_key(id) && nodes[id].parent is Some {
        lemma_depth_zero(nodes, nodes[id].parent->0, top);
    }
}

/// Renaming and moving change the name and the folder, and leave the rest of an
/// entity as it is; what is not in the tree is not changed.
pub proof fn entity_keeps_what_is_not_changed(
    tree: TreeView,
    id: Seq<char>,
    name: Seq<char>,
    folder: Seq<char>,
)
    ensures
        tree.nodes.contains_key(id) ==> {
            let renamed = with_name(tree, id, name).nodes[id];
            let moved = with_parent(tree, id, folder).nodes[id];
            &&& renamed == (NodeView { name, ..tree.nodes[id] })
            &&& moved.name == tree.nodes[id].name && moved.kind == tree.nodes[id].kind
            &&& folder == tree.root_folder_id ==> moved.parent is None
            &&& folder != tree.root_folder_id ==> moved.parent == Some(folder)
        },
        !tree.nodes.contains_key(id) ==> with_name(tree, id, name) == tree && with_parent(
            tree,
            id,
            folder,
        ) == tree,
{
}

/// Whatever is removed can be listed in the order of its removal.
pub proof fn every_removal_has_a_list(nodes: Nodes, top: Seq<char>)
    requires
        nodes.dom().finite(),
    ensures
        lists_subtree(nodes, top, removal(nodes, top)),
{
    let before = |a: Seq<char>, b: Seq<char>| removed_before(nodes, top, a, b);
    let items = nodes.dom().filter(|id: Seq<char>| subtree(nodes, top).contains(id));
    nodes.dom().lemma_len_filter(|id: Seq<char>| subtree(nodes, top).contains(id));
    assert forall|x: Seq<char>, y: Seq<char>| x == y || #[trigger] before(x, y) || before(y, x) by {
        precedes_total(x, y);
    }
    assert forall|x: Seq<char>, y: Seq<char>, z: Seq<char>| #[trigger]
        before(x, y) && #[trigger] before(y, z) implies before(x, z) by {
        if precedes(x, y) && precedes(y, z) {
            precedes_transitive(x, y, z);
        }
    }
    let list = finite_sets_are_listed(items, before);
    assert forall|id: Seq<char>| #[trigger] list.contains(id) <==> subtree(nodes, top).contains(
        id,
    ) by {
        lemma_depth_zero(nodes, id, top);
    }
    assert(lists_subtree(nodes, top, list));
}

} // verus!
