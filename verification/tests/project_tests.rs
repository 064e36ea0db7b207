use overleaf_mcp::folders::{FolderWalk, WalkStep};
use overleaf_mcp::project::{
    EntityKind, EntityRefJson, FolderJson, JoinedProject, ProjectTree,
};

fn entity(id: &str, name: &str) -> EntityRefJson {
    EntityRefJson { id: id.to_string(), name: name.to_string() }
}

fn folder(id: &str, name: &str) -> FolderJson {
    FolderJson {
        id: id.to_string(),
        name: name.to_string(),
        folders: vec![],
        docs: vec![],
        file_refs: vec![],
    }
}

fn sample() -> ProjectTree {
    let mut root = folder("root", "rootFolder");
    root.docs.push(entity("d1", "main.tex"));
    root.file_refs.push(entity("f1", "logo.png"));
    let mut sections = folder("s1", "sections");
    sections.docs.push(entity("d2", "intro.tex"));
    let mut deep = folder("s2", "deep");
    deep.docs.push(entity("d3", "more.tex"));
    sections.folders.push(deep);
    root.folders.push(sections);
    ProjectTree::from_join(&JoinedProject {
        id: "p1".to_string(),
        name: "Paper".to_string(),
        root_doc_id: Some("d1".to_string()),
        root_folder: vec![root],
        compiler: Some("pdflatex".to_string()),
    })
    .unwrap()
}

#[test]
fn tree_is_built_from_the_description() {
    let tree = sample();
    assert_eq!(tree.project_name, "Paper");
    assert_eq!(tree.root_folder_id, "root");
    let entries: Vec<(String, EntityKind, String)> = tree.entries();
    let shown: Vec<(&str, EntityKind, &str)> =
        entries.iter().map(|(p, k, i)| (p.as_str(), *k, i.as_str())).collect();
    assert_eq!(
        shown,
        [
            ("/logo.png", EntityKind::File, "f1"),
            ("/main.tex", EntityKind::Doc, "d1"),
            ("/sections", EntityKind::Folder, "s1"),
            ("/sections/deep", EntityKind::Folder, "s2"),
            ("/sections/deep/more.tex", EntityKind::Doc, "d3"),
            ("/sections/intro.tex", EntityKind::Doc, "d2"),
        ]
    );
    let docs = tree.docs();
    assert_eq!(docs.len(), 3);
    assert_eq!(docs[0], ("/main.tex".to_string(), "d1".to_string()));
    assert_eq!(tree.kind_of("s2"), Some(EntityKind::Folder));
    assert_eq!(tree.kind_of("root"), None);
}

#[test]
fn tree_without_a_root_folder_is_refused() {
    let empty = JoinedProject {
        id: "p".to_string(),
        name: "n".to_string(),
        root_doc_id: None,
        root_folder: vec![],
        compiler: None,
    };
    assert_eq!(
        ProjectTree::from_join(&empty).err().unwrap().message(),
        "realtime protocol error: joinProjectResponse has no root folder"
    );
}

#[test]
fn paths_are_normalized() {
    for (path, expected) in [
        ("", "/"),
        ("/", "/"),
        ("a/b", "/a/b"),
        ("//a/ ./b /", "/a/b"),
        ("./x", "/x"),
        ("/a/../b", "/a/../b"),
        (" a b / c", "/a b/c"),
    ] {
        assert_eq!(ProjectTree::normalize_path(path), expected);
        assert_eq!(ProjectTree::normalize_path(expected), expected);
    }
    assert_eq!(ProjectTree::split_path("/a//b/"), ["a", "b"]);
}

#[test]
fn entities_are_looked_up_by_path() {
    let tree = sample();
    assert_eq!(tree.lookup("sections/intro.tex"), Some(("d2".to_string(), EntityKind::Doc)));
    assert_eq!(tree.lookup("/nope"), None);
    assert_eq!(tree.lookup("/"), None);
    assert_eq!(tree.folder_id_of("/"), Some("root".to_string()));
    assert_eq!(tree.folder_id_of("sections/deep"), Some("s2".to_string()));
    assert_eq!(tree.folder_id_of("/main.tex"), None);
    assert_eq!(tree.path_of("d3"), Some("/sections/deep/more.tex".to_string()));
    assert_eq!(tree.path_of("gone"), None);
}

#[test]
fn of_two_entities_on_one_path_the_first_id_is_found() {
    let mut tree = sample();
    tree.insert_node("a0".to_string(), "main.tex".to_string(), EntityKind::File, "root");
    assert_eq!(tree.lookup("/main.tex"), Some(("a0".to_string(), EntityKind::File)));
    let entries = tree.entries();
    assert_eq!(entries[1].2, "d1");
    assert_eq!(entries[2].2, "a0");
}

#[test]
fn new_entity_is_found_where_it_was_put() {
    let mut tree = sample();
    tree.insert_node("n".to_string(), "new.tex".to_string(), EntityKind::Doc, "s2");
    assert_eq!(tree.path_of("n"), Some("/sections/deep/new.tex".to_string()));
    assert_eq!(tree.path_of("d2"), Some("/sections/intro.tex".to_string()));
    tree.insert_node("m".to_string(), "top.tex".to_string(), EntityKind::Doc, "root");
    assert_eq!(tree.path_of("m"), Some("/top.tex".to_string()));
}

#[test]
fn renaming_and_moving_change_paths() {
    let mut tree = sample();
    assert!(tree.rename_node("s1", "parts".to_string()));
    assert_eq!(tree.path_of("d3"), Some("/parts/deep/more.tex".to_string()));
    assert!(tree.reparent_node("s2", "root"));
    assert_eq!(tree.path_of("d3"), Some("/deep/more.tex".to_string()));
    assert!(!tree.rename_node("gone", "x".to_string()));
    assert!(!tree.reparent_node("gone", "root"));
}

#[test]
fn an_entity_below_itself_has_no_path() {
    let mut tree = sample();
    assert!(tree.reparent_node("s1", "s2"));
    assert_eq!(tree.path_of("d2"), None);
    assert_eq!(tree.entries().len(), 2);
}

#[test]
fn removing_takes_everything_below_from_the_top_down() {
    let mut tree = sample();
    tree.insert_node("a9".to_string(), "last.tex".to_string(), EntityKind::Doc, "s1");
    assert_eq!(tree.remove_node("s1"), ["s1", "a9", "d2", "s2", "d3"]);
    assert_eq!(tree.entries().len(), 2);
    assert_eq!(tree.remove_node("s1"), Vec::<String>::new());
    assert_eq!(tree.remove_node("d1"), ["d1"]);
    assert_eq!(tree.kind_of("f1"), Some(EntityKind::File));
}

#[test]
fn a_copy_of_a_tree_is_equal() {
    let tree = sample();
    let copy = tree.clone();
    assert_eq!(copy.entries(), tree.entries());
    assert_eq!(copy.compiler.as_deref(), Some("pdflatex"));
}

#[test]
fn kinds_have_words() {
    assert_eq!(EntityKind::Doc.route_segment(), "doc");
    assert_eq!(EntityKind::File.describe(), "file");
    assert_eq!(EntityKind::Folder.describe(), "folder");
}

#[test]
fn walk_finds_a_folder_that_exists() {
    let tree = sample();
    match FolderWalk::begin(&tree, "sections/deep").1 {
        WalkStep::Done(id) => assert_eq!(id, "s2"),
        other => panic!("{other:?}"),
    }
    match FolderWalk::begin(&tree, "/").1 {
        WalkStep::Done(id) => assert_eq!(id, "root"),
        other => panic!("{other:?}"),
    }
}

#[test]
fn walk_creates_what_is_missing() {
    let tree = sample();
    let (mut walk, step) = FolderWalk::begin(&tree, "/sections/new/more");
    match step {
        WalkStep::Create { parent_id, name } => {
            assert_eq!((parent_id.as_str(), name.as_str()), ("s1", "new"));
        }
        other => panic!("{other:?}"),
    }
    match walk.on_created(entity("n1", "new")) {
        WalkStep::Create { parent_id, name } => {
            assert_eq!((parent_id.as_str(), name.as_str()), ("n1", "more"));
        }
        other => panic!("{other:?}"),
    }
    match walk.on_created(entity("n2", "more")) {
        WalkStep::Done(id) => assert_eq!(id, "n2"),
        other => panic!("{other:?}"),
    }
    assert_eq!(walk.tree.path_of("n2"), Some("/sections/new/more".to_string()));
}

#[test]
fn walk_stops_at_something_other_than_a_folder() {
    let tree = sample();
    match FolderWalk::begin(&tree, "/main.tex/x").1 {
        WalkStep::Fail(e) => assert_eq!(
            e.message(),
            "edit rejected: /main.tex exists and is a doc, not a folder"
        ),
        other => panic!("{other:?}"),
    }
}

#[test]
fn every_path_is_found_again() {
    let mut tree = sample();
    for (path, kind, id) in tree.entries() {
        assert_eq!(tree.lookup(&path), Some((id, kind)));
    }
    tree.insert_node("a0".to_string(), "main.tex".to_string(), EntityKind::File, "root");
    assert_eq!(tree.lookup("/main.tex"), Some(("a0".to_string(), EntityKind::File)));
}

#[test]
fn finished_walks_give_the_folder_at_the_path() {
    let tree = sample();
    for (path, expected) in [("/sections", 0), ("sections/a", 1), ("/x/ y /z", 3), ("/", 0)] {
        let (mut walk, mut step) = FolderWalk::begin(&tree, path);
        let mut created: usize = 0;
        let id = loop {
            match step {
                WalkStep::Done(id) => break id,
                WalkStep::Create { name, .. } => {
                    created += 1;
                    step = walk.on_created(entity(&format!("n{created}"), &name));
                }
                WalkStep::Fail(e) => panic!("{e:?}"),
            }
        };
        assert_eq!(created, expected);
        assert_eq!(walk.tree.folder_id_of(path), Some(id));
        for (path, kind, id) in tree.entries() {
            assert_eq!(walk.tree.lookup(&path), Some((id, kind)));
        }
    }
}
