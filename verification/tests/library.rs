use leaf::db::{Document, Folder};
use leaf::library::{
    build_document_rel_path, build_folder_chain_path, db_path, filename_migration_step,
    layout_migration_step, migration_paths, resolve_library_path, MigrationStep,
};

fn folder(id: &str, parent: Option<&str>, level: i64) -> Folder {
    Folder {
        id: id.to_string(),
        name: format!("name-{}", id),
        parent_id: parent.map(|p| p.to_string()),
        created_at: 0,
        level,
    }
}

fn doc(file_name: &str, folder_id: Option<&str>) -> Document {
    Document {
        id: "d1".to_string(),
        title: "T".to_string(),
        file_name: file_name.to_string(),
        library_path: file_name.to_string(),
        file_size: 1,
        summary: String::new(),
        imported_at: 0,
        source_created_at: 0,
        folder_id: folder_id.map(|f| f.to_string()),
    }
}

fn tree() -> Vec<Folder> {
    vec![
        folder("f3", Some("f2"), 3),
        folder("f1", None, 1),
        folder("f2", Some("f1"), 2),
        folder("g1", None, 1),
    ]
}

#[test]
fn chain_paths_follow_parents() {
    let folders = tree();
    assert_eq!(build_folder_chain_path(None, &folders), "");
    assert_eq!(build_folder_chain_path(Some("f1"), &folders), "f1");
    assert_eq!(build_folder_chain_path(Some("f2"), &folders), "f1/f2");
    assert_eq!(build_folder_chain_path(Some("f3"), &folders), "f1/f2/f3");
    assert_eq!(build_folder_chain_path(Some("nope"), &folders), "");
}

#[test]
fn chain_stops_at_a_missing_parent() {
    let folders = vec![folder("c", Some("gone"), 2)];
    assert_eq!(build_folder_chain_path(Some("c"), &folders), "c");
}

#[test]
fn document_paths_mirror_folders() {
    let folders = tree();
    assert_eq!(build_document_rel_path(&doc("a.html", None), &folders), "a.html");
    assert_eq!(build_document_rel_path(&doc("a.html", Some("f3")), &folders), "f1/f2/f3/a.html");
    assert_eq!(build_document_rel_path(&doc("b.html", Some("g1")), &folders), "g1/b.html");
    assert_eq!(build_document_rel_path(&doc("b.html", Some("missing")), &folders), "b.html");
}

#[test]
fn library_paths() {
    assert_eq!(db_path("/data/lib"), "/data/lib/library.db");
    assert_eq!(db_path("/data/lib/"), "/data/lib/library.db");
    assert_eq!(resolve_library_path("/data/lib", "f1/a.html"), "/data/lib/f1/a.html");
    assert_eq!(resolve_library_path("/data/lib", "/elsewhere/a.html"), "/elsewhere/a.html");
}

#[test]
fn migration_decisions() {
    assert!(migration_paths("/lib", "a.html", "a.html").is_none());
    let m = migration_paths("/lib", "Old Title.html", "a.html").unwrap();
    assert_eq!(m.src, "/lib/Old Title.html");
    assert_eq!(m.dst, "/lib/a.html");
    assert!(!m.same_place);
    let m = migration_paths("/lib", "f1//a.html", "f1/a.html").unwrap();
    assert!(m.same_place);

    assert_eq!(filename_migration_step(false, true, true), MigrationStep::Skip);
    assert_eq!(filename_migration_step(true, true, true), MigrationStep::MoveThenUpdate);
    assert_eq!(filename_migration_step(false, false, true), MigrationStep::MoveThenUpdate);
    assert_eq!(filename_migration_step(false, false, false), MigrationStep::Update);
    assert_eq!(layout_migration_step(false, true, true), MigrationStep::Update);
    assert_eq!(layout_migration_step(false, false, true), MigrationStep::MoveThenUpdate);
    assert_eq!(layout_migration_step(false, false, false), MigrationStep::Update);
}

#[test]
fn renaming_folders_moves_nothing() {
    let before = tree();
    let mut after = tree();
    for f in after.iter_mut() {
        f.name = format!("renamed {}", f.name);
        f.created_at = 99;
    }
    for id in ["f1", "f2", "f3", "g1", "nope"] {
        assert_eq!(build_folder_chain_path(Some(id), &before), build_folder_chain_path(Some(id), &after));
    }
    let d = doc("a.html", Some("f3"));
    assert_eq!(build_document_rel_path(&d, &before), build_document_rel_path(&d, &after));
    assert_eq!(build_document_rel_path(&d, &after), "f1/f2/f3/a.html");
}

#[test]
fn migration_plans_list_each_pending_document_once() {
    let mut docs = vec![doc("a.html", None), doc("b.html", Some("f2")), doc("c.html", None)];
    docs[0].library_path = "Title A.html".to_string();
    docs[2].library_path = "Title C.html".to_string();
    let plan = leaf::library::filename_migration_plan("/lib", &docs);
    let got: Vec<(usize, &str, &str, &str)> =
        plan.iter().map(|p| (p.index, p.target.as_str(), p.moved.src.as_str(), p.moved.dst.as_str())).collect();
    assert_eq!(
        got,
        vec![(0, "a.html", "/lib/Title A.html", "/lib/a.html"), (2, "c.html", "/lib/Title C.html", "/lib/c.html")]
    );
    // once every pending document points at its target, nothing is left to do
    for p in &plan {
        docs[p.index].library_path = p.target.clone();
    }
    assert!(leaf::library::filename_migration_plan("/lib", &docs).is_empty());

    let folders = tree();
    let layout = leaf::library::layout_migration_plan("/lib", &docs, &folders);
    let got: Vec<(usize, &str)> = layout.iter().map(|p| (p.index, p.target.as_str())).collect();
    assert_eq!(got, vec![(1, "f1/f2/b.html")]);
    for p in &layout {
        docs[p.index].library_path = p.target.clone();
    }
    assert!(leaf::library::layout_migration_plan("/lib", &docs, &folders).is_empty());
}
