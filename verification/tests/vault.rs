use leaf::parser::ParsedHtml;
use leaf::vault::{
    build_dir_index, check_dir_move_levels, checked_dir_name, checked_item_name, contains_separator,
    create_dir_path, dir_move_target, file_move_target, get_root, is_hidden, is_html, is_html_path,
    list_dirs, list_files, make_vault_file, rename_final_name, resolve_abs_path, root_name, root_path,
    should_ignore, VaultDir, VaultFile, VaultState,
};

fn file(rel: &str, id: &str) -> VaultFile {
    VaultFile {
        id: id.to_string(),
        title: rel.to_string(),
        file_name: rel.to_string(),
        rel_path: rel.to_string(),
        abs_path: format!("/v/{}", rel),
        file_size: 0,
        summary: String::new(),
        last_modified: 0,
        dir_path: String::new(),
    }
}

fn dir(rel: &str, level: u32) -> VaultDir {
    VaultDir {
        rel_path: rel.to_string(),
        name: rel.rsplit('/').next().unwrap().to_string(),
        parent_path: None,
        level,
    }
}

fn state() -> Option<VaultState> {
    Some(VaultState {
        files: vec![file("b.html", "1"), file("a/z.html", "2"), file("a-c.html", "3"), file("b.html", "4")],
        dirs: vec![dir("a", 1), dir("a/b", 2), dir("a/b/c", 3), dir("d", 1), dir("d/e", 2)],
        root: "/home/me/Vault".to_string(),
    })
}

#[test]
fn listing_sorts_by_path_stably() {
    let files = list_files(&state());
    let ids: Vec<&str> = files.iter().map(|f| f.id.as_str()).collect();
    assert_eq!(ids, vec!["3", "2", "1", "4"]);
    let dirs = list_dirs(&state());
    let rels: Vec<&str> = dirs.iter().map(|d| d.rel_path.as_str()).collect();
    assert_eq!(rels, vec!["a", "a/b", "a/b/c", "d", "d/e"]);
    assert!(list_files(&None).is_empty());
    assert!(list_dirs(&None).is_empty());
}

#[test]
fn root_information() {
    assert_eq!(leaf::vault::resolved_or_missing("/v/a.html".to_string(), true), Ok("/v/a.html".to_string()));
    assert_eq!(leaf::vault::resolved_or_missing("/v/b.html".to_string(), false), Err("文件不存在".to_string()));
    assert_eq!(leaf::vault::vault_display_name("/Users/me/Notes"), "Notes");
    assert_eq!(leaf::vault::vault_display_name("/Users/me/Notes/"), "Notes");
    assert_eq!(leaf::vault::vault_display_name("/"), "我的仓库");
    assert_eq!(leaf::vault::vault_display_name("/a/.."), "我的仓库");
    assert_eq!(root_path(&state()).as_deref(), Some("/home/me/Vault"));
    assert_eq!(root_name(&state()).as_deref(), Some("Vault"));
    assert_eq!(root_path(&None), None);
    assert_eq!(get_root(&None), Err("仓库尚未配置".to_string()));
    assert_eq!(get_root(&state()), Ok("/home/me/Vault".to_string()));
    assert_eq!(resolve_abs_path(&state(), "a/z.html"), Ok("/home/me/Vault/a/z.html".to_string()));
    let slash_root = Some(VaultState { files: vec![], dirs: vec![], root: "/".to_string() });
    assert_eq!(root_name(&slash_root), None);
}

#[test]
fn path_classes() {
    assert!(is_html("/v/a.html"));
    assert!(is_html("/v/a.HTM"));
    assert!(is_html_path("x/y.HtMl"));
    assert!(!is_html("/v/a.txt"));
    assert!(!is_html("/v/.html"));
    assert!(!is_html("/v/html"));
    assert!(is_hidden("/v/.git"));
    assert!(is_hidden("/v/.a.html"));
    assert!(!is_hidden("/v/a"));
    assert!(!is_hidden("/v/.."));
    assert!(should_ignore("/v/node_modules"));
    assert!(should_ignore("/v/x/target"));
    assert!(should_ignore(".DS_Store"));
    assert!(!should_ignore("/v/targets"));
}

#[test]
fn directory_index_keeps_three_levels() {
    let rels: Vec<String> = ["", "a", "a/b", "a/b/c", "a/b/c/d", "x"].iter().map(|s| s.to_string()).collect();
    let dirs = build_dir_index(&rels);
    let got: Vec<(String, String, Option<String>, u32)> = dirs
        .into_iter()
        .map(|d| (d.rel_path, d.name, d.parent_path, d.level))
        .collect();
    assert_eq!(
        got,
        vec![
            ("a".to_string(), "a".to_string(), None, 1),
            ("a/b".to_string(), "b".to_string(), Some("a".to_string()), 2),
            ("a/b/c".to_string(), "c".to_string(), Some("a/b".to_string()), 3),
            ("x".to_string(), "x".to_string(), None, 1),
        ]
    );
}

#[test]
fn file_entries() {
    let parsed = ParsedHtml { title: None, summary: "s".to_string() };
    let f = make_vault_file("slides/deck.v2.html", "/v/slides/deck.v2.html", "id".to_string(), parsed, 7, 9);
    assert_eq!(f.title, "deck.v2");
    assert_eq!(f.file_name, "deck.v2.html");
    assert_eq!(f.rel_path, "slides/deck.v2.html");
    assert_eq!(f.dir_path, "slides");
    assert_eq!(f.summary, "s");
    assert_eq!((f.file_size, f.last_modified), (7, 9));
    let parsed = ParsedHtml { title: Some("T".to_string()), summary: String::new() };
    let f = make_vault_file("a.html", "/v/a.html", "id".to_string(), parsed, 0, 0);
    assert_eq!(f.title, "T");
    assert_eq!(f.dir_path, "");
}

#[test]
fn moving_files_and_directories() {
    assert_eq!(
        file_move_target("/v", "a/x.html", ""),
        Ok(("x.html".to_string(), "/v/x.html".to_string()))
    );
    assert_eq!(
        file_move_target("/v", "x.html", "a/b"),
        Ok(("x.html".to_string(), "/v/a/b/x.html".to_string()))
    );
    assert_eq!(file_move_target("/", "", ""), Err("无效的文件路径".to_string()));
    assert_eq!(dir_move_target("/v", "a/b", ""), Ok(("b".to_string(), "/v/b".to_string())));
    assert_eq!(dir_move_target("/v", "a/b", "d"), Ok(("b".to_string(), "/v/d/b".to_string())));
    assert_eq!(dir_move_target("/v", "a/b/c", "a"), Ok(("c".to_string(), "/v/a/c".to_string())));
    assert_eq!(
        dir_move_target("/v", "a", "a/b"),
        Err("不能将文件夹移到它自己的子文件夹下".to_string())
    );
    assert_eq!(
        dir_move_target("/v", "a", "a"),
        Err("不能将文件夹移到它自己的子文件夹下".to_string())
    );
    assert_eq!(dir_move_target("/v", "ab", "a"), Ok(("ab".to_string(), "/v/a/ab".to_string())));
}

#[test]
fn directory_levels_on_move() {
    let dirs = state().unwrap().dirs;
    assert_eq!(check_dir_move_levels(&dirs, "d", ""), Ok(1));
    assert_eq!(check_dir_move_levels(&dirs, "d/e", "a"), Ok(2));
    assert_eq!(check_dir_move_levels(&dirs, "d", "a"), Ok(2));
    assert_eq!(
        check_dir_move_levels(&dirs, "d", "a/b"),
        Err("移动后「e」的层级将超过 3 级上限".to_string())
    );
    assert_eq!(
        check_dir_move_levels(&dirs, "d", "a/b/c"),
        Err("已达最大层级（3 级），无法放入子文件夹".to_string())
    );
    assert_eq!(check_dir_move_levels(&dirs, "q", ""), Err("文件夹不存在于索引中".to_string()));
    assert_eq!(check_dir_move_levels(&dirs, "d", "q"), Err("目标文件夹不存在".to_string()));
}

#[test]
fn renaming_and_names() {
    assert_eq!(rename_final_name("/v/a.html", "b", false), "b.html");
    assert_eq!(rename_final_name("/v/a.html", "b.htm", false), "b.htm");
    assert_eq!(rename_final_name("/v/a.html", "b.", false), "b..html");
    assert_eq!(rename_final_name("/v/a.html", "b", true), "b");
    assert_eq!(rename_final_name("/v/dir", "b", false), "b");
    for name in ["b", ".x", "b.", ".", "..", "é"] {
        let renamed = rename_final_name("/v/a.HTM", name, false);
        assert!(leaf::vault::is_html(&renamed), "{} gave {}", name, renamed);
    }
    assert_eq!(
        leaf::vault::rename_target("/v", "a/x.html", "y", false),
        ("y.html".to_string(), "/v/a/y.html".to_string())
    );
    assert_eq!(leaf::vault::rename_target("/v", "x.html", "z.htm", false), ("z.htm".to_string(), "/v/z.htm".to_string()));
    assert_eq!(leaf::vault::rename_target("/v", "a/b", "c", true), ("c".to_string(), "/v/a/c".to_string()));
    assert_eq!(leaf::vault::rename_target("/", "", "n", true), ("n".to_string(), "/n".to_string()));
    assert!(contains_separator("a/b"));
    assert!(!contains_separator("a\\b"));
    assert_eq!(checked_dir_name("  new  "), Ok("new".to_string()));
    assert_eq!(checked_dir_name("   "), Err("名称不能为空".to_string()));
    assert_eq!(checked_dir_name("a/b"), Err("名称包含非法字符".to_string()));
    assert_eq!(checked_dir_name("a\\b"), Err("名称包含非法字符".to_string()));
    assert_eq!(checked_dir_name("a\u{7}b"), Err("名称包含非法字符".to_string()));
    assert_eq!(checked_item_name(" x "), Ok("x".to_string()));
    assert_eq!(checked_item_name(""), Err("名称不能为空".to_string()));
    assert_eq!(create_dir_path("/v", Some("a"), "n"), "/v/a/n");
    assert_eq!(create_dir_path("/v", Some(""), "n"), "/v/n");
    assert_eq!(create_dir_path("/v", None, "n"), "/v/n");
}

#[test]
fn index_from_a_scan_lists_directories_within_three_levels() {
    let rels: Vec<String> = ["", "a", "a/b", "a/b/c", "a/b/c/d"].iter().map(|s| s.to_string()).collect();
    let st = VaultState::from_scan("/v".to_string(), Vec::new(), &rels);
    let listed = list_dirs(&Some(st));
    let got: Vec<(&str, u32)> = listed.iter().map(|d| (d.rel_path.as_str(), d.level)).collect();
    assert_eq!(got, vec![("a", 1), ("a/b", 2), ("a/b/c", 3)]);
}
