use leaf::scan::{plan_scan, rel_to_exec, WalkEntry};

fn entry(path: &str, is_dir: bool) -> WalkEntry {
    WalkEntry { path: path.to_string(), is_dir }
}

fn chars(s: &str) -> Vec<char> {
    s.chars().collect()
}

#[test]
fn relative_paths_follow_components() {
    let rel = |root: &str, p: &str| rel_to_exec(&chars(root), &chars(p)).map(|v| v.into_iter().collect::<String>());
    assert_eq!(rel("/v", "/v/a/b.html"), Some("a/b.html".to_string()));
    assert_eq!(rel("/v", "/v"), Some(String::new()));
    assert_eq!(rel("/v/", "/v/a/b"), Some("a/b".to_string()));
    assert_eq!(rel("/v", "/vault/a"), None);
    assert_eq!(rel("/", "/a/b"), Some("a/b".to_string()));
}

#[test]
fn walk_plan_keeps_documents_and_directories() {
    let entries = vec![
        entry("/v", true),
        entry("/v/notes", true),
        entry("/v/notes/a.html", false),
        entry("/v/notes/a.css", false),
        entry("/v/notes/B.HTM", false),
        entry("/v/.hidden.html", false),
        entry("/v/.cache", true),
        entry("/v/node_modules", true),
        entry("/v/index.html", false),
    ];
    let plan = plan_scan("/v", &entries);
    assert_eq!(plan.rel_dirs, vec!["".to_string(), "notes".to_string()]);
    let files: Vec<(String, String)> = plan.files.iter().map(|f| (f.rel.clone(), f.abs.clone())).collect();
    assert_eq!(
        files,
        vec![
            ("notes/a.html".to_string(), "/v/notes/a.html".to_string()),
            ("notes/B.HTM".to_string(), "/v/notes/B.HTM".to_string()),
            ("index.html".to_string(), "/v/index.html".to_string()),
        ]
    );
}

#[test]
fn directories_are_listed_once_in_component_order() {
    let entries = vec![
        entry("/v", true),
        entry("/v/a-b", true),
        entry("/v/a", true),
        entry("/v/a/b", true),
        entry("/v/a", true),
        entry("/v/ab", true),
    ];
    let plan = plan_scan("/v", &entries);
    assert_eq!(plan.rel_dirs, vec!["", "a", "a/b", "a-b", "ab"]);
    assert!(plan.files.is_empty());
}

#[test]
fn empty_walk_still_has_the_root() {
    let plan = plan_scan("/v", &Vec::new());
    assert_eq!(plan.rel_dirs, vec![String::new()]);
    assert!(plan.files.is_empty());
}

#[test]
fn directory_order_agrees_with_pathbuf() {
    const NAMES: &[&str] = &["a", "b", "a-b", "ab", "a.b", "é", "A", "a b", "0"];
    let mut seed: u64 = 17;
    let mut below = |n: usize| {
        seed = seed.wrapping_mul(6364136223846793005).wrapping_add(1442695040888963407);
        ((seed >> 33) as usize) % n
    };
    for _ in 0..300 {
        let mut entries = vec![entry("/v", true)];
        let mut expected: std::collections::BTreeSet<std::path::PathBuf> = std::collections::BTreeSet::new();
        expected.insert(std::path::PathBuf::new());
        for _ in 0..below(8) {
            let depth = 1 + below(3);
            let rel: Vec<&str> = (0..depth).map(|_| NAMES[below(NAMES.len())]).collect();
            let rel = rel.join("/");
            entries.push(entry(&format!("/v/{}", rel), true));
            expected.insert(std::path::PathBuf::from(&rel));
        }
        let plan = plan_scan("/v", &entries);
        let want: Vec<String> = expected.iter().map(|p| p.to_string_lossy().into_owned()).collect();
        assert_eq!(plan.rel_dirs, want);
    }
}

#[test]
fn nothing_inside_ignored_or_hidden_directories_is_indexed() {
    let entries = vec![
        entry("/r", true),
        entry("/r/a.html", false),
        entry("/r/node_modules", true),
        entry("/r/node_modules/x.html", false),
        entry("/r/node_modules/pkg", true),
        entry("/r/node_modules/pkg/y.html", false),
        entry("/r/.git", true),
        entry("/r/.git/hooks", true),
        entry("/r/.git/z.htm", false),
        entry("/r/docs", true),
        entry("/r/docs/dist", true),
        entry("/r/docs/dist/d.html", false),
        entry("/r/docs/b.html", false),
    ];
    let plan = plan_scan("/r", &entries);
    assert_eq!(plan.rel_dirs, vec!["", "docs"]);
    let rels: Vec<&str> = plan.files.iter().map(|f| f.rel.as_str()).collect();
    assert_eq!(rels, vec!["a.html", "docs/b.html"]);
}

#[test]
fn a_hidden_root_is_still_scanned() {
    let entries = vec![entry("/home/.vault", true), entry("/home/.vault/a.html", false)];
    let plan = plan_scan("/home/.vault", &entries);
    assert_eq!(plan.rel_dirs, vec![""]);
    assert_eq!(plan.files.len(), 1);
    assert_eq!(plan.files[0].rel, "a.html");
}
