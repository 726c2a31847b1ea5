//! Path operations on text, checked against `std::path::Path` on generated paths.

use leaf::paths::{
    components_of, extension_of, file_name_of, join_path_exec, name_stem_of, parent_of, path_starts_with_exec,
};
use std::path::{Component, Path};

fn chars(s: &str) -> Vec<char> {
    s.chars().collect()
}

fn text(v: &[char]) -> String {
    v.iter().collect()
}

struct Gen(u64);

impl Gen {
    fn below(&mut self, n: usize) -> usize {
        self.0 = self.0.wrapping_mul(6364136223846793005).wrapping_add(1442695040888963407);
        ((self.0 >> 33) as usize) % n
    }

    fn path(&mut self) -> String {
        const PIECES: &[&str] = &["/", "a", "b.c", ".", "..", ".x", "x.", "é.HTML", "d.tar.gz", "/", "//", "n"];
        let n = self.below(7);
        (0..n).map(|_| PIECES[self.below(PIECES.len())]).collect()
    }
}

fn std_components(p: &str) -> Vec<String> {
    Path::new(p)
        .components()
        .map(|c| match c {
            Component::RootDir => "/".to_string(),
            Component::CurDir => ".".to_string(),
            Component::ParentDir => "..".to_string(),
            Component::Normal(s) => s.to_string_lossy().into_owned(),
            Component::Prefix(_) => unreachable!(),
        })
        .collect()
}

#[test]
fn names_and_extensions_agree_with_std() {
    let mut g = Gen(5);
    for _ in 0..3000 {
        let p = g.path();
        let path = Path::new(&p);
        let name = file_name_of(&chars(&p)).map(|v| text(&v));
        assert_eq!(name, path.file_name().map(|n| n.to_string_lossy().into_owned()), "file_name {:?}", p);
        let ext = extension_of(&chars(&p)).map(|v| text(&v));
        assert_eq!(ext, path.extension().map(|n| n.to_string_lossy().into_owned()), "extension {:?}", p);
        let parent = parent_of(&chars(&p)).map(|v| text(&v));
        assert_eq!(parent, path.parent().map(|n| n.to_string_lossy().into_owned()), "parent {:?}", p);
        if let Some(n) = name {
            let stem = text(&name_stem_of(&chars(&n)));
            assert_eq!(Some(stem), path.file_stem().map(|n| n.to_string_lossy().into_owned()), "file_stem {:?}", p);
        }
    }
}

#[test]
fn components_and_joins_agree_with_std() {
    let mut g = Gen(9);
    for _ in 0..3000 {
        let a = g.path();
        let b = g.path();
        let comps: Vec<String> = components_of(&chars(&a)).iter().map(|c| text(c)).collect();
        assert_eq!(comps, std_components(&a), "components {:?}", a);
        let joined = text(&join_path_exec(&chars(&a), &chars(&b)));
        assert_eq!(joined, Path::new(&a).join(&b).to_string_lossy(), "join {:?} {:?}", a, b);
        let starts = path_starts_with_exec(&chars(&a), &chars(&b));
        assert_eq!(starts, Path::new(&a).starts_with(&b), "starts_with {:?} {:?}", a, b);
    }
}

#[test]
fn path_classes_agree_with_std() {
    let mut g = Gen(13);
    let ignored = ["node_modules", ".git", ".svn", "__pycache__", "target", ".DS_Store", ".vscode", ".idea", "dist", "build"];
    for _ in 0..3000 {
        let mut p = g.path();
        if g.below(3) == 0 {
            p.push_str(["/x.HtMl", "/.git", "/build", ".htm", "/\u{212A}.html", "/a.ht\u{130}ml"][g.below(6)]);
        }
        let path = Path::new(&p);
        let name = path.file_name().and_then(|n| n.to_str());
        let html = matches!(path.extension().and_then(|e| e.to_str()).map(|e| e.to_lowercase()).as_deref(), Some("html" | "htm"));
        assert_eq!(leaf::vault::is_html(&p), html, "is_html {:?}", p);
        let hidden = name.map(|n| n.starts_with('.') && n != "." && n != "..").unwrap_or(false);
        assert_eq!(leaf::vault::is_hidden(&p), hidden, "is_hidden {:?}", p);
        assert_eq!(leaf::vault::should_ignore(&p), ignored.contains(&name.unwrap_or("")), "should_ignore {:?}", p);
    }
}
