use leaf::inliner::{
    attr_value, inline_css_urls, inline_img_tags, inline_link_tags, inline_resources,
    inline_script_tags, mime_by_ext, should_inline, to_data_uri, asset_path_of, asset_file, AssetFile,
    AssetStore,
};
use std::path::Path;

/// A file system in memory: paths and their bytes.
type Files<'a> = &'a [(&'a str, &'a [u8])];

/// Reads `rel` relative to `base` from the in-memory files, as the application reads
/// from disk.
fn read(files: Files, base: &str, rel: &str) -> Option<AssetFile> {
    let key = asset_path_of(base, rel);
    let bytes = files.iter().find(|(p, _)| *p == key)?.1.to_vec();
    Some(asset_file(base, rel, bytes))
}

/// Inlines `html`, reading files on request until the inliner is done.
fn inline_with(files: Files, html: &str, base: &str) -> String {
    let mut store = AssetStore::new();
    loop {
        match inline_resources(html, base, &store) {
            Ok(out) => return out,
            Err(req) => {
                let file = read(files, &req.base_dir, &req.rel);
                store.insert(req.base_dir, req.rel, file);
            }
        }
    }
}

#[test]
fn skips_external_and_data_urls() {
    assert!(!should_inline("https://a.com/x.css"));
    assert!(!should_inline("//cdn.com/x.css"));
    assert!(!should_inline("data:image/png;base64,xx"));
    assert!(!should_inline("/abs/path.css"));
    assert!(!should_inline("#anchor"));
    assert!(should_inline("style.css"));
    assert!(should_inline("./a/b.css"));
    assert!(should_inline("../c.png"));
}

#[test]
fn should_inline_trims_and_ignores_case() {
    assert!(!should_inline("  HTTP://A.COM/x.css "));
    assert!(!should_inline("JavaScript:void(0)"));
    assert!(!should_inline("mailto:a@b.c"));
    assert!(!should_inline("tel:123"));
    assert!(!should_inline("blob:xyz"));
    assert!(!should_inline("   "));
    assert!(!should_inline(""));
    assert!(should_inline("  img/a.png  "));
    assert!(should_inline("http.png"));
}

#[test]
fn inlines_css_link_tag() {
    let files: Files = &[("/tmp/leaf_inliner_test_css/a.css", b"body{color:red}")];
    let html = r#"<link rel="stylesheet" href="a.css">"#;
    let out = inline_with(files, html, "/tmp/leaf_inliner_test_css");
    assert!(out.contains("<style>"), "out={}", out);
    assert!(out.contains("color:red"));
}

#[test]
fn inlines_img_to_data_uri() {
    let png: &[u8] = &[0x89, 0x50, 0x4E, 0x47, 0x0D, 0x0A, 0x1A, 0x0A];
    let files: Files = &[("/tmp/leaf_inliner_test_img/x.png", png)];
    let html = r#"<img src="x.png">"#;
    let out = inline_with(files, html, "/tmp/leaf_inliner_test_img");
    assert!(out.contains("data:image/png;base64,"), "out={}", out);
    assert_eq!(out, r#"<img src="data:image/png;base64,iVBORw0KGgo=">"#);
}

#[test]
fn inlines_css_internal_url() {
    let png: &[u8] = &[0x89, 0x50, 0x4E, 0x47];
    let files: Files = &[("/tmp/leaf_inliner_test_cssurl/bg.png", png)];
    let css = "body{background:url(bg.png)}";
    let mut store = AssetStore::new();
    let out = loop {
        match inline_css_urls(css, "/tmp/leaf_inliner_test_cssurl", &store) {
            Ok(out) => break out,
            Err(req) => {
                let file = read(files, &req.base_dir, &req.rel);
                store.insert(req.base_dir, req.rel, file);
            }
        }
    };
    assert!(out.contains("data:image/png;base64,"), "out={}", out);
    assert_eq!(out, "body{background:url(data:image/png;base64,iVBORw==)}");
}

#[test]
fn skips_module_script() {
    let html = r#"<script type="module" src="a.js"></script>"#;
    let out = inline_resources(html, "/nonexist", &AssetStore::new()).unwrap();
    assert!(out.contains(r#"type="module""#), "out={}", out);
    assert_eq!(out, html);
}

#[test]
fn inlines_full_prototype() {
    let dir = "/tmp/leaf_inliner_integration";
    let svg: &[u8] = b"<svg xmlns=\"http://www.w3.org/2000/svg\"/>";
    let files: Files = &[
        ("/tmp/leaf_inliner_integration/css/main.css", b"body{background:url(../img/bg.svg)}.box{color:red}"),
        ("/tmp/leaf_inliner_integration/js/app.js", b"console.log(1+2)"),
        ("/tmp/leaf_inliner_integration/img/logo.svg", svg),
        ("/tmp/leaf_inliner_integration/css/../img/bg.svg", svg),
    ];
    let html = r#"<!DOCTYPE html><html><head>
<link rel="stylesheet" href="css/main.css">
<script src="js/app.js"></script>
</head><body><div class="box">x</div><img src="img/logo.svg"></body></html>"#;
    let out = inline_with(files, html, dir);
    assert!(out.contains("<style>"), "缺 <style>: {}", out);
    assert!(out.contains(".box"), "CSS 未内联: {}", out);
    assert!(out.contains("console.log"), "JS 未内联: {}", out);
    assert!(!out.contains(r#"src="js/app.js""#), "JS src 残留: {}", out);
    assert!(out.contains("data:image/svg+xml;base64,"), "img 未转 data URI: {}", out);
    assert!(out.contains("url(data:image/svg+xml;base64,"), "背景图未转: {}", out);
}

#[test]
fn missing_files_keep_references() {
    let html = r#"<link rel="stylesheet" href="a.css"><script src="b.js"></script><img src='c.png'>"#;
    let out = inline_with(&[], html, "/nowhere");
    assert_eq!(out, html);
}

#[test]
fn first_request_names_the_needed_file() {
    let html = r#"<p><img src="pic.png?v=2"></p>"#;
    let req = inline_resources(html, "/base", &AssetStore::new()).err().unwrap();
    assert_eq!(req.base_dir, "/base");
    assert_eq!(req.rel, "pic.png?v=2");
    let mut store = AssetStore::new();
    store.insert(req.base_dir, req.rel, None);
    assert_eq!(inline_resources(html, "/base", &store).ok().unwrap(), html);
}

#[test]
fn link_needs_stylesheet_rel() {
    let files: Files = &[("/d/a.css", b"x{}")];
    let html = r#"<link rel="icon" href="a.css"><LINK HREF='a.css' REL='StyleSheet'/>"#;
    let out = inline_with(files, html, "/d");
    assert_eq!(out, "<link rel=\"icon\" href=\"a.css\"><style>\nx{}\n</style>");
}

#[test]
fn link_pass_alone() {
    let mut store = AssetStore::new();
    store.insert("/d".to_string(), "s.css".to_string(), Some(AssetFile {
        bytes: b"p{}".to_vec(),
        ext: "css".to_string(),
        dir: "/d".to_string(),
    }));
    let out = inline_link_tags(r#"a<link href="s.css" rel="stylesheet">b"#, "/d", &store).ok().unwrap();
    assert_eq!(out, "a<style>\np{}\n</style>b");
}

#[test]
fn script_pass_alone() {
    let mut store = AssetStore::new();
    store.insert("/d".to_string(), "m.js".to_string(), Some(AssetFile {
        bytes: b"go()".to_vec(),
        ext: "js".to_string(),
        dir: "/d".to_string(),
    }));
    let out = inline_script_tags("<script defer src=\"m.js\">  \n</SCRIPT>", "/d", &store).ok().unwrap();
    assert_eq!(out, "<script defer>\ngo()\n</script>");
    let out = inline_script_tags(r#"<script id="main" src="m.js" data-x='1'></script>"#, "/d", &store).ok().unwrap();
    assert_eq!(out, "<script id=\"main\" data-x='1'>\ngo()\n</script>");
    let out = inline_script_tags(r#"<script src='m.js'></script>"#, "/d", &store).ok().unwrap();
    assert_eq!(out, "<script>\ngo()\n</script>");
    // a script with code inside is not a bare `src` script
    let kept = "<script src=\"m.js\">x</script>";
    assert_eq!(inline_script_tags(kept, "/d", &store).ok().unwrap(), kept);
}

#[test]
fn img_pass_replaces_only_the_src_value() {
    let mut store = AssetStore::new();
    store.insert("/d".to_string(), "p".to_string(), Some(AssetFile {
        bytes: vec![0xff],
        ext: "gif".to_string(),
        dir: "/d".to_string(),
    }));
    let out = inline_img_tags(r#"<img alt="p" src="p">"#, "/d", &store).ok().unwrap();
    assert_eq!(out, r#"<img alt="p" src="data:image/gif;base64,/w==">"#);
    let out = inline_img_tags(r#"x<IMG SRC='p' title="p"/>y"#, "/d", &store).ok().unwrap();
    assert_eq!(out, r#"x<IMG SRC='data:image/gif;base64,/w==' title="p"/>y"#);
}

#[test]
fn css_url_forms() {
    let mut store = AssetStore::new();
    for rel in ["a.png", "b.png "] {
        store.insert("/c".to_string(), rel.to_string(), Some(AssetFile {
            bytes: vec![1, 2, 3],
            ext: "png".to_string(),
            dir: "/c".to_string(),
        }));
    }
    let out = inline_css_urls("x{background:url('a.png')} y{background:url( b.png )}", "/c", &store)
        .ok()
        .unwrap();
    assert_eq!(
        out,
        "x{background:url('data:image/png;base64,AQID')} y{background:url(data:image/png;base64,AQID)}"
    );
    let same = "a{b:url(http://x/y.png)} c{d:url(data:x)} e{f:url(#g)}";
    assert_eq!(inline_css_urls(same, "/c", &AssetStore::new()).ok().unwrap(), same);
}

#[test]
fn attribute_values() {
    assert_eq!(attr_value(r#" rel="stylesheet" href='x'"#, "rel"), Some("stylesheet".to_string()));
    assert_eq!(attr_value(r#" HREF = 'x y' "#, "href"), Some("x y".to_string()));
    assert_eq!(attr_value(r#" data-rel="a" rel="b""#, "rel"), Some("a".to_string()));
    assert_eq!(attr_value(r#" prel="a""#, "rel"), None);
    assert_eq!(attr_value(r#" rel=a"#, "rel"), None);
}

#[test]
fn mime_types() {
    assert_eq!(mime_by_ext("PNG"), Some("image/png"));
    assert_eq!(mime_by_ext("jpeg"), Some("image/jpeg"));
    assert_eq!(mime_by_ext("jpg"), Some("image/jpeg"));
    assert_eq!(mime_by_ext("svg"), Some("image/svg+xml"));
    assert_eq!(mime_by_ext("woff2"), Some("font/woff2"));
    assert_eq!(mime_by_ext("eot"), Some("application/vnd.ms-fontobject"));
    assert_eq!(mime_by_ext("css"), None);
    assert_eq!(mime_by_ext(""), None);
}

#[test]
fn data_uris() {
    assert_eq!(to_data_uri(b"", "png"), "data:image/png;base64,");
    assert_eq!(to_data_uri(b"f", "txt"), "data:application/octet-stream;base64,Zg==");
    assert_eq!(to_data_uri(b"fo", "ico"), "data:image/x-icon;base64,Zm8=");
    assert_eq!(to_data_uri(b"foobar", "ttf"), "data:font/ttf;base64,Zm9vYmFy");
    assert_eq!(to_data_uri(&[0xfb, 0xff], "bmp"), "data:image/bmp;base64,+/8=");
}

#[test]
fn asset_paths_drop_query_and_fragment() {
    assert_eq!(asset_path_of("/site", "logo.png?v=2"), "/site/logo.png");
    assert_eq!(asset_path_of("/site", "page.html#sec"), "/site/page.html");
    assert_eq!(asset_path_of("/site/", "css/a.css"), "/site/css/a.css");
    assert_eq!(asset_path_of("/site", "../img/x.png"), "/site/../img/x.png");
    assert_eq!(asset_path_of("/site", "/abs.css"), "/abs.css");
    assert_eq!(asset_path_of("", "a.css"), "a.css");
    let f = asset_file("/site", "img/logo.PNG?x", vec![1]);
    assert_eq!((f.ext.as_str(), f.dir.as_str()), ("PNG", "/site/img"));
    let f = asset_file("/site", ".hidden", vec![]);
    assert_eq!((f.ext.as_str(), f.dir.as_str()), ("", "/site"));
    let f = asset_file("/site", "a.tar.gz", vec![]);
    assert_eq!(f.ext, "gz");
    let f = asset_file("/site", "css/../img/bg.svg", vec![]);
    assert_eq!((f.ext.as_str(), f.dir.as_str()), ("svg", "/site/css/../img"));
    let f = asset_file("", "/", vec![]);
    assert_eq!((f.ext.as_str(), f.dir.as_str()), ("", ""));
}

#[test]
fn finished_result_ignores_later_files() {
    let files: Files = &[("/d/a.png", b"\x89PNG")];
    let html = r#"<img src="a.png"><img src="b.png">"#;
    let mut store = AssetStore::new();
    let first = loop {
        match inline_resources(html, "/d", &store) {
            Ok(out) => break out,
            Err(req) => {
                let file = read(files, &req.base_dir, &req.rel);
                store.insert(req.base_dir, req.rel, file);
            }
        }
    };
    assert_eq!(first, r#"<img src="data:image/png;base64,iVBORw=="><img src="b.png">"#);
    store.insert("/d".to_string(), "b.png".to_string(), Some(AssetFile { bytes: vec![1], ext: "png".to_string(), dir: "/d".to_string() }));
    store.insert("/d".to_string(), "a.png".to_string(), None);
    assert_eq!(inline_resources(html, "/d", &store).unwrap(), first);
}
