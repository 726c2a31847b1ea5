//! The tag and `url(…)` shapes the inliner recognises, checked against the `regex`
//! engine running the same patterns, on many generated pages.

use leaf::inliner::{asset_file, asset_path_of, inline_css_urls, inline_resources, to_data_uri, AssetFile, AssetStore};
use regex::{Captures, Regex};
use std::collections::HashMap;
use std::path::Path;

const LINK: &str = r#"(?is)<link\b[^>]*?\bhref\s*=\s*("([^"]*)"|'([^']*)')[^>]*?/?>"#;
const SCRIPT: &str = r#"(?is)<script\b([^>]*)>\s*</script>"#;
const IMG: &str = r#"(?is)<img\b[^>]*?\bsrc\s*=\s*("([^"]*)"|'([^']*)')[^>]*?/?>"#;
const URL: &str = r#"url\(\s*(['"]?)([^'")]+)(['"]?)\s*\)"#;

/// Files by path.
struct Disk(HashMap<String, Vec<u8>>);

impl Disk {
    /// What the library's reading helpers make of the file.
    fn read_as_library(&self, base: &str, rel: &str) -> Option<AssetFile> {
        let bytes = self.0.get(&asset_path_of(base, rel))?.clone();
        Some(asset_file(base, rel, bytes))
    }

    fn path(base: &str, rel: &str) -> String {
        let clean = match rel.find(['?', '#']) {
            Some(i) => &rel[..i],
            None => rel,
        };
        Path::new(base).join(clean).to_string_lossy().into_owned()
    }

    fn read(&self, base: &str, rel: &str) -> Option<AssetFile> {
        let path = Self::path(base, rel);
        let bytes = self.0.get(&path)?.clone();
        let p = Path::new(&path);
        let ext = p.extension().map(|e| e.to_string_lossy().into_owned()).unwrap_or_default();
        let dir = p.parent().map(|d| d.to_string_lossy().into_owned()).unwrap_or_else(|| base.to_string());
        Some(AssetFile { bytes, ext, dir })
    }
}

fn local(href: &str) -> bool {
    let h = href.trim();
    let l = h.to_lowercase();
    let schemes = ["http://", "https://", "//", "data:", "blob:", "mailto:", "tel:", "javascript:"];
    !h.is_empty() && !schemes.iter().any(|p| l.starts_with(p)) && !h.starts_with('/') && !h.starts_with('#')
}

fn attribute(attrs: &str, name: &str) -> Option<String> {
    let re = Regex::new(&format!(r#"(?i)\b{}\s*=\s*("([^"]*)"|'([^']*)')"#, name)).unwrap();
    let c = re.captures(attrs)?;
    c.get(2).or_else(|| c.get(3)).map(|m| m.as_str().to_string())
}

fn attribute_match<'a>(attrs: &'a str, name: &str) -> Option<regex::Match<'a>> {
    Regex::new(&format!(r#"(?i)\b{}\s*=\s*("([^"]*)"|'([^']*)')"#, name)).unwrap().find(attrs)
}

fn quoted(c: &Captures) -> String {
    c.get(2).or_else(|| c.get(3)).map(|m| m.as_str().to_string()).unwrap_or_default()
}

/// The expected stylesheet.
fn expect_css(disk: &Disk, css: &str, dir: &str) -> String {
    let re = Regex::new(URL).unwrap();
    re.replace_all(css, |c: &Captures| {
        let whole = c[0].to_string();
        let raw = &c[2];
        if !local(raw) {
            return whole;
        }
        match disk.read(dir, raw) {
            Some(f) => format!("url({}{}{})", &c[1], to_data_uri(&f.bytes, &f.ext), &c[3]),
            None => whole,
        }
    })
    .into_owned()
}

/// The expected page.
fn expect_page(disk: &Disk, html: &str, base: &str) -> String {
    let links = Regex::new(LINK).unwrap().replace_all(html, |c: &Captures| {
        let whole = c[0].to_string();
        let href = quoted(c);
        if !local(&href) || attribute(&whole, "rel").unwrap_or_default().to_lowercase() != "stylesheet" {
            return whole;
        }
        match disk.read(base, &href) {
            Some(f) => {
                let css = String::from_utf8_lossy(&f.bytes).into_owned();
                format!("<style>\n{}\n</style>", expect_css(disk, &css, &f.dir))
            }
            None => whole,
        }
    });
    let scripts = Regex::new(SCRIPT).unwrap().replace_all(&links, |c: &Captures| {
        let whole = c[0].to_string();
        let attrs = &c[1];
        let Some(src) = attribute(attrs, "src") else { return whole };
        if !local(&src) || attribute(attrs, "type").unwrap_or_default().to_lowercase() == "module" {
            return whole;
        }
        match disk.read(base, &src) {
            Some(f) => {
                // the start tag keeps its attributes but `src` (and the whitespace before it)
                let m = attribute_match(attrs, "src").unwrap();
                let kept = format!("{}{}", attrs[..m.start()].trim_end(), &attrs[m.end()..]);
                format!("<script{}>\n{}\n</script>", kept, String::from_utf8_lossy(&f.bytes))
            }
            None => whole,
        }
    });
    Regex::new(IMG)
        .unwrap()
        .replace_all(&scripts, |c: &Captures| {
            let whole = c[0].to_string();
            let src = quoted(c);
            if !local(&src) {
                return whole;
            }
            match disk.read(base, &src) {
                Some(f) => {
                    let v = c.get(2).or_else(|| c.get(3)).unwrap();
                    let (vs, ve) = (v.start() - c.get(0).unwrap().start(), v.end() - c.get(0).unwrap().start());
                    format!("{}{}{}", &whole[..vs], to_data_uri(&f.bytes, &f.ext), &whole[ve..])
                }
                None => whole,
            }
        })
        .into_owned()
}

/// The page as the library inlines it, reading on request.
fn library_page(disk: &Disk, html: &str, base: &str) -> String {
    let mut store = AssetStore::new();
    loop {
        match inline_resources(html, base, &store) {
            Ok(out) => return out,
            Err(req) => {
                let f = disk.read_as_library(&req.base_dir, &req.rel);
                store.insert(req.base_dir, req.rel, f);
            }
        }
    }
}

fn library_css(disk: &Disk, css: &str, dir: &str) -> String {
    let mut store = AssetStore::new();
    loop {
        match inline_css_urls(css, dir, &store) {
            Ok(out) => return out,
            Err(req) => {
                let f = disk.read_as_library(&req.base_dir, &req.rel);
                store.insert(req.base_dir, req.rel, f);
            }
        }
    }
}

/// A small deterministic generator of numbers.
struct Gen(u64);

impl Gen {
    fn below(&mut self, n: usize) -> usize {
        self.0 = self.0.wrapping_mul(6364136223846793005).wrapping_add(1442695040888963407);
        ((self.0 >> 33) as usize) % n
    }

    fn text(&mut self, pieces: &[&str], most: usize) -> String {
        let n = self.below(most + 1);
        (0..n).map(|_| pieces[self.below(pieces.len())]).collect()
    }
}

fn disk() -> Disk {
    let mut m = HashMap::new();
    m.insert("/site/a.css".to_string(), b"p{background:url(c.png)} q{src:url( 'fonts/f.woff' )} r{x:url(\"http://h/i.png\")}".to_vec());
    m.insert("/site/css/b.css".to_string(), b"s{background:url(../c.png)}url(d.svg#x)".to_vec());
    m.insert("/site/a.js".to_string(), b"let a = 1 < 2;".to_vec());
    m.insert("/site/c.png".to_string(), vec![0x89, b'P', b'N', b'G', 0, 255]);
    m.insert("/site/d.svg".to_string(), b"<svg/>".to_vec());
    m.insert("/site/css/d.svg".to_string(), b"<svg id='b'/>".to_vec());
    m.insert("/site/fonts/f.woff".to_string(), vec![1, 2, 3, 4]);
    m.insert("/site/bad.js".to_string(), vec![0xff, 0xfe, b'x']);
    Disk(m)
}

const PAGE_PIECES: &[&str] = &[
    "<link", "<LINK", "<linkx", "<Lin\u{212A}", " rel=", " REL=", "\"stylesheet\"", "'StyleSheet'", "\"icon\"",
    " href=", " HREF =", " data-href=", "\"a.css\"", "'css/b.css'", "\"a.css?v=3\"", "\" a.css \"", "\"http://x/a.css\"",
    "\"/a.css\"", "\"#top\"", "\"missing.css\"", ">", "/>", "<script", "<SCRIPT", " src=", " SRC=", "\"a.js\"",
    "'bad.js'", "\"data:text/javascript,1\"", " type=\"module\"", " type='text/javascript'", " async", "></script>",
    "> \n </script>", "</script>", "<img", "<IMG", "<imgs", "\"c.png\"", "'c.png'", "\"d.svg#frag\"", "\"none.png\"",
    " alt=\"c.png\"", " ", "\n", "x", "é", "_", "-", "=", "'", "\"", "<", "url(c.png)", "<p>", "</p>",
    " \u{17F}rc=", "<\u{17F}cript", "<img\u{301}", "\u{301}", "<link\u{e9}", "\u{663}", "\u{a0}", "\u{2003}",
    " data-rel=", " TYPE=\"Module\"", "\t",
];

const CSS_PIECES: &[&str] = &[
    "url(", "URL(", ")", "c.png", "'c.png'", "\"d.svg\"", "'d.svg\"", " ", "\t", "fonts/f.woff", "http://h/x.png",
    "data:x", "/abs.png", "#id", "none.png", "?v=1", "'", "\"", "a", "{", "}", ";", "é", "\u{a0}", "\n", "url",
];

#[test]
fn pages_agree_with_the_regex_engine() {
    let disk = disk();
    let mut g = Gen(7);
    for _ in 0..1500 {
        let html = g.text(PAGE_PIECES, 24);
        assert_eq!(library_page(&disk, &html, "/site"), expect_page(&disk, &html, "/site"), "page: {:?}", html);
    }
}

#[test]
fn tags_in_sequence_agree_with_the_regex_engine() {
    let disk = disk();
    let mut g = Gen(11);
    let tags = [
        r#"<link rel="stylesheet" href="a.css">"#,
        r#"<LINK HREF='css/b.css' REL='StyleSheet'/>"#,
        r#"<link href="a.css" rel="preload">"#,
        r#"<script src="a.js"></script>"#,
        r#"<script type="MODULE" src="a.js"></script>"#,
        r#"<script src='bad.js' defer>  </script>"#,
        r#"<script>var x;</script>"#,
        r#"<img src="c.png" alt="c.png">"#,
        r#"<img alt='x' src='d.svg#frag'/>"#,
        r#"<img src="http://x/c.png">"#,
        "<p>text</p>",
        "\n",
    ];
    for _ in 0..600 {
        let html = g.text(&tags, 8);
        assert_eq!(library_page(&disk, &html, "/site"), expect_page(&disk, &html, "/site"), "page: {:?}", html);
    }
}

#[test]
fn stylesheets_agree_with_the_regex_engine() {
    let disk = disk();
    let mut g = Gen(3);
    for _ in 0..1500 {
        let css = g.text(CSS_PIECES, 16);
        assert_eq!(library_css(&disk, &css, "/site"), expect_css(&disk, &css, "/site"), "css: {:?}", css);
    }
}
