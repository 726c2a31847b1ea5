//! Inlining of the local resources an HTML page refers to, so the page renders
//! on its own (for instance inside an `srcdoc` frame):
//!
//! - `<link rel="stylesheet" href="x.css">` becomes `<style>…</style>`;
//! - `<script src="x.js"></script>` (not a module) becomes `<script>…</script>`;
//! - `<img src="x.png">` gets a `data:` URI;
//! - `url(x.png)` inside an inlined stylesheet gets a `data:` URI.
//!
//! References with a scheme (`http:`, `data:`, …), `//…`, `/…` and `#…` are kept,
//! and so is every reference whose file cannot be read.
//!
//! Reading files is the caller's part.  The files read so far are handed in as an
//! [`AssetStore`]; when the inliner needs one that the store does not know, it
//! answers with the [`AssetRequest`] for it, and the caller reads that file, adds
//! it to the store and asks again.
use vstd::prelude::*;
use base64::Engine;
use crate::text::{
    chars_of, string_of, push_all, push_range, slice_of, same_chars, has_prefix, has_prefix_exec,
    lower, lower_seq, lower_chars, trim, trim_chars, skip_ws_back, skip_ws_back_exec, lemma_skip_ws_back_bounds,
};
use crate::paths::{join_path, join_path_exec, extension, extension_of, parent, parent_of};
use crate::tags::{
    Hit, tag_attr_at, tag_attr_at_exec, script_at, script_at_exec, url_at, url_at_exec, attr_of,
    attr_value_exec, lemma_attr_tail, lemma_script_at, lemma_url_at, attr_match, attr_match_exec,
    lemma_attr_match_from,
};

verus! {

// ─── the store of files read ───

/// A file read for the inliner: its bytes, its extension (`Path::extension`, or
/// `""`), and the directory it lies in (`Path::parent` of the path it was read from).
#[derive(Debug)]
pub struct AssetFile {
    pub bytes: Vec<u8>,
    pub ext: String,
    pub dir: String,
}

/// The outcome of reading the file `rel` relative to `base_dir`: `None` when it
/// could not be read.
#[derive(Debug)]
pub struct AssetEntry {
    pub base_dir: String,
    pub rel: String,
    pub file: Option<AssetFile>,
}

/// The files read so far.
#[derive(Debug)]
pub struct AssetStore {
    pub entries: Vec<AssetEntry>,
}

/// A file the inliner needs: `rel` relative to `base_dir`.
#[derive(Debug)]
pub struct AssetRequest {
    pub base_dir: String,
    pub rel: String,
}

/// Bytes, extension and directory of a file.
pub type AssetView = (Seq<u8>, Seq<char>, Seq<char>);

/// Base directory, reference, and what reading it gave.
pub type EntryView = (Seq<char>, Seq<char>, Option<AssetView>);

/// Base directory and reference of a needed file.
pub type RequestView = (Seq<char>, Seq<char>);

impl View for AssetFile {
    type V = AssetView;

    open spec fn view(&self) -> AssetView {
        (self.bytes@, self.ext@, self.dir@)
    }
}

impl View for AssetEntry {
    type V = EntryView;

    open spec fn view(&self) -> EntryView {
        (
            self.base_dir@,
            self.rel@,
            match self.file {
                Some(f) => Some(f@),
                None => None,
            },
        )
    }
}

impl View for AssetStore {
    type V = Seq<EntryView>;

    open spec fn view(&self) -> Seq<EntryView> {
        self.entries@.map_values(|e: AssetEntry| e@)
    }
}

impl View for AssetRequest {
    type V = RequestView;

    open spec fn view(&self) -> RequestView {
        (self.base_dir@, self.rel@)
    }
}

/// What the store says of `rel` relative to `base`, from entry `i` on: `None` when
/// it does not know the file, `Some(None)` when the file could not be read.
pub open spec fn lookup_from(st: Seq<EntryView>, i: int, base: Seq<char>, rel: Seq<char>) -> Option<Option<AssetView>>
    decreases st.len() - i,
{
    if 0 <= i < st.len() {
        if st[i].0 == base && st[i].1 == rel {
            Some(st[i].2)
        } else {
            lookup_from(st, i + 1, base, rel)
        }
    } else {
        None
    }
}

/// What the store says of `rel` relative to `base` (the first entry for it counts).
pub open spec fn lookup(st: Seq<EntryView>, base: Seq<char>, rel: Seq<char>) -> Option<Option<AssetView>> {
    lookup_from(st, 0, base, rel)
}

/// Every file's length is one a `Vec` can have.
pub open spec fn store_wf(st: Seq<EntryView>) -> bool {
    forall|i: int| 0 <= i < st.len() ==> ((#[trigger] st[i]).2 matches Some(a) ==> a.0.len() <= isize::MAX)
}

impl AssetStore {
    pub open spec fn wf(&self) -> bool {
        store_wf(self@)
    }

    /// An empty store.
    pub fn new() -> (r: AssetStore)
        ensures
            r@ == Seq::<EntryView>::empty(),
            r.wf(),
    {
        let r = AssetStore { entries: Vec::new() };
        assert(r@ =~= Seq::<EntryView>::empty());
        r
    }

    /// Records what reading `rel` relative to `base_dir` gave.
    pub fn insert(&mut self, base_dir: String, rel: String, file: Option<AssetFile>)
        ensures
            final(self)@ == old(self)@.push(
                (
                    base_dir@,
                    rel@,
                    match file {
                        Some(f) => Some(f@),
                        None => None,
                    },
                ),
            ),
    {
        let e = AssetEntry { base_dir, rel, file };
        let ghost ev = e@;
        self.entries.push(e);
        assert(self@ =~= old(self)@.push(ev));
    }

    /// The index of the first entry for `rel` relative to `base`.
    fn find(&self, base: &Vec<char>, rel: &Vec<char>) -> (r: Option<usize>)
        ensures
            r matches Some(i) ==> i < self@.len() && lookup(self@, base@, rel@) == Some(self@[i as int].2),
            r is None ==> lookup(self@, base@, rel@) is None,
    {
        let n = self.entries.len();
        let mut i: usize = 0;
        while i < n
            invariant
                n == self.entries@.len() == self@.len(),
                i <= n,
                lookup(self@, base@, rel@) == lookup_from(self@, i as int, base@, rel@),
            decreases n - i,
        {
            let e = &self.entries[i];
            let b = chars_of(e.base_dir.as_str());
            let r2 = chars_of(e.rel.as_str());
            assert(self@[i as int] == e@);
            if same_chars(&b, base) && same_chars(&r2, rel) {
                return Some(i);
            }
            i = i + 1;
        }
        None
    }
}

// ─── where a referenced file lies ───

/// The position of the first `?` or `#` of `rel` from `i` on, or its length.
pub open spec fn query_start(rel: Seq<char>, i: int) -> int
    decreases rel.len() - i,
{
    if i < 0 || i >= rel.len() {
        rel.len() as int
    } else if rel[i] == '?' || rel[i] == '#' {
        i
    } else {
        query_start(rel, i + 1)
    }
}

proof fn lemma_query_start(rel: Seq<char>, i: int)
    requires
        0 <= i <= rel.len(),
    ensures
        i <= query_start(rel, i) <= rel.len(),
    decreases rel.len() - i,
{
    if i < rel.len() && rel[i] != '?' && rel[i] != '#' {
        lemma_query_start(rel, i + 1);
    }
}

/// A reference without its query or fragment (`logo.png?v=2` names `logo.png`).
pub open spec fn without_query(rel: Seq<char>) -> Seq<char> {
    rel.take(query_start(rel, 0))
}

/// The path of the file a reference `rel` in a document of `base_dir` names.
pub open spec fn asset_path(base_dir: Seq<char>, rel: Seq<char>) -> Seq<char> {
    join_path(base_dir, without_query(rel))
}

/// The path of the file that `rel`, found in a document of `base_dir`, refers to: `rel`
/// without its query or fragment, joined to `base_dir`.
pub fn asset_path_of(base_dir: &str, rel: &str) -> (r: String)
    ensures
        r@ == asset_path(base_dir@, rel@),
{
    let relc = chars_of(rel);
    let mut i: usize = 0;
    proof {
        lemma_query_start(rel@, 0);
    }
    while i < relc.len() && relc[i] != '?' && relc[i] != '#'
        invariant
            relc@ == rel@,
            i <= relc@.len(),
            query_start(rel@, 0) == query_start(rel@, i as int),
        decreases relc@.len() - i,
    {
        i = i + 1;
    }
    let clean = slice_of(&relc, 0, i);
    string_of(&join_path_exec(&chars_of(base_dir), &clean))
}

/// The extension a file at `path` is filed under: that of its path, or `""`.
pub open spec fn asset_ext(path: Seq<char>) -> Seq<char> {
    match extension(path) {
        Some(e) => e,
        None => Seq::empty(),
    }
}

/// The directory a file at `path`, named in a document of `base_dir`, lies in: the
/// parent of its path, or `base_dir` when the path has none.
pub open spec fn asset_dir(base_dir: Seq<char>, path: Seq<char>) -> Seq<char> {
    match parent(path) {
        Some(d) => d,
        None => base_dir,
    }
}

/// What the store records for the file `rel`, named in a document of `base_dir`, when
/// reading it gave `bytes`.
pub open spec fn asset_view(base_dir: Seq<char>, rel: Seq<char>, bytes: Seq<u8>) -> AssetView {
    let path = asset_path(base_dir, rel);
    (bytes, asset_ext(path), asset_dir(base_dir, path))
}

/// The file `rel`, named in a document of `base_dir`, whose reading gave `bytes`: its
/// extension and directory come from its path.
pub fn asset_file(base_dir: &str, rel: &str, bytes: Vec<u8>) -> (r: AssetFile)
    ensures
        r@ == asset_view(base_dir@, rel@, bytes@),
{
    let path = chars_of(asset_path_of(base_dir, rel).as_str());
    let ext = match extension_of(&path) {
        Some(e) => string_of(&e),
        None => String::new(),
    };
    let dir = match parent_of(&path) {
        Some(d) => string_of(&d),
        None => base_dir.to_string(),
    };
    AssetFile { bytes, ext, dir }
}

// ─── which references are inlined ───

/// A reference is inlined unless, once trimmed, it is empty, starts (in any case) with
/// `http://`, `https://`, `//`, `data:`, `blob:`, `mailto:`, `tel:` or `javascript:`,
/// or starts with `/` or `#`.
pub open spec fn inlinable(href: Seq<char>) -> bool {
    let h = trim(href);
    let l = lower_seq(h);
    &&& h.len() > 0
    &&& !has_prefix(l, "http://"@)
    &&& !has_prefix(l, "https://"@)
    &&& !has_prefix(l, "//"@)
    &&& !has_prefix(l, "data:"@)
    &&& !has_prefix(l, "blob:"@)
    &&& !has_prefix(l, "mailto:"@)
    &&& !has_prefix(l, "tel:"@)
    &&& !has_prefix(l, "javascript:"@)
    &&& h[0] != '/'
    &&& h[0] != '#'
}

fn inlinable_exec(href: &Vec<char>) -> (r: bool)
    ensures
        r == inlinable(href@),
{
    let h = trim_chars(href);
    if h.len() == 0 {
        return false;
    }
    let l = lower_chars(&h);
    if has_prefix_exec(&l, &chars_of("http://")) || has_prefix_exec(&l, &chars_of("https://"))
        || has_prefix_exec(&l, &chars_of("//")) || has_prefix_exec(&l, &chars_of("data:"))
        || has_prefix_exec(&l, &chars_of("blob:")) || has_prefix_exec(&l, &chars_of("mailto:"))
        || has_prefix_exec(&l, &chars_of("tel:")) || has_prefix_exec(&l, &chars_of("javascript:")) {
        return false;
    }
    h[0] != '/' && h[0] != '#'
}

/// Which references are inlined: a reference whose trimmed text is empty, starts
/// (in any case) with a scheme the page must keep (`http://`, `https://`, `//`,
/// `data:`, `blob:`, `mailto:`, `tel:`, `javascript:`), or starts with `/` or `#` is
/// kept; a non-empty reference holding no `:` and starting with neither `/` nor `#`
/// (a relative path such as `css/a.css`, `../img/x.png` or `a b.png`) is inlined.
pub proof fn law_which_references_are_inlined(href: Seq<char>)
    ensures
        trim(href).len() == 0 ==> !inlinable(href),
        has_prefix(lower_seq(trim(href)), "http://"@) ==> !inlinable(href),
        has_prefix(lower_seq(trim(href)), "https://"@) ==> !inlinable(href),
        has_prefix(lower_seq(trim(href)), "//"@) ==> !inlinable(href),
        has_prefix(lower_seq(trim(href)), "data:"@) ==> !inlinable(href),
        has_prefix(lower_seq(trim(href)), "blob:"@) ==> !inlinable(href),
        has_prefix(lower_seq(trim(href)), "mailto:"@) ==> !inlinable(href),
        has_prefix(lower_seq(trim(href)), "tel:"@) ==> !inlinable(href),
        has_prefix(lower_seq(trim(href)), "javascript:"@) ==> !inlinable(href),
        trim(href).len() > 0 && (trim(href)[0] == '/' || trim(href)[0] == '#') ==> !inlinable(href),
        (trim(href).len() > 0 && trim(href)[0] != '/' && trim(href)[0] != '#' && !trim(href).contains(':'))
            ==> inlinable(href),
{
    reveal_strlit("http://");
    reveal_strlit("https://");
    reveal_strlit("//");
    reveal_strlit("data:");
    reveal_strlit("blob:");
    reveal_strlit("mailto:");
    reveal_strlit("tel:");
    reveal_strlit("javascript:");
    let h = trim(href);
    let l = lower_seq(h);
    if h.len() > 0 && h[0] != '/' && h[0] != '#' && !h.contains(':') {
        assert(l.len() == h.len());
        assert forall|i: int| 0 <= i < l.len() implies #[trigger] l[i] != ':' by {
            assert(l[i] == lower(h[i]));
            if l[i] == ':' {
                assert(h[i] == ':');
            }
        }
        assert(!has_prefix(l, "//"@)) by {
            if has_prefix(l, "//"@) {
                assert(l.subrange(0, 2)[0] == l[0]);
                assert(l[0] == '/');
                assert(lower(h[0]) == '/');
            }
        }
        assert(!has_prefix(l, "http://"@)) by {
            if has_prefix(l, "http://"@) {
                assert(l.subrange(0, 7)[4] == l[4]);
                assert(l[4] == "http://"@[4]);
            }
        }
        assert(!has_prefix(l, "https://"@)) by {
            if has_prefix(l, "https://"@) {
                assert(l.subrange(0, 8)[5] == l[5]);
                assert(l[5] == "https://"@[5]);
            }
        }
        assert(!has_prefix(l, "data:"@)) by {
            if has_prefix(l, "data:"@) {
                assert(l.subrange(0, 5)[4] == l[4]);
                assert(l[4] == "data:"@[4]);
            }
        }
        assert(!has_prefix(l, "blob:"@)) by {
            if has_prefix(l, "blob:"@) {
                assert(l.subrange(0, 5)[4] == l[4]);
                assert(l[4] == "blob:"@[4]);
            }
        }
        assert(!has_prefix(l, "mailto:"@)) by {
            if has_prefix(l, "mailto:"@) {
                assert(l.subrange(0, 7)[6] == l[6]);
                assert(l[6] == "mailto:"@[6]);
            }
        }
        assert(!has_prefix(l, "tel:"@)) by {
            if has_prefix(l, "tel:"@) {
                assert(l.subrange(0, 4)[3] == l[3]);
                assert(l[3] == "tel:"@[3]);
            }
        }
        assert(!has_prefix(l, "javascript:"@)) by {
            if has_prefix(l, "javascript:"@) {
                assert(l.subrange(0, 11)[10] == l[10]);
                assert(l[10] == "javascript:"@[10]);
            }
        }
    }
}

/// Whether a reference points at a local file that should be inlined.
pub fn should_inline(href: &str) -> (r: bool)
    ensures
        r == inlinable(href@),
{
    inlinable_exec(&chars_of(href))
}

// ─── data URIs ───

/// The MIME type of a file extension (images and fonts), compared in any case.
pub open spec fn mime_for(ext: Seq<char>) -> Option<Seq<char>> {
    let e = lower_seq(ext);
    if e == "png"@ {
        Some("image/png"@)
    } else if e == "jpg"@ || e == "jpeg"@ {
        Some("image/jpeg"@)
    } else if e == "gif"@ {
        Some("image/gif"@)
    } else if e == "webp"@ {
        Some("image/webp"@)
    } else if e == "svg"@ {
        Some("image/svg+xml"@)
    } else if e == "ico"@ {
        Some("image/x-icon"@)
    } else if e == "bmp"@ {
        Some("image/bmp"@)
    } else if e == "woff"@ {
        Some("font/woff"@)
    } else if e == "woff2"@ {
        Some("font/woff2"@)
    } else if e == "ttf"@ {
        Some("font/ttf"@)
    } else if e == "otf"@ {
        Some("font/otf"@)
    } else if e == "eot"@ {
        Some("application/vnd.ms-fontobject"@)
    } else {
        None
    }
}

/// The MIME type of a `data:` URI follows the file's extension, in any case: images
/// (`png`, `jpg`/`jpeg`, `gif`, `webp`, `svg`, `ico`, `bmp`) and fonts (`woff`, `woff2`,
/// `ttf`, `otf`, `eot`) get their types, and every other extension gets none.
pub proof fn law_mime_types_follow_extension(ext: Seq<char>)
    ensures
        lower_seq(ext) == "png"@ ==> mime_for(ext) == Some("image/png"@),
        lower_seq(ext) == "jpg"@ ==> mime_for(ext) == Some("image/jpeg"@),
        lower_seq(ext) == "jpeg"@ ==> mime_for(ext) == Some("image/jpeg"@),
        lower_seq(ext) == "gif"@ ==> mime_for(ext) == Some("image/gif"@),
        lower_seq(ext) == "webp"@ ==> mime_for(ext) == Some("image/webp"@),
        lower_seq(ext) == "svg"@ ==> mime_for(ext) == Some("image/svg+xml"@),
        lower_seq(ext) == "ico"@ ==> mime_for(ext) == Some("image/x-icon"@),
        lower_seq(ext) == "bmp"@ ==> mime_for(ext) == Some("image/bmp"@),
        lower_seq(ext) == "woff"@ ==> mime_for(ext) == Some("font/woff"@),
        lower_seq(ext) == "woff2"@ ==> mime_for(ext) == Some("font/woff2"@),
        lower_seq(ext) == "ttf"@ ==> mime_for(ext) == Some("font/ttf"@),
        lower_seq(ext) == "otf"@ ==> mime_for(ext) == Some("font/otf"@),
        lower_seq(ext) == "eot"@ ==> mime_for(ext) == Some("application/vnd.ms-fontobject"@),
        (lower_seq(ext) != "png"@ && lower_seq(ext) != "jpg"@ && lower_seq(ext) != "jpeg"@ && lower_seq(ext) != "gif"@ && lower_seq(ext) != "webp"@ && lower_seq(ext) != "svg"@ && lower_seq(ext) != "ico"@ && lower_seq(ext) != "bmp"@ && lower_seq(ext) != "woff"@ && lower_seq(ext) != "woff2"@ && lower_seq(ext) != "ttf"@ && lower_seq(ext) != "otf"@ && lower_seq(ext) != "eot"@) ==> mime_for(ext) is None,
{
    reveal_strlit("png");
    reveal_strlit("jpg");
    reveal_strlit("jpeg");
    reveal_strlit("gif");
    reveal_strlit("webp");
    reveal_strlit("svg");
    reveal_strlit("ico");
    reveal_strlit("bmp");
    reveal_strlit("woff");
    reveal_strlit("woff2");
    reveal_strlit("ttf");
    reveal_strlit("otf");
    reveal_strlit("eot");
    assert("png"@.len() == 3);
    assert("jpg"@.len() == 3);
    assert("jpeg"@.len() == 4);
    assert("gif"@.len() == 3);
    assert("webp"@.len() == 4);
    assert("svg"@.len() == 3);
    assert("ico"@.len() == 3);
    assert("bmp"@.len() == 3);
    assert("woff"@.len() == 4);
    assert("woff2"@.len() == 5);
    assert("ttf"@.len() == 3);
    assert("otf"@.len() == 3);
    assert("eot"@.len() == 3);
    assert("png"@[0] != "jpg"@[0]);
    assert("png"@[0] != "gif"@[0]);
    assert("png"@[0] != "svg"@[0]);
    assert("png"@[0] != "ico"@[0]);
    assert("png"@[0] != "bmp"@[0]);
    assert("png"@[0] != "ttf"@[0]);
    assert("png"@[0] != "otf"@[0]);
    assert("png"@[0] != "eot"@[0]);
    assert("jpg"@[0] != "gif"@[0]);
    assert("jpg"@[0] != "svg"@[0]);
    assert("jpg"@[0] != "ico"@[0]);
    assert("jpg"@[0] != "bmp"@[0]);
    assert("jpg"@[0] != "ttf"@[0]);
    assert("jpg"@[0] != "otf"@[0]);
    assert("jpg"@[0] != "eot"@[0]);
    assert("jpeg"@[0] != "webp"@[0]);
    assert("jpeg"@[0] != "woff"@[0]);
    assert("gif"@[0] != "svg"@[0]);
    assert("gif"@[0] != "ico"@[0]);
    assert("gif"@[0] != "bmp"@[0]);
    assert("gif"@[0] != "ttf"@[0]);
    assert("gif"@[0] != "otf"@[0]);
    assert("gif"@[0] != "eot"@[0]);
    assert("webp"@[1] != "woff"@[1]);
    assert("svg"@[0] != "ico"@[0]);
    assert("svg"@[0] != "bmp"@[0]);
    assert("svg"@[0] != "ttf"@[0]);
    assert("svg"@[0] != "otf"@[0]);
    assert("svg"@[0] != "eot"@[0]);
    assert("ico"@[0] != "bmp"@[0]);
    assert("ico"@[0] != "ttf"@[0]);
    assert("ico"@[0] != "otf"@[0]);
    assert("ico"@[0] != "eot"@[0]);
    assert("bmp"@[0] != "ttf"@[0]);
    assert("bmp"@[0] != "otf"@[0]);
    assert("bmp"@[0] != "eot"@[0]);
    assert("ttf"@[0] != "otf"@[0]);
    assert("ttf"@[0] != "eot"@[0]);
    assert("otf"@[0] != "eot"@[0]);
}

/// The MIME type for an extension.
pub fn mime_by_ext(ext: &str) -> (r: Option<&'static str>)
    ensures
        r matches Some(m) ==> mime_for(ext@) == Some(m@),
        r is None ==> mime_for(ext@) is None,
{
    let e = lower_chars(&chars_of(ext));
    if same_chars(&e, &chars_of("png")) {
        Some("image/png")
    } else if same_chars(&e, &chars_of("jpg")) || same_chars(&e, &chars_of("jpeg")) {
        Some("image/jpeg")
    } else if same_chars(&e, &chars_of("gif")) {
        Some("image/gif")
    } else if same_chars(&e, &chars_of("webp")) {
        Some("image/webp")
    } else if same_chars(&e, &chars_of("svg")) {
        Some("image/svg+xml")
    } else if same_chars(&e, &chars_of("ico")) {
        Some("image/x-icon")
    } else if same_chars(&e, &chars_of("bmp")) {
        Some("image/bmp")
    } else if same_chars(&e, &chars_of("woff")) {
        Some("font/woff")
    } else if same_chars(&e, &chars_of("woff2")) {
        Some("font/woff2")
    } else if same_chars(&e, &chars_of("ttf")) {
        Some("font/ttf")
    } else if same_chars(&e, &chars_of("otf")) {
        Some("font/otf")
    } else if same_chars(&e, &chars_of("eot")) {
        Some("application/vnd.ms-fontobject")
    } else {
        None
    }
}

/// The character of the standard Base64 alphabet (RFC 4648) for a 6-bit value.
pub open spec fn b64_char(v: int) -> char {
    if v < 26 {
        (65 + v) as char
    } else if v < 52 {
        (97 + v - 26) as char
    } else if v < 62 {
        (48 + v - 52) as char
    } else if v == 62 {
        '+'
    } else {
        '/'
    }
}

/// Standard Base64 with `=` padding (RFC 4648, section 4).
pub open spec fn base64(b: Seq<u8>) -> Seq<char>
    decreases b.len(),
{
    if b.len() == 0 {
        Seq::empty()
    } else {
        let b0 = b[0] as int;
        let b1 = if b.len() > 1 { b[1] as int } else { 0 };
        let b2 = if b.len() > 2 { b[2] as int } else { 0 };
        if b.len() == 1 {
            seq![b64_char(b0 / 4), b64_char((b0 % 4) * 16), '=', '=']
        } else if b.len() == 2 {
            seq![b64_char(b0 / 4), b64_char((b0 % 4) * 16 + b1 / 16), b64_char((b1 % 16) * 4), '=']
        } else {
            seq![
                b64_char(b0 / 4),
                b64_char((b0 % 4) * 16 + b1 / 16),
                b64_char((b1 % 16) * 4 + b2 / 64),
                b64_char(b2 % 64),
            ] + base64(b.skip(3))
        }
    }
}

/// `base64::engine::general_purpose::STANDARD.encode`: the claim is that it gives the
/// standard Base64 encoding with padding; it panics when the encoded length does not
/// fit in `usize`, which `requires` leaves out.
#[verifier::external_body]
fn base64_encode(bytes: &[u8]) -> (r: String)
    requires
        bytes@.len() / 3 * 4 + 4 <= usize::MAX,
    ensures
        r@ == base64(bytes@),
{
    base64::engine::general_purpose::STANDARD.encode(bytes)
}

/// `data:{mime};base64,{bytes}`, with `application/octet-stream` for an unknown extension.
pub open spec fn data_uri(bytes: Seq<u8>, ext: Seq<char>) -> Seq<char> {
    let mime = match mime_for(ext) {
        Some(m) => m,
        None => "application/octet-stream"@,
    };
    "data:"@ + mime + ";base64,"@ + base64(bytes)
}

/// A `data:` URI names the file's MIME type (`application/octet-stream` when the
/// extension has none) and then holds the Base64 text of its bytes.
pub proof fn law_data_uri_shape(bytes: Seq<u8>, ext: Seq<char>)
    ensures
        mime_for(ext) matches Some(m) ==> data_uri(bytes, ext) == "data:"@ + mime_for(ext)->0 + ";base64,"@ + base64(bytes),
        mime_for(ext) is None ==> data_uri(bytes, ext) == "data:application/octet-stream;base64,"@ + base64(bytes),
{
    reveal_strlit("data:");
    reveal_strlit(";base64,");
    reveal_strlit("application/octet-stream");
    reveal_strlit("data:application/octet-stream;base64,");
    assert("data:"@ + "application/octet-stream"@ + ";base64,"@ =~= "data:application/octet-stream;base64,"@);
}

proof fn lemma_b64_len_ok(n: nat)
    requires
        n <= isize::MAX,
    ensures
        n / 3 * 4 + 4 <= usize::MAX,
{
    assert(n / 3 * 4 <= n * 2) by (nonlinear_arith);
}

/// The bytes of a file as a `data:` URI.
pub fn to_data_uri(bytes: &[u8], ext: &str) -> (r: String)
    requires
        bytes@.len() <= isize::MAX,
    ensures
        r@ == data_uri(bytes@, ext@),
{
    proof {
        lemma_b64_len_ok(bytes@.len());
    }
    let mime = match mime_by_ext(ext) {
        Some(m) => m,
        None => "application/octet-stream",
    };
    let mut out = chars_of("data:");
    push_all(&mut out, &chars_of(mime));
    push_all(&mut out, &chars_of(";base64,"));
    let b64 = base64_encode(bytes);
    push_all(&mut out, &chars_of(b64.as_str()));
    string_of(&out)
}

/// What `String::from_utf8_lossy` makes of some bytes.
pub uninterp spec fn utf8_lossy(bytes: Seq<u8>) -> Seq<char>;

/// The text of some bytes as they are decoded: valid UTF-8 as it reads, anything
/// else as `String::from_utf8_lossy` makes of it.
pub open spec fn lossy_text(bytes: Seq<u8>) -> Seq<char> {
    if vstd::utf8::valid_utf8(bytes) {
        vstd::utf8::decode_utf8(bytes)
    } else {
        utf8_lossy(bytes)
    }
}

/// `String::from_utf8_lossy`: the claim is that it computes `utf8_lossy`, and that
/// valid UTF-8 is decoded as is.
#[verifier::external_body]
fn decode_lossy(bytes: &[u8]) -> (r: String)
    ensures
        r@ == utf8_lossy(bytes@),
        vstd::utf8::valid_utf8(bytes@) ==> r@ == vstd::utf8::decode_utf8(bytes@),
{
    String::from_utf8_lossy(bytes).into_owned()
}

// ─── rewriting ───

/// `prefix` put in front of a successful result.
pub open spec fn prepend(prefix: Seq<char>, r: Result<Seq<char>, RequestView>) -> Result<Seq<char>, RequestView> {
    match r {
        Ok(s) => Ok(prefix + s),
        Err(q) => Err(q),
    }
}

/// `url(…)` in a stylesheet whose directory is `base`: a readable local file becomes
/// `url({quote}data:…{quote})`; anything else stays as written.
pub open spec fn url_rep(whole: Seq<char>, open: Seq<char>, raw: Seq<char>, close: Seq<char>, base: Seq<char>, st: Seq<EntryView>) -> Result<Seq<char>, RequestView> {
    if !inlinable(raw) {
        Ok(whole)
    } else {
        match lookup(st, base, raw) {
            None => Err((base, raw)),
            Some(None) => Ok(whole),
            Some(Some(a)) => Ok("url("@ + open + data_uri(a.0, a.1) + close + ")"@),
        }
    }
}

/// The first `url(…)` at or after `from`: where it starts, ends, and what it captured.
pub open spec fn next_url(t: Seq<char>, from: int) -> Option<(int, int, Seq<char>, Seq<char>, Seq<char>)>
    decreases t.len() - from,
{
    if 0 <= from < t.len() {
        match url_at(t, from) {
            Some((e, o, raw, c)) => Some((from, e, o, raw, c)),
            None => next_url(t, from + 1),
        }
    } else {
        None
    }
}

proof fn lemma_next_url(t: Seq<char>, from: int)
    ensures
        next_url(t, from) matches Some((s, e, o, raw, c)) ==> from <= s < e <= t.len() && url_at(t, s) == Some((e, o, raw, c)),
    decreases t.len() - from,
{
    if 0 <= from < t.len() {
        lemma_url_at(t, from);
        lemma_next_url(t, from + 1);
    }
}

/// A stylesheet (from `from` on) with its `url(…)` references to local files made into
/// `data:` URIs, resolved against `base`.
pub open spec fn url_pass(t: Seq<char>, from: int, base: Seq<char>, st: Seq<EntryView>) -> Result<Seq<char>, RequestView>
    decreases t.len() - from,
{
    if 0 <= from <= t.len() {
        match next_url(t, from) {
            Some((s, e, o, raw, c)) => if from <= s < e <= t.len() {
                match url_rep(t.subrange(s, e), o, raw, c, base, st) {
                    Ok(rep) => prepend(t.subrange(from, s) + rep, url_pass(t, e, base, st)),
                    Err(q) => Err(q),
                }
            } else {
                Ok(t.subrange(from, t.len() as int))
            },
            None => Ok(t.subrange(from, t.len() as int)),
        }
    } else {
        Ok(Seq::empty())
    }
}

/// The tags the page-level passes rewrite.
#[derive(Debug)]
pub enum Shape {
    Link,
    Script,
    Img,
}

/// A tag of the given shape at `s`: where it ends, and the captured text (the
/// `href` of a link, the attributes of a script, the `src` of an image).
pub open spec fn tag_at(shape: Shape, t: Seq<char>, s: int) -> Option<(int, Seq<char>)> {
    match shape {
        Shape::Link => tag_attr_at(t, s, "<link"@, "href"@),
        Shape::Img => tag_attr_at(t, s, "<img"@, "src"@),
        Shape::Script => script_at(t, s),
    }
}

/// The first tag of the shape at or after `from`: start, end, captured text.
pub open spec fn next_tag(shape: Shape, t: Seq<char>, from: int) -> Option<(int, int, Seq<char>)>
    decreases t.len() - from,
{
    if 0 <= from < t.len() {
        match tag_at(shape, t, from) {
            Some((e, v)) => Some((from, e, v)),
            None => next_tag(shape, t, from + 1),
        }
    } else {
        None
    }
}

proof fn lemma_tag_at(shape: Shape, t: Seq<char>, s: int)
    ensures
        tag_at(shape, t, s) matches Some((e, v)) ==> s < e <= t.len(),
{
    match shape {
        Shape::Link => {
            lemma_attr_tail(t, s + "<link"@.len(), "href"@);
        },
        Shape::Img => {
            lemma_attr_tail(t, s + "<img"@.len(), "src"@);
        },
        Shape::Script => {
            lemma_script_at(t, s);
        },
    }
}

proof fn lemma_next_tag(shape: Shape, t: Seq<char>, from: int)
    ensures
        next_tag(shape, t, from) matches Some((s, e, v)) ==> from <= s < e <= t.len() && tag_at(shape, t, s) == Some((e, v)),
    decreases t.len() - from,
{
    if 0 <= from < t.len() {
        lemma_tag_at(shape, t, from);
        lemma_next_tag(shape, t, from + 1);
    }
}

/// The value of an attribute, or `""` when the tag has none.
pub open spec fn attr_or_empty(t: Seq<char>, name: Seq<char>) -> Seq<char> {
    match attr_of(t, name) {
        Some(v) => v,
        None => Seq::empty(),
    }
}

/// A `<link … href>`: a readable local stylesheet (`rel` is `stylesheet` in any case)
/// becomes `<style>` holding its text with its own `url(…)` references inlined
/// against its directory.
pub open spec fn link_rep(whole: Seq<char>, href: Seq<char>, base: Seq<char>, st: Seq<EntryView>) -> Result<Seq<char>, RequestView> {
    if !inlinable(href) {
        Ok(whole)
    } else if lower_seq(attr_or_empty(whole, "rel"@)) != "stylesheet"@ {
        Ok(whole)
    } else {
        match lookup(st, base, href) {
            None => Err((base, href)),
            Some(None) => Ok(whole),
            Some(Some(a)) => match url_pass(lossy_text(a.0), 0, a.2, st) {
                Ok(css) => Ok("<style>\n"@ + css + "\n</style>"@),
                Err(q) => Err(q),
            },
        }
    }
}

/// An empty `<script …></script>`: with a `src` naming a readable local file, and
/// not of `type="module"` (in any case), it becomes `<script …>` holding the file's
/// text, its start tag keeping every attribute but `src` (the `src` attribute goes,
/// with the whitespace before it).
pub open spec fn script_rep(whole: Seq<char>, attrs: Seq<char>, base: Seq<char>, st: Seq<EntryView>) -> Result<Seq<char>, RequestView> {
    match attr_match(attrs, "src"@) {
        None => Ok(whole),
        Some((s, e, src)) => if !inlinable(src) {
            Ok(whole)
        } else if lower_seq(attr_or_empty(attrs, "type"@)) == "module"@ {
            Ok(whole)
        } else {
            match lookup(st, base, src) {
                None => Err((base, src)),
                Some(None) => Ok(whole),
                Some(Some(a)) => Ok(
                    "<script"@ + attrs.take(skip_ws_back(attrs, s)) + attrs.skip(e) + ">\n"@ + lossy_text(a.0)
                        + "\n</script>"@,
                ),
            }
        },
    }
}

/// An `<img … src>` naming a readable local file: the value of its `src` attribute
/// (the first one) becomes the file's `data:` URI; the rest of the tag stays.
pub open spec fn img_rep(whole: Seq<char>, src: Seq<char>, base: Seq<char>, st: Seq<EntryView>) -> Result<Seq<char>, RequestView> {
    match attr_match(whole, "src"@) {
        None => Ok(whole),
        Some((s, e, v)) => if !inlinable(v) {
            Ok(whole)
        } else {
            match lookup(st, base, v) {
                None => Err((base, v)),
                Some(None) => Ok(whole),
                Some(Some(a)) => Ok(whole.take(e - 1 - v.len()) + data_uri(a.0, a.1) + whole.skip(e - 1)),
            }
        },
    }
}

pub open spec fn tag_rep(shape: Shape, whole: Seq<char>, v: Seq<char>, base: Seq<char>, st: Seq<EntryView>) -> Result<Seq<char>, RequestView> {
    match shape {
        Shape::Link => link_rep(whole, v, base, st),
        Shape::Script => script_rep(whole, v, base, st),
        Shape::Img => img_rep(whole, v, base, st),
    }
}

/// A page (from `from` on) with every tag of the shape rewritten.
pub open spec fn tag_pass(shape: Shape, t: Seq<char>, from: int, base: Seq<char>, st: Seq<EntryView>) -> Result<Seq<char>, RequestView>
    decreases t.len() - from,
{
    if 0 <= from <= t.len() {
        match next_tag(shape, t, from) {
            Some((s, e, v)) => if from <= s < e <= t.len() {
                match tag_rep(shape, t.subrange(s, e), v, base, st) {
                    Ok(rep) => prepend(t.subrange(from, s) + rep, tag_pass(shape, t, e, base, st)),
                    Err(q) => Err(q),
                }
            } else {
                Ok(t.subrange(from, t.len() as int))
            },
            None => Ok(t.subrange(from, t.len() as int)),
        }
    } else {
        Ok(Seq::empty())
    }
}

/// The page with stylesheets, then scripts, then images inlined; or the first file
/// the store does not know.
pub open spec fn inlined(html: Seq<char>, base: Seq<char>, st: Seq<EntryView>) -> Result<Seq<char>, RequestView> {
    match tag_pass(Shape::Link, html, 0, base, st) {
        Err(q) => Err(q),
        Ok(s1) => match tag_pass(Shape::Script, s1, 0, base, st) {
            Err(q) => Err(q),
            Ok(s2) => tag_pass(Shape::Img, s2, 0, base, st),
        },
    }
}

// ─── running the passes ───

/// The spec reading of an outcome of a pass.
pub open spec fn outcome(r: Result<Vec<char>, (Vec<char>, Vec<char>)>) -> Result<Seq<char>, RequestView> {
    match r {
        Ok(v) => Ok(v@),
        Err((b, q)) => Err((b@, q@)),
    }
}

proof fn lemma_prepend_empty(r: Result<Seq<char>, RequestView>)
    ensures
        prepend(Seq::empty(), r) == r,
{
    match r {
        Ok(x) => {
            assert(Seq::<char>::empty() + x =~= x);
        },
        Err(_) => {},
    }
}

proof fn lemma_prepend_assoc(a: Seq<char>, b: Seq<char>, r: Result<Seq<char>, RequestView>)
    ensures
        prepend(a, prepend(b, r)) == prepend(a + b, r),
{
    match r {
        Ok(x) => {
            assert(a + (b + x) =~= (a + b) + x);
        },
        Err(_) => {},
    }
}

fn request(base: &Vec<char>, rel: &Vec<char>) -> (r: Result<Vec<char>, (Vec<char>, Vec<char>)>)
    ensures
        outcome(r) == Err::<Seq<char>, RequestView>((base@, rel@)),
{
    let b = slice_of(base, 0, base.len());
    let q = slice_of(rel, 0, rel.len());
    assert(b@ =~= base@);
    assert(q@ =~= rel@);
    Err((b, q))
}

fn unchanged(whole: &Vec<char>) -> (r: Result<Vec<char>, (Vec<char>, Vec<char>)>)
    ensures
        outcome(r) == Ok::<Seq<char>, RequestView>(whole@),
{
    let w = slice_of(whole, 0, whole.len());
    assert(w@ =~= whole@);
    Ok(w)
}

proof fn lemma_entry_view(store: &AssetStore, i: int)
    requires
        0 <= i < store.entries@.len(),
    ensures
        store@[i] == store.entries@[i]@,
        store@.len() == store.entries@.len(),
{
}

fn url_rep_exec(whole: &Vec<char>, h: &Hit, base: &Vec<char>, store: &AssetStore) -> (r: Result<Vec<char>, (Vec<char>, Vec<char>)>)
    requires
        store.wf(),
    ensures
        outcome(r) == url_rep(whole@, h.g1@, h.g2@, h.g3@, base@, store@),
{
    if !inlinable_exec(&h.g2) {
        return unchanged(whole);
    }
    match store.find(base, &h.g2) {
        None => request(base, &h.g2),
        Some(i) => {
            proof {
                lemma_entry_view(store, i as int);
            }
            match &store.entries[i].file {
                None => unchanged(whole),
                Some(f) => {
                    assert(store@[i as int].2 == Some(f@));
                    let uri = to_data_uri(f.bytes.as_slice(), f.ext.as_str());
                    let mut out = chars_of("url(");
                    push_all(&mut out, &h.g1);
                    push_all(&mut out, &chars_of(uri.as_str()));
                    push_all(&mut out, &h.g3);
                    push_all(&mut out, &chars_of(")"));
                    Ok(out)
                },
            }
        },
    }
}

fn next_url_exec(t: &Vec<char>, from: usize, url_lit: &Vec<char>) -> (r: Option<(usize, Hit)>)
    requires
        url_lit@ == "url("@,
    ensures
        r matches Some((s, h)) ==> next_url(t@, from as int) == Some((s as int, h.end as int, h.g1@, h.g2@, h.g3@)),
        r is None ==> next_url(t@, from as int) is None,
{
    let mut i = from;
    while i < t.len()
        invariant
            from <= i,
            url_lit@ == "url("@,
            next_url(t@, from as int) == next_url(t@, i as int),
        decreases t@.len() - i,
    {
        match url_at_exec(t, i, url_lit) {
            Some(h) => {
                return Some((i, h));
            },
            None => {},
        }
        i = i + 1;
    }
    None
}

/// Inlines the `url(…)` references of a stylesheet whose directory is `base`.
fn url_pass_exec(t: &Vec<char>, base: &Vec<char>, store: &AssetStore) -> (r: Result<Vec<char>, (Vec<char>, Vec<char>)>)
    requires
        store.wf(),
    ensures
        outcome(r) == url_pass(t@, 0, base@, store@),
{
    let url_lit = chars_of("url(");
    let mut out: Vec<char> = Vec::new();
    let mut from: usize = 0;
    proof {
        lemma_prepend_empty(url_pass(t@, 0, base@, store@));
    }
    loop
        invariant
            from <= t@.len(),
            url_lit@ == "url("@,
            store.wf(),
            url_pass(t@, 0, base@, store@) == prepend(out@, url_pass(t@, from as int, base@, store@)),
        decreases t@.len() - from,
    {
        proof {
            lemma_next_url(t@, from as int);
        }
        match next_url_exec(t, from, &url_lit) {
            None => {
                let ghost before = out@;
                push_range(&mut out, t, from, t.len());
                return Ok(out);
            },
            Some((s, h)) => {
                let whole = slice_of(t, s, h.end);
                match url_rep_exec(&whole, &h, base, store) {
                    Err(q) => {
                        return Err(q);
                    },
                    Ok(rep) => {
                        proof {
                            lemma_prepend_assoc(out@, t@.subrange(from as int, s as int) + rep@, url_pass(t@, h.end as int, base@, store@));
                            assert(out@ + (t@.subrange(from as int, s as int) + rep@) =~= out@ + t@.subrange(from as int, s as int) + rep@);
                        }
                        push_range(&mut out, t, from, s);
                        push_all(&mut out, &rep);
                        from = h.end;
                    },
                }
            },
        }
    }
}

/// The literal texts a shape is recognised by.
pub open spec fn shape_lits(shape: Shape, a: Seq<char>, b: Seq<char>) -> bool {
    match shape {
        Shape::Link => a == "<link"@ && b == "href"@,
        Shape::Img => a == "<img"@ && b == "src"@,
        Shape::Script => a == "<script"@ && b == "</script>"@,
    }
}

fn tag_at_exec(shape: &Shape, t: &Vec<char>, s: usize, a: &Vec<char>, b: &Vec<char>) -> (r: Option<(usize, Vec<char>)>)
    requires
        shape_lits(*shape, a@, b@),
    ensures
        r matches Some((e, v)) ==> tag_at(*shape, t@, s as int) == Some((e as int, v@)),
        r is None ==> tag_at(*shape, t@, s as int) is None,
{
    match shape {
        Shape::Link => tag_attr_at_exec(t, s, a, b),
        Shape::Img => tag_attr_at_exec(t, s, a, b),
        Shape::Script => script_at_exec(t, s, a, b),
    }
}

fn next_tag_exec(shape: &Shape, t: &Vec<char>, from: usize, a: &Vec<char>, b: &Vec<char>) -> (r: Option<(usize, usize, Vec<char>)>)
    requires
        shape_lits(*shape, a@, b@),
    ensures
        r matches Some((s, e, v)) ==> next_tag(*shape, t@, from as int) == Some((s as int, e as int, v@)),
        r is None ==> next_tag(*shape, t@, from as int) is None,
{
    let mut i = from;
    while i < t.len()
        invariant
            from <= i,
            shape_lits(*shape, a@, b@),
            next_tag(*shape, t@, from as int) == next_tag(*shape, t@, i as int),
        decreases t@.len() - i,
    {
        match tag_at_exec(shape, t, i, a, b) {
            Some((e, v)) => {
                return Some((i, e, v));
            },
            None => {},
        }
        i = i + 1;
    }
    None
}

fn attr_or_empty_exec(t: &Vec<char>, name: &str) -> (r: Vec<char>)
    ensures
        r@ == attr_or_empty(t@, name@),
{
    match attr_value_exec(t, &chars_of(name)) {
        Some(v) => v,
        None => Vec::new(),
    }
}

fn link_rep_exec(whole: &Vec<char>, href: &Vec<char>, base: &Vec<char>, store: &AssetStore) -> (r: Result<Vec<char>, (Vec<char>, Vec<char>)>)
    requires
        store.wf(),
    ensures
        outcome(r) == link_rep(whole@, href@, base@, store@),
{
    if !inlinable_exec(href) {
        return unchanged(whole);
    }
    let rel = attr_or_empty_exec(whole, "rel");
    if !same_chars(&lower_chars(&rel), &chars_of("stylesheet")) {
        return unchanged(whole);
    }
    match store.find(base, href) {
        None => request(base, href),
        Some(i) => {
            proof {
                lemma_entry_view(store, i as int);
            }
            match &store.entries[i].file {
                None => unchanged(whole),
                Some(f) => {
                    assert(store@[i as int].2 == Some(f@));
                    let css = chars_of(decode_lossy(f.bytes.as_slice()).as_str());
                    let dir = chars_of(f.dir.as_str());
                    match url_pass_exec(&css, &dir, store) {
                        Err(q) => Err(q),
                        Ok(body) => {
                            let mut out = chars_of("<style>\n");
                            push_all(&mut out, &body);
                            push_all(&mut out, &chars_of("\n</style>"));
                            Ok(out)
                        },
                    }
                },
            }
        },
    }
}

fn script_rep_exec(whole: &Vec<char>, attrs: &Vec<char>, base: &Vec<char>, store: &AssetStore) -> (r: Result<Vec<char>, (Vec<char>, Vec<char>)>)
    requires
        store.wf(),
    ensures
        outcome(r) == script_rep(whole@, attrs@, base@, store@),
{
    let (s, e, src) = match attr_match_exec(attrs, &chars_of("src")) {
        Some(m) => m,
        None => {
            return unchanged(whole);
        },
    };
    proof {
        lemma_attr_match_from(attrs@, 0, "src"@);
    }
    if !inlinable_exec(&src) {
        return unchanged(whole);
    }
    let typ = attr_or_empty_exec(attrs, "type");
    if same_chars(&lower_chars(&typ), &chars_of("module")) {
        return unchanged(whole);
    }
    match store.find(base, &src) {
        None => request(base, &src),
        Some(i) => {
            proof {
                lemma_entry_view(store, i as int);
            }
            match &store.entries[i].file {
                None => unchanged(whole),
                Some(f) => {
                    assert(store@[i as int].2 == Some(f@));
                    let js = chars_of(decode_lossy(f.bytes.as_slice()).as_str());
                    proof {
                        lemma_skip_ws_back_bounds(attrs@, s as int);
                    }
                    let keep = skip_ws_back_exec(attrs, s);
                    let mut out = chars_of("<script");
                    push_range(&mut out, attrs, 0, keep);
                    push_range(&mut out, attrs, e, attrs.len());
                    push_all(&mut out, &chars_of(">\n"));
                    push_all(&mut out, &js);
                    push_all(&mut out, &chars_of("\n</script>"));
                    proof {
                        assert(attrs@.subrange(0, keep as int) =~= attrs@.take(keep as int));
                        assert(attrs@.subrange(e as int, attrs@.len() as int) =~= attrs@.skip(e as int));
                    }
                    Ok(out)
                },
            }
        },
    }
}

fn img_rep_exec(whole: &Vec<char>, src: &Vec<char>, base: &Vec<char>, store: &AssetStore) -> (r: Result<Vec<char>, (Vec<char>, Vec<char>)>)
    requires
        store.wf(),
    ensures
        outcome(r) == img_rep(whole@, src@, base@, store@),
{
    let (s, e, v) = match attr_match_exec(whole, &chars_of("src")) {
        Some(m) => m,
        None => {
            return unchanged(whole);
        },
    };
    proof {
        lemma_attr_match_from(whole@, 0, "src"@);
    }
    if !inlinable_exec(&v) {
        return unchanged(whole);
    }
    match store.find(base, &v) {
        None => request(base, &v),
        Some(i) => {
            proof {
                lemma_entry_view(store, i as int);
            }
            match &store.entries[i].file {
                None => unchanged(whole),
                Some(f) => {
                    assert(store@[i as int].2 == Some(f@));
                    let uri = chars_of(to_data_uri(f.bytes.as_slice(), f.ext.as_str()).as_str());
                    let vs = e - 1 - v.len();
                    let mut out: Vec<char> = Vec::new();
                    push_range(&mut out, whole, 0, vs);
                    push_all(&mut out, &uri);
                    push_range(&mut out, whole, e - 1, whole.len());
                    proof {
                        assert(whole@.subrange(0, vs as int) =~= whole@.take(vs as int));
                        assert(whole@.subrange(e - 1, whole@.len() as int) =~= whole@.skip(e - 1));
                    }
                    Ok(out)
                },
            }
        },
    }
}

fn tag_rep_exec(shape: &Shape, whole: &Vec<char>, v: &Vec<char>, base: &Vec<char>, store: &AssetStore) -> (r: Result<Vec<char>, (Vec<char>, Vec<char>)>)
    requires
        store.wf(),
    ensures
        outcome(r) == tag_rep(*shape, whole@, v@, base@, store@),
{
    match shape {
        Shape::Link => link_rep_exec(whole, v, base, store),
        Shape::Script => script_rep_exec(whole, v, base, store),
        Shape::Img => img_rep_exec(whole, v, base, store),
    }
}

fn tag_pass_exec(shape: &Shape, t: &Vec<char>, base: &Vec<char>, store: &AssetStore) -> (r: Result<Vec<char>, (Vec<char>, Vec<char>)>)
    requires
        store.wf(),
    ensures
        outcome(r) == tag_pass(*shape, t@, 0, base@, store@),
{
    let (a, b) = match shape {
        Shape::Link => (chars_of("<link"), chars_of("href")),
        Shape::Img => (chars_of("<img"), chars_of("src")),
        Shape::Script => (chars_of("<script"), chars_of("</script>")),
    };
    let mut out: Vec<char> = Vec::new();
    let mut from: usize = 0;
    proof {
        lemma_prepend_empty(tag_pass(*shape, t@, 0, base@, store@));
    }
    loop
        invariant
            from <= t@.len(),
            shape_lits(*shape, a@, b@),
            store.wf(),
            tag_pass(*shape, t@, 0, base@, store@) == prepend(out@, tag_pass(*shape, t@, from as int, base@, store@)),
        decreases t@.len() - from,
    {
        proof {
            lemma_next_tag(*shape, t@, from as int);
        }
        match next_tag_exec(shape, t, from, &a, &b) {
            None => {
                push_range(&mut out, t, from, t.len());
                return Ok(out);
            },
            Some((s, e, v)) => {
                let whole = slice_of(t, s, e);
                match tag_rep_exec(shape, &whole, &v, base, store) {
                    Err(q) => {
                        return Err(q);
                    },
                    Ok(rep) => {
                        proof {
                            lemma_prepend_assoc(out@, t@.subrange(from as int, s as int) + rep@, tag_pass(*shape, t@, e as int, base@, store@));
                            assert(out@ + (t@.subrange(from as int, s as int) + rep@) =~= out@ + t@.subrange(from as int, s as int) + rep@);
                        }
                        push_range(&mut out, t, from, s);
                        push_all(&mut out, &rep);
                        from = e;
                    },
                }
            },
        }
    }
}

/// Inlines the local stylesheets, scripts and images of `html`, whose references are
/// relative to `base_dir`, with the files of `store`.  When a file the store does not
/// know is needed, the request for the first such file comes back instead.
pub fn inline_resources(html: &str, base_dir: &str, store: &AssetStore) -> (r: Result<String, AssetRequest>)
    requires
        store.wf(),
    ensures
        r matches Ok(s) ==> inlined(html@, base_dir@, store@) == Ok::<Seq<char>, RequestView>(s@),
        r matches Err(q) ==> inlined(html@, base_dir@, store@) == Err::<Seq<char>, RequestView>(q@),
{
    let t = chars_of(html);
    let base = chars_of(base_dir);
    let s1 = match tag_pass_exec(&Shape::Link, &t, &base, store) {
        Ok(v) => v,
        Err((b, q)) => {
            return Err(AssetRequest { base_dir: string_of(&b), rel: string_of(&q) });
        },
    };
    let s2 = match tag_pass_exec(&Shape::Script, &s1, &base, store) {
        Ok(v) => v,
        Err((b, q)) => {
            return Err(AssetRequest { base_dir: string_of(&b), rel: string_of(&q) });
        },
    };
    match tag_pass_exec(&Shape::Img, &s2, &base, store) {
        Ok(v) => Ok(string_of(&v)),
        Err((b, q)) => Err(AssetRequest { base_dir: string_of(&b), rel: string_of(&q) }),
    }
}

/// Inlines the local `url(…)` references of a stylesheet whose directory is
/// `base_dir`, with the files of `store`; or the first file the store does not know.
pub fn inline_css_urls(css: &str, base_dir: &str, store: &AssetStore) -> (r: Result<String, AssetRequest>)
    requires
        store.wf(),
    ensures
        r matches Ok(s) ==> url_pass(css@, 0, base_dir@, store@) == Ok::<Seq<char>, RequestView>(s@),
        r matches Err(q) ==> url_pass(css@, 0, base_dir@, store@) == Err::<Seq<char>, RequestView>(q@),
{
    match url_pass_exec(&chars_of(css), &chars_of(base_dir), store) {
        Ok(v) => Ok(string_of(&v)),
        Err((b, q)) => Err(AssetRequest { base_dir: string_of(&b), rel: string_of(&q) }),
    }
}

/// The value of the attribute `name` in a run of attributes.
pub fn attr_value(attrs: &str, name: &str) -> (r: Option<String>)
    ensures
        r matches Some(v) ==> attr_of(attrs@, name@) == Some(v@),
        r is None ==> attr_of(attrs@, name@) is None,
{
    match attr_value_exec(&chars_of(attrs), &chars_of(name)) {
        Some(v) => Some(string_of(&v)),
        None => None,
    }
}

fn pass_result(r: Result<Vec<char>, (Vec<char>, Vec<char>)>) -> (res: Result<String, AssetRequest>)
    ensures
        res matches Ok(s) ==> outcome(r) == Ok::<Seq<char>, RequestView>(s@),
        res matches Err(q) ==> outcome(r) == Err::<Seq<char>, RequestView>(q@),
{
    match r {
        Ok(v) => Ok(string_of(&v)),
        Err((b, q)) => Err(AssetRequest { base_dir: string_of(&b), rel: string_of(&q) }),
    }
}

/// Turns `<link rel="stylesheet" href>` tags naming readable local files into
/// `<style>` elements.
pub fn inline_link_tags(html: &str, base_dir: &str, store: &AssetStore) -> (r: Result<String, AssetRequest>)
    requires
        store.wf(),
    ensures
        r matches Ok(s) ==> tag_pass(Shape::Link, html@, 0, base_dir@, store@) == Ok::<Seq<char>, RequestView>(s@),
        r matches Err(q) ==> tag_pass(Shape::Link, html@, 0, base_dir@, store@) == Err::<Seq<char>, RequestView>(q@),
{
    pass_result(tag_pass_exec(&Shape::Link, &chars_of(html), &chars_of(base_dir), store))
}

/// Turns empty `<script src>` elements (not modules) naming readable local files into
/// `<script>` elements holding the code.
pub fn inline_script_tags(html: &str, base_dir: &str, store: &AssetStore) -> (r: Result<String, AssetRequest>)
    requires
        store.wf(),
    ensures
        r matches Ok(s) ==> tag_pass(Shape::Script, html@, 0, base_dir@, store@) == Ok::<Seq<char>, RequestView>(s@),
        r matches Err(q) ==> tag_pass(Shape::Script, html@, 0, base_dir@, store@) == Err::<Seq<char>, RequestView>(q@),
{
    pass_result(tag_pass_exec(&Shape::Script, &chars_of(html), &chars_of(base_dir), store))
}

/// Gives `<img src>` tags naming readable local files a `data:` URI.
pub fn inline_img_tags(html: &str, base_dir: &str, store: &AssetStore) -> (r: Result<String, AssetRequest>)
    requires
        store.wf(),
    ensures
        r matches Ok(s) ==> tag_pass(Shape::Img, html@, 0, base_dir@, store@) == Ok::<Seq<char>, RequestView>(s@),
        r matches Err(q) ==> tag_pass(Shape::Img, html@, 0, base_dir@, store@) == Err::<Seq<char>, RequestView>(q@),
{
    pass_result(tag_pass_exec(&Shape::Img, &chars_of(html), &chars_of(base_dir), store))
}

// ─── laws ───

proof fn lemma_lookup_entry(st: Seq<EntryView>, i: int, base: Seq<char>, rel: Seq<char>)
    requires
        0 <= i,
    ensures
        lookup_from(st, i, base, rel) matches Some(x) ==> exists|j: int| i <= j < st.len() && st[j].2 == x && st[j].0 == base && st[j].1 == rel,
    decreases st.len() - i,
{
    if i < st.len() {
        lemma_lookup_entry(st, i + 1, base, rel);
    }
}

/// No entry of the store holds a readable file.
pub open spec fn nothing_readable(st: Seq<EntryView>) -> bool {
    forall|i: int| 0 <= i < st.len() ==> (#[trigger] st[i]).2 is None
}

proof fn lemma_lookup_unreadable(st: Seq<EntryView>, base: Seq<char>, rel: Seq<char>)
    requires
        nothing_readable(st),
    ensures
        lookup(st, base, rel) is None || lookup(st, base, rel) == Some(None::<AssetView>),
{
    lemma_lookup_entry(st, 0, base, rel);
}

proof fn lemma_url_pass_keeps(t: Seq<char>, from: int, base: Seq<char>, st: Seq<EntryView>)
    requires
        0 <= from <= t.len(),
        nothing_readable(st),
        url_pass(t, from, base, st) is Ok,
    ensures
        url_pass(t, from, base, st) == Ok::<Seq<char>, RequestView>(t.subrange(from, t.len() as int)),
    decreases t.len() - from,
{
    lemma_next_url(t, from);
    match next_url(t, from) {
        Some((s, e, o, raw, c)) => {
            lemma_lookup_unreadable(st, base, raw);
            let whole = t.subrange(s, e);
            assert(url_rep(whole, o, raw, c, base, st) == Ok::<Seq<char>, RequestView>(whole));
            lemma_url_pass_keeps(t, e, base, st);
            assert(t.subrange(from, s) + whole + t.subrange(e, t.len() as int) =~= t.subrange(from, t.len() as int));
        },
        None => {},
    }
}

proof fn lemma_tag_pass_keeps(shape: Shape, t: Seq<char>, from: int, base: Seq<char>, st: Seq<EntryView>)
    requires
        0 <= from <= t.len(),
        nothing_readable(st),
        tag_pass(shape, t, from, base, st) is Ok,
    ensures
        tag_pass(shape, t, from, base, st) == Ok::<Seq<char>, RequestView>(t.subrange(from, t.len() as int)),
    decreases t.len() - from,
{
    lemma_next_tag(shape, t, from);
    match next_tag(shape, t, from) {
        Some((s, e, v)) => {
            let whole = t.subrange(s, e);
            lemma_lookup_unreadable(st, base, v);
            if let Some((_, _, src)) = attr_match(v, "src"@) {
                lemma_lookup_unreadable(st, base, src);
            }
            if let Some((_, _, src)) = attr_match(whole, "src"@) {
                lemma_lookup_unreadable(st, base, src);
            }
            assert(tag_rep(shape, whole, v, base, st) == Ok::<Seq<char>, RequestView>(whole));
            lemma_tag_pass_keeps(shape, t, e, base, st);
            assert(t.subrange(from, s) + whole + t.subrange(e, t.len() as int) =~= t.subrange(from, t.len() as int));
        },
        None => {},
    }
}

/// References to files that cannot be read are kept: when no file of the store could
/// be read and inlining finishes, the page comes back unchanged.
pub proof fn law_unreadable_files_keep_page(html: Seq<char>, base: Seq<char>, st: Seq<EntryView>)
    requires
        nothing_readable(st),
        inlined(html, base, st) is Ok,
    ensures
        inlined(html, base, st) == Ok::<Seq<char>, RequestView>(html),
{
    assert(html.subrange(0, html.len() as int) =~= html);
    lemma_tag_pass_keeps(Shape::Link, html, 0, base, st);
    lemma_tag_pass_keeps(Shape::Script, html, 0, base, st);
    lemma_tag_pass_keeps(Shape::Img, html, 0, base, st);
}

/// A stylesheet whose files cannot be read comes back unchanged.
pub proof fn law_unreadable_files_keep_css(css: Seq<char>, base: Seq<char>, st: Seq<EntryView>)
    requires
        nothing_readable(st),
        url_pass(css, 0, base, st) is Ok,
    ensures
        url_pass(css, 0, base, st) == Ok::<Seq<char>, RequestView>(css),
{
    assert(css.subrange(0, css.len() as int) =~= css);
    lemma_url_pass_keeps(css, 0, base, st);
}

proof fn lemma_lookup_extend(st: Seq<EntryView>, ext: Seq<EntryView>, base: Seq<char>, rel: Seq<char>, i: int)
    requires
        0 <= i,
    ensures
        lookup_from(st, i, base, rel) matches Some(x) ==> lookup_from(st + ext, i, base, rel) == Some(x),
    decreases st.len() - i,
{
    if i < st.len() {
        assert((st + ext)[i] == st[i]);
        lemma_lookup_extend(st, ext, base, rel, i + 1);
    }
}

proof fn lemma_url_pass_extend(t: Seq<char>, from: int, base: Seq<char>, st: Seq<EntryView>, ext: Seq<EntryView>)
    requires
        0 <= from <= t.len(),
        url_pass(t, from, base, st) is Ok,
    ensures
        url_pass(t, from, base, st + ext) == url_pass(t, from, base, st),
    decreases t.len() - from,
{
    lemma_next_url(t, from);
    match next_url(t, from) {
        Some((s, e, o, raw, c)) => {
            lemma_lookup_extend(st, ext, base, raw, 0);
            let whole = t.subrange(s, e);
            assert(url_rep(whole, o, raw, c, base, st + ext) == url_rep(whole, o, raw, c, base, st));
            lemma_url_pass_extend(t, e, base, st, ext);
        },
        None => {},
    }
}

proof fn lemma_tag_pass_extend(shape: Shape, t: Seq<char>, from: int, base: Seq<char>, st: Seq<EntryView>, ext: Seq<EntryView>)
    requires
        0 <= from <= t.len(),
        tag_pass(shape, t, from, base, st) is Ok,
    ensures
        tag_pass(shape, t, from, base, st + ext) == tag_pass(shape, t, from, base, st),
    decreases t.len() - from,
{
    lemma_next_tag(shape, t, from);
    match next_tag(shape, t, from) {
        Some((s, e, v)) => {
            let whole = t.subrange(s, e);
            lemma_lookup_extend(st, ext, base, v, 0);
            if let Some((_, _, src)) = attr_match(v, "src"@) {
                lemma_lookup_extend(st, ext, base, src, 0);
            }
            if let Some((_, _, src)) = attr_match(whole, "src"@) {
                lemma_lookup_extend(st, ext, base, src, 0);
            }
            if let Some(Some(a)) = lookup(st, base, v) {
                if url_pass(lossy_text(a.0), 0, a.2, st) is Ok {
                    lemma_url_pass_extend(lossy_text(a.0), 0, a.2, st, ext);
                }
            }
            assert(tag_rep(shape, whole, v, base, st + ext) == tag_rep(shape, whole, v, base, st));
            lemma_tag_pass_extend(shape, t, e, base, st, ext);
        },
        None => {},
    }
}

/// A finished result stays: once inlining with a store finishes, files added to the
/// store afterwards do not change the page it gives.
pub proof fn law_finished_result_is_stable(html: Seq<char>, base: Seq<char>, st: Seq<EntryView>, ext: Seq<EntryView>)
    requires
        inlined(html, base, st) is Ok,
    ensures
        inlined(html, base, st + ext) == inlined(html, base, st),
{
    lemma_tag_pass_extend(Shape::Link, html, 0, base, st, ext);
    let s1 = tag_pass(Shape::Link, html, 0, base, st)->Ok_0;
    lemma_tag_pass_extend(Shape::Script, s1, 0, base, st, ext);
    let s2 = tag_pass(Shape::Script, s1, 0, base, st)->Ok_0;
    lemma_tag_pass_extend(Shape::Img, s2, 0, base, st, ext);
}

proof fn lemma_url_pass_request(t: Seq<char>, from: int, base: Seq<char>, st: Seq<EntryView>)
    requires
        0 <= from <= t.len(),
    ensures
        url_pass(t, from, base, st) matches Err(q) ==> lookup(st, q.0, q.1) is None,
    decreases t.len() - from,
{
    lemma_next_url(t, from);
    match next_url(t, from) {
        Some((s, e, o, raw, c)) => {
            lemma_url_pass_request(t, e, base, st);
        },
        None => {},
    }
}

proof fn lemma_tag_pass_request(shape: Shape, t: Seq<char>, from: int, base: Seq<char>, st: Seq<EntryView>)
    requires
        0 <= from <= t.len(),
    ensures
        tag_pass(shape, t, from, base, st) matches Err(q) ==> lookup(st, q.0, q.1) is None,
    decreases t.len() - from,
{
    lemma_next_tag(shape, t, from);
    match next_tag(shape, t, from) {
        Some((s, e, v)) => {
            if let Some(Some(a)) = lookup(st, base, v) {
                lemma_url_pass_request(lossy_text(a.0), 0, a.2, st);
            }
            lemma_tag_pass_request(shape, t, e, base, st);
        },
        None => {},
    }
}

/// A file the inliner asks for is never one the store already answers for, so a
/// caller that adds each answer to the store makes progress.
pub proof fn law_request_is_unknown(html: Seq<char>, base: Seq<char>, st: Seq<EntryView>)
    ensures
        inlined(html, base, st) matches Err(q) ==> lookup(st, q.0, q.1) is None,
{
    lemma_tag_pass_request(Shape::Link, html, 0, base, st);
    match tag_pass(Shape::Link, html, 0, base, st) {
        Ok(s1) => {
            lemma_tag_pass_request(Shape::Script, s1, 0, base, st);
            match tag_pass(Shape::Script, s1, 0, base, st) {
                Ok(s2) => {
                    lemma_tag_pass_request(Shape::Img, s2, 0, base, st);
                },
                Err(_) => {},
            }
        },
        Err(_) => {},
    }
}

} // verus!
