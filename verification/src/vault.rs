//! The vault: a directory of HTML files, its index, and the rules for changing it.
//!
//! The index is a [`VaultState`]; the caller holds the current one (if a vault is
//! configured) and does the file-system work these functions plan.
use vstd::prelude::*;
use crate::text::{or_empty, lower, trim, trim_chars, is_control_char, is_control, opt_view, chars_of, string_of, push_all, slice_of, same_chars, contains_char, lower_seq, lower_chars, has_prefix, has_prefix_exec};
use crate::paths::{
    file_name, file_name_of, extension, extension_of, name_stem, name_stem_of, join_path,
    join_path_exec, parent, parent_of, split, split_exec, clean_parent, clean_parent_of, replace_char,
    replace_char_exec, path_starts_with, path_starts_with_exec, lemma_split_single, lemma_last_index_of_join,
    dot, dot_dot, name_end, lemma_split_nonempty, lemma_split_single_piece_has_no_sep, last_index_of,
    lemma_last_index_of,
};
use crate::sort::{stable_order, is_stable_order, lex_le, lemma_stable_order_onto};
use crate::parser::ParsedHtml;

verus! {

// ─── the index ───

/// An HTML file of the vault.
#[derive(Clone, Debug)]
pub struct VaultFile {
    pub id: String,
    pub title: String,
    pub file_name: String,
    /// Path from the vault root, e.g. `"slides/slide1.html"`.
    pub rel_path: String,
    /// Path on disk.
    pub abs_path: String,
    pub file_size: u64,
    /// Plain-text summary.
    pub summary: String,
    /// Last modification of the file, Unix milliseconds.
    pub last_modified: i64,
    /// Directory of the file from the vault root, e.g. `"slides"`; `""` at the root.
    pub dir_path: String,
}

/// A directory of the vault.
#[derive(Clone, Debug)]
pub struct VaultDir {
    /// Path from the vault root, e.g. `"slides/projects"`.
    pub rel_path: String,
    pub name: String,
    /// Path of the parent directory; `None` for a directory at the root.
    pub parent_path: Option<String>,
    /// Depth below the root: 1 for a directory at the root.
    pub level: u32,
}

pub ghost struct VaultFileView {
    pub id: Seq<char>,
    pub title: Seq<char>,
    pub file_name: Seq<char>,
    pub rel_path: Seq<char>,
    pub abs_path: Seq<char>,
    pub file_size: u64,
    pub summary: Seq<char>,
    pub last_modified: i64,
    pub dir_path: Seq<char>,
}

pub ghost struct VaultDirView {
    pub rel_path: Seq<char>,
    pub name: Seq<char>,
    pub parent_path: Option<Seq<char>>,
    pub level: u32,
}

impl View for VaultFile {
    type V = VaultFileView;

    open spec fn view(&self) -> VaultFileView {
        VaultFileView {
            id: self.id@,
            title: self.title@,
            file_name: self.file_name@,
            rel_path: self.rel_path@,
            abs_path: self.abs_path@,
            file_size: self.file_size,
            summary: self.summary@,
            last_modified: self.last_modified,
            dir_path: self.dir_path@,
        }
    }
}

impl View for VaultDir {
    type V = VaultDirView;

    open spec fn view(&self) -> VaultDirView {
        VaultDirView {
            rel_path: self.rel_path@,
            name: self.name@,
            parent_path: opt_view(self.parent_path),
            level: self.level,
        }
    }
}

fn copy_opt(o: &Option<String>) -> (r: Option<String>)
    ensures
        opt_view(r) == opt_view(*o),
{
    match o {
        Some(s) => Some(s.clone()),
        None => None,
    }
}

impl VaultFile {
    /// A copy of this entry.
    pub fn duplicate(&self) -> (r: VaultFile)
        ensures
            r@ == self@,
    {
        VaultFile {
            id: self.id.clone(),
            title: self.title.clone(),
            file_name: self.file_name.clone(),
            rel_path: self.rel_path.clone(),
            abs_path: self.abs_path.clone(),
            file_size: self.file_size,
            summary: self.summary.clone(),
            last_modified: self.last_modified,
            dir_path: self.dir_path.clone(),
        }
    }
}

impl VaultDir {
    /// A copy of this entry.
    pub fn duplicate(&self) -> (r: VaultDir)
        ensures
            r@ == self@,
    {
        VaultDir {
            rel_path: self.rel_path.clone(),
            name: self.name.clone(),
            parent_path: copy_opt(&self.parent_path),
            level: self.level,
        }
    }
}

/// The index of a configured vault: its files, its directories and its root.
#[derive(Debug)]
pub struct VaultState {
    pub files: Vec<VaultFile>,
    pub dirs: Vec<VaultDir>,
    pub root: String,
}

pub open spec fn not_configured_msg() -> Seq<char> {
    "仓库尚未配置"@
}

/// The root of the configured vault.
pub fn get_root(vault: &Option<VaultState>) -> (r: Result<String, String>)
    ensures
        match *vault {
            Some(st) => r matches Ok(root) && root@ == st.root@,
            None => r matches Err(e) && e@ == not_configured_msg(),
        },
{
    match vault {
        Some(st) => Ok(st.root.clone()),
        None => Err("仓库尚未配置".to_string()),
    }
}

/// The root path of the configured vault, if any.
pub fn root_path(vault: &Option<VaultState>) -> (r: Option<String>)
    ensures
        opt_view(r) == match *vault {
            Some(st) => Some(st.root@),
            None => None,
        },
{
    match vault {
        Some(st) => Some(st.root.clone()),
        None => None,
    }
}

/// The name of the vault's root directory (its last path component), if any.
pub fn root_name(vault: &Option<VaultState>) -> (r: Option<String>)
    ensures
        opt_view(r) == match *vault {
            Some(st) => file_name(st.root@),
            None => None,
        },
{
    match vault {
        Some(st) => match file_name_of(&chars_of(st.root.as_str())) {
            Some(n) => Some(string_of(&n)),
            None => None,
        },
        None => None,
    }
}

/// The name a vault is saved under: the last component of its root path, or
/// `我的仓库` when the path has none.
pub open spec fn vault_name(root: Seq<char>) -> Seq<char> {
    match file_name(root) {
        Some(n) => n,
        None => "我的仓库"@,
    }
}

/// The name to save with a vault whose root is `root_path`.
pub fn vault_display_name(root_path: &str) -> (r: String)
    ensures
        r@ == vault_name(root_path@),
{
    match file_name_of(&chars_of(root_path)) {
        Some(n) => string_of(&n),
        None => "我的仓库".to_string(),
    }
}

/// The path of `rel_path` inside the configured vault (whether it exists is the
/// caller's check).
pub fn resolve_abs_path(vault: &Option<VaultState>, rel_path: &str) -> (r: Result<String, String>)
    ensures
        match *vault {
            Some(st) => r matches Ok(p) && p@ == join_path(st.root@, rel_path@),
            None => r matches Err(e) && e@ == not_configured_msg(),
        },
{
    match vault {
        Some(st) => Ok(string_of(&join_path_exec(&chars_of(st.root.as_str()), &chars_of(rel_path)))),
        None => Err("仓库尚未配置".to_string()),
    }
}

/// The answer about a resolved path, given whether something exists there: the path,
/// or `文件不存在` (the file does not exist).
pub fn resolved_or_missing(path: String, exists: bool) -> (r: Result<String, String>)
    ensures
        exists <==> r is Ok,
        r matches Ok(p) ==> p@ == path@,
        r matches Err(e) ==> e@ == "文件不存在"@,
{
    if exists {
        Ok(path)
    } else {
        Err("文件不存在".to_string())
    }
}

// ─── listing ───

pub open spec fn file_keys(fs: Seq<VaultFile>) -> Seq<Seq<char>> {
    Seq::new(fs.len(), |i: int| fs[i].rel_path@)
}

pub open spec fn dir_keys(ds: Seq<VaultDir>) -> Seq<Seq<char>> {
    Seq::new(ds.len(), |i: int| ds[i].rel_path@)
}

/// `out` is `files` sorted by relative path, files with equal paths in their own order.
pub open spec fn files_sorted(files: Seq<VaultFile>, out: Seq<VaultFile>) -> bool {
    &&& out.len() == files.len()
    &&& exists|p: Seq<usize>|
        #[trigger] is_stable_order(file_keys(files), p) && forall|k: int|
            0 <= k < out.len() ==> out[k]@ == files[p[k] as int]@
}

/// `out` is `dirs` sorted by relative path, directories with equal paths in their own order.
pub open spec fn dirs_sorted(dirs: Seq<VaultDir>, out: Seq<VaultDir>) -> bool {
    &&& out.len() == dirs.len()
    &&& exists|p: Seq<usize>|
        #[trigger] is_stable_order(dir_keys(dirs), p) && forall|k: int|
            0 <= k < out.len() ==> out[k]@ == dirs[p[k] as int]@
}

fn sorted_files(files: &Vec<VaultFile>) -> (r: Vec<VaultFile>)
    ensures
        files_sorted(files@, r@),
{
    let n = files.len();
    let mut keys: Vec<Vec<char>> = Vec::new();
    for i in 0..n
        invariant
            n == files@.len(),
            keys@.len() == i,
            forall|k: int| 0 <= k < i ==> #[trigger] keys@[k]@ == files@[k].rel_path@,
    {
        keys.push(chars_of(files[i].rel_path.as_str()));
    }
    assert(crate::sort::views_of(keys@) =~= file_keys(files@));
    let order = stable_order(&keys);
    let mut out: Vec<VaultFile> = Vec::new();
    for k in 0..n
        invariant
            n == files@.len() == order@.len(),
            is_stable_order(file_keys(files@), order@),
            out@.len() == k,
            forall|m: int| 0 <= m < k ==> #[trigger] out@[m]@ == files@[order@[m] as int]@,
    {
        out.push(files[order[k]].duplicate());
    }
    out
}

fn sorted_dirs(dirs: &Vec<VaultDir>) -> (r: Vec<VaultDir>)
    ensures
        dirs_sorted(dirs@, r@),
{
    let n = dirs.len();
    let mut keys: Vec<Vec<char>> = Vec::new();
    for i in 0..n
        invariant
            n == dirs@.len(),
            keys@.len() == i,
            forall|k: int| 0 <= k < i ==> #[trigger] keys@[k]@ == dirs@[k].rel_path@,
    {
        keys.push(chars_of(dirs[i].rel_path.as_str()));
    }
    assert(crate::sort::views_of(keys@) =~= dir_keys(dirs@));
    let order = stable_order(&keys);
    let mut out: Vec<VaultDir> = Vec::new();
    for k in 0..n
        invariant
            n == dirs@.len() == order@.len(),
            is_stable_order(dir_keys(dirs@), order@),
            out@.len() == k,
            forall|m: int| 0 <= m < k ==> #[trigger] out@[m]@ == dirs@[order@[m] as int]@,
    {
        out.push(dirs[order[k]].duplicate());
    }
    out
}

/// The indexed HTML files, sorted by relative path; none without a vault.
pub fn list_files(vault: &Option<VaultState>) -> (r: Vec<VaultFile>)
    ensures
        match *vault {
            Some(st) => files_sorted(st.files@, r@),
            None => r@.len() == 0,
        },
{
    match vault {
        Some(st) => sorted_files(&st.files),
        None => Vec::new(),
    }
}

/// The indexed directories, sorted by relative path; none without a vault.  Of an
/// index as a scan builds it, every directory listed lies 1 to `MAX_LEVEL` levels down.
pub fn list_dirs(vault: &Option<VaultState>) -> (r: Vec<VaultDir>)
    ensures
        match *vault {
            Some(st) => {
                &&& dirs_sorted(st.dirs@, r@)
                &&& st.wf() ==> forall|k: int| 0 <= k < r@.len() ==> 1 <= (#[trigger] r@[k]).level <= MAX_LEVEL
            },
            None => r@.len() == 0,
        },
{
    match vault {
        Some(st) => {
            let r = sorted_dirs(&st.dirs);
            proof {
                if st.wf() {
                    law_indexed_dirs_within_levels(*st);
                    let p = choose|p: Seq<usize>|
                        #[trigger] is_stable_order(dir_keys(st.dirs@), p) && forall|k: int|
                            0 <= k < r@.len() ==> r@[k]@ == st.dirs@[p[k] as int]@;
                    assert forall|k: int| 0 <= k < r@.len() implies 1 <= (#[trigger] r@[k]).level <= MAX_LEVEL by {
                        assert(r@[k]@ == st.dirs@[p[k] as int]@);
                        assert(p[k] < st.dirs@.len());
                    }
                }
            }
            r
        },
        None => Vec::new(),
    }
}

/// The file entry `v` is in `fs`.
pub open spec fn has_file(fs: Seq<VaultFile>, v: VaultFileView) -> bool {
    exists|k: int| 0 <= k < fs.len() && #[trigger] fs[k]@ == v
}

/// The directory entry `v` is in `ds`.
pub open spec fn has_dir(ds: Seq<VaultDir>, v: VaultDirView) -> bool {
    exists|k: int| 0 <= k < ds.len() && #[trigger] ds[k]@ == v
}

/// Listing shows the indexed files, in order of relative path: every file of the
/// listing is an indexed one, every indexed one is in the listing, and paths never
/// decrease along it.
pub proof fn law_listed_files_are_the_index_sorted(files: Seq<VaultFile>, out: Seq<VaultFile>)
    requires
        files_sorted(files, out),
    ensures
        forall|k: int| 0 <= k < out.len() ==> has_file(files, #[trigger] out[k]@),
        forall|i: int| 0 <= i < files.len() ==> has_file(out, #[trigger] files[i]@),
        forall|a: int, b: int| 0 <= a < b < out.len() ==> lex_le(#[trigger] out[a].rel_path@, #[trigger] out[b].rel_path@),
{
    let keys = file_keys(files);
    let p = choose|p: Seq<usize>|
        #[trigger] is_stable_order(keys, p) && forall|k: int| 0 <= k < out.len() ==> out[k]@ == files[p[k] as int]@;
    assert forall|k: int| 0 <= k < out.len() implies has_file(files, #[trigger] out[k]@) by {
        let w = p[k] as int;
        assert(0 <= w < files.len() && files[w]@ == out[k]@);
    }
    assert forall|i: int| 0 <= i < files.len() implies has_file(out, #[trigger] files[i]@) by {
        lemma_stable_order_onto(keys, p, i);
        let k = choose|k: int| 0 <= k < p.len() && p[k] as int == i;
        assert(out[k]@ == files[i]@);
    }
    assert forall|a: int, b: int| 0 <= a < b < out.len() implies lex_le(#[trigger] out[a].rel_path@, #[trigger] out[b].rel_path@) by {
        assert(lex_le(keys[p[a] as int], keys[p[b] as int]));
        assert(out[a]@ == files[p[a] as int]@ && out[b]@ == files[p[b] as int]@);
    }
}

/// Listing shows the indexed directories, in order of relative path.
pub proof fn law_listed_dirs_are_the_index_sorted(dirs: Seq<VaultDir>, out: Seq<VaultDir>)
    requires
        dirs_sorted(dirs, out),
    ensures
        forall|k: int| 0 <= k < out.len() ==> has_dir(dirs, #[trigger] out[k]@),
        forall|i: int| 0 <= i < dirs.len() ==> has_dir(out, #[trigger] dirs[i]@),
        forall|a: int, b: int| 0 <= a < b < out.len() ==> lex_le(#[trigger] out[a].rel_path@, #[trigger] out[b].rel_path@),
{
    let keys = dir_keys(dirs);
    let p = choose|p: Seq<usize>|
        #[trigger] is_stable_order(keys, p) && forall|k: int| 0 <= k < out.len() ==> out[k]@ == dirs[p[k] as int]@;
    assert forall|k: int| 0 <= k < out.len() implies has_dir(dirs, #[trigger] out[k]@) by {
        let w = p[k] as int;
        assert(0 <= w < dirs.len() && dirs[w]@ == out[k]@);
    }
    assert forall|i: int| 0 <= i < dirs.len() implies has_dir(out, #[trigger] dirs[i]@) by {
        lemma_stable_order_onto(keys, p, i);
        let k = choose|k: int| 0 <= k < p.len() && p[k] as int == i;
        assert(out[k]@ == dirs[i]@);
    }
    assert forall|a: int, b: int| 0 <= a < b < out.len() implies lex_le(#[trigger] out[a].rel_path@, #[trigger] out[b].rel_path@) by {
        assert(lex_le(keys[p[a] as int], keys[p[b] as int]));
        assert(out[a]@ == dirs[p[a] as int]@ && out[b]@ == dirs[p[b] as int]@);
    }
}

// ─── which paths are indexed ───

/// The path names an HTML file: its extension is `html` or `htm`, in any case.
pub open spec fn html_path(p: Seq<char>) -> bool {
    match extension(p) {
        Some(e) => lower_seq(e) == "html"@ || lower_seq(e) == "htm"@,
        None => false,
    }
}

/// Whether a path names an HTML file (by its extension).
pub fn is_html(path: &str) -> (r: bool)
    ensures
        r == html_path(path@),
{
    match extension_of(&chars_of(path)) {
        Some(e) => {
            let l = lower_chars(&e);
            same_chars(&l, &chars_of("html")) || same_chars(&l, &chars_of("htm"))
        },
        None => false,
    }
}

/// Whether a path, given as text, names an HTML file.
pub fn is_html_path(path_str: &str) -> (r: bool)
    ensures
        r == html_path(path_str@),
{
    is_html(path_str)
}

/// The path's name starts with `.` and is neither `.` nor `..`.
pub open spec fn hidden_path(p: Seq<char>) -> bool {
    match file_name(p) {
        Some(n) => n.len() > 0 && n[0] == '.' && n != seq!['.'] && n != seq!['.', '.'],
        None => false,
    }
}

/// Whether a path names a hidden file or directory.
pub fn is_hidden(path: &str) -> (r: bool)
    ensures
        r == hidden_path(path@),
{
    match file_name_of(&chars_of(path)) {
        Some(n) => {
            let dot = n.len() == 1 && n[0] == '.';
            let dot_dot = n.len() == 2 && n[0] == '.' && n[1] == '.';
            proof {
                if dot {
                    assert(n@ =~= seq!['.']);
                }
                if dot_dot {
                    assert(n@ =~= seq!['.', '.']);
                }
            }
            n.len() > 0 && n[0] == '.' && !dot && !dot_dot
        },
        None => false,
    }
}

/// The path's name is one of the directories and files that never hold documents.
pub open spec fn ignored_path(p: Seq<char>) -> bool {
    let n = match file_name(p) {
        Some(n) => n,
        None => Seq::empty(),
    };
    ||| n == "node_modules"@
    ||| n == ".git"@
    ||| n == ".svn"@
    ||| n == "__pycache__"@
    ||| n == "target"@
    ||| n == ".DS_Store"@
    ||| n == ".vscode"@
    ||| n == ".idea"@
    ||| n == "dist"@
    ||| n == "build"@
}

/// Whether a path is skipped when scanning (`node_modules`, `.git` and the like).
pub fn should_ignore(path: &str) -> (r: bool)
    ensures
        r == ignored_path(path@),
{
    let n = match file_name_of(&chars_of(path)) {
        Some(n) => n,
        None => Vec::new(),
    };
    same_chars(&n, &chars_of("node_modules")) || same_chars(&n, &chars_of(".git"))
        || same_chars(&n, &chars_of(".svn")) || same_chars(&n, &chars_of("__pycache__"))
        || same_chars(&n, &chars_of("target")) || same_chars(&n, &chars_of(".DS_Store"))
        || same_chars(&n, &chars_of(".vscode")) || same_chars(&n, &chars_of(".idea"))
        || same_chars(&n, &chars_of("dist")) || same_chars(&n, &chars_of("build"))
}

/// Which paths the scan skips by name: the ten directory and file names that never
/// hold documents, and no other name (a path whose name is none of them is kept).
pub proof fn law_ignored_names(p: Seq<char>)
    ensures
        file_name(p) == Some("node_modules"@) ==> ignored_path(p),
        file_name(p) == Some(".git"@) ==> ignored_path(p),
        file_name(p) == Some(".svn"@) ==> ignored_path(p),
        file_name(p) == Some("__pycache__"@) ==> ignored_path(p),
        file_name(p) == Some("target"@) ==> ignored_path(p),
        file_name(p) == Some(".DS_Store"@) ==> ignored_path(p),
        file_name(p) == Some(".vscode"@) ==> ignored_path(p),
        file_name(p) == Some(".idea"@) ==> ignored_path(p),
        file_name(p) == Some("dist"@) ==> ignored_path(p),
        file_name(p) == Some("build"@) ==> ignored_path(p),
        (file_name(p) matches Some(n) && n != "node_modules"@ && n != ".git"@ && n != ".svn"@ && n != "__pycache__"@ && n != "target"@ && n != ".DS_Store"@ && n != ".vscode"@ && n != ".idea"@ && n != "dist"@ && n != "build"@) ==> !ignored_path(p),
{
}

/// Hidden paths are those whose name starts with `.`, except `.` and `..`; documents
/// are the paths whose extension is `html` or `htm` in any case.
pub proof fn law_hidden_and_html_paths(p: Seq<char>)
    ensures
        (file_name(p) matches Some(n) && n.len() > 0 && n[0] == '.' && n != seq!['.'] && n != seq!['.', '.']) ==> hidden_path(p),
        (file_name(p) matches Some(n) && n.len() > 0 && n[0] != '.') ==> !hidden_path(p),
        file_name(p) is None ==> !hidden_path(p) && !html_path(p),
        (extension(p) matches Some(e) && (lower_seq(e) == "html"@ || lower_seq(e) == "htm"@)) ==> html_path(p),
        (extension(p) matches Some(e) && lower_seq(e) != "html"@ && lower_seq(e) != "htm"@) ==> !html_path(p),
        extension(p) is None ==> !html_path(p),
{
}

// ─── building the index ───

/// The most levels of directories the vault shows.
pub const MAX_LEVEL: u32 = 3;

/// The index entry of a directory from its path relative to the root: none for the
/// root itself and for directories more than `MAX_LEVEL` levels down.  The level counts
/// the pieces of the path (`\` counting as a separator), the name is the last
/// component, and the parent is the path's directory part (`None` at the root).
pub open spec fn dir_entry(rel: Seq<char>) -> Option<VaultDirView> {
    let rel_str = replace_char(rel, '\\', '/');
    let level = split(rel_str, '/').len();
    let parent = replace_char(clean_parent(rel), '\\', '/');
    if rel_str.len() == 0 || level > MAX_LEVEL {
        None
    } else {
        Some(
            VaultDirView {
                rel_path: rel_str,
                name: match file_name(rel) {
                    Some(n) => n,
                    None => "未命名"@,
                },
                parent_path: if parent.len() == 0 {
                    None
                } else {
                    Some(parent)
                },
                level: level as u32,
            },
        )
    }
}

/// An indexed directory is named by the last component of its relative path, dots
/// and all; its level counts the pieces of its path; a directory at the top has no
/// parent; and paths written with `/` are kept as they are.
pub proof fn law_dir_entries_named_by_last_component(rel: Seq<char>)
    ensures
        dir_entry(rel) matches Some(d) ==> (file_name(rel) matches Some(n) ==> d.name == n),
        dir_entry(rel) matches Some(d) ==> d.level == split(d.rel_path, '/').len(),
        dir_entry(rel) matches Some(d) ==> (!rel.contains('\\') ==> d.rel_path == rel),
        dir_entry(rel) matches Some(d) ==> (d.level == 1 && !rel.contains('\\') ==> d.parent_path is None),
        dir_entry(rel) is None <==> (rel.len() == 0 || split(replace_char(rel, '\\', '/'), '/').len() > MAX_LEVEL),
{
    if let Some(d) = dir_entry(rel) {
        if !rel.contains('\\') {
            assert(replace_char(rel, '\\', '/') =~= rel);
            if d.level == 1 {
                lemma_split_single_piece_has_no_sep(rel);
                lemma_last_index_of(rel, '/');
                if last_index_of(rel, '/') >= 0 {
                    assert(rel.contains('/'));
                }
                assert(clean_parent(rel).len() == 0);
                assert(replace_char(clean_parent(rel), '\\', '/') =~= clean_parent(rel));
            }
        }
    }
}

/// The index entries of the directories at `rels`, in that order.
pub open spec fn dir_entries(rels: Seq<Seq<char>>) -> Seq<VaultDirView>
    decreases rels.len(),
{
    if rels.len() == 0 {
        Seq::empty()
    } else {
        let prev = dir_entries(rels.drop_last());
        match dir_entry(rels.last()) {
            Some(d) => prev.push(d),
            None => prev,
        }
    }
}

pub open spec fn string_views(v: Seq<String>) -> Seq<Seq<char>> {
    v.map_values(|s: String| s@)
}

fn dir_entry_exec(rel: &str) -> (r: Option<VaultDir>)
    ensures
        match r {
            Some(d) => dir_entry(rel@) == Some(d@),
            None => dir_entry(rel@) is None,
        },
{
    let relc = chars_of(rel);
    let rel_str = replace_char_exec(&relc, '\\', '/');
    let pieces = split_exec(&rel_str, '/');
    let parent = replace_char_exec(&clean_parent_of(&relc), '\\', '/');
    if rel_str.len() == 0 || pieces.len() > 3 {
        return None;
    }
    let name = match file_name_of(&relc) {
        Some(n) => string_of(&n),
        None => "未命名".to_string(),
    };
    let parent_path = if parent.len() == 0 {
        None
    } else {
        Some(string_of(&parent))
    };
    Some(VaultDir { rel_path: string_of(&rel_str), name, parent_path, level: pieces.len() as u32 })
}

/// The directory index of a scan, from the paths of the directories found relative to
/// the root (the root itself included as `""`).
pub fn build_dir_index(rel_dirs: &Vec<String>) -> (r: Vec<VaultDir>)
    ensures
        r@.map_values(|d: VaultDir| d@) == dir_entries(string_views(rel_dirs@)),
{
    let mut out: Vec<VaultDir> = Vec::new();
    let n = rel_dirs.len();
    for i in 0..n
        invariant
            n == rel_dirs@.len(),
            out@.map_values(|d: VaultDir| d@) == dir_entries(string_views(rel_dirs@).take(i as int)),
    {
        let ghost before = out@.map_values(|d: VaultDir| d@);
        proof {
            assert(string_views(rel_dirs@).take(i + 1).drop_last() =~= string_views(rel_dirs@).take(i as int));
            assert(string_views(rel_dirs@).take(i + 1).last() == rel_dirs@[i as int]@);
        }
        match dir_entry_exec(rel_dirs[i].as_str()) {
            Some(d) => {
                let ghost dv = d@;
                out.push(d);
                assert(out@.map_values(|d: VaultDir| d@) =~= before.push(dv));
            },
            None => {},
        }
    }
    assert(string_views(rel_dirs@).take(n as int) =~= string_views(rel_dirs@));
    out
}

proof fn lemma_dir_entries_levels(rels: Seq<Seq<char>>)
    ensures
        forall|k: int| 0 <= k < dir_entries(rels).len() ==> {
            &&& 1 <= (#[trigger] dir_entries(rels)[k]).level <= MAX_LEVEL
            &&& dir_entries(rels)[k].rel_path.len() > 0
        },
    decreases rels.len(),
{
    if rels.len() > 0 {
        lemma_dir_entries_levels(rels.drop_last());
        let rel = rels.last();
        let rel_str = replace_char(rel, '\\', '/');
        lemma_split_nonempty(rel_str, '/');
    }
}

impl VaultState {
    /// The index as a scan builds it: its directories are the index entries that
    /// `build_dir_index` gives for some list of relative paths.
    pub open spec fn wf(&self) -> bool {
        exists|rels: Seq<Seq<char>>| #[trigger] dir_entries(rels) == self.dirs@.map_values(|d: VaultDir| d@)
    }

    /// The index of a scan of `root`: the files found and the directories at
    /// `rel_dirs` (relative to the root, the root itself as `""`).
    pub fn from_scan(root: String, files: Vec<VaultFile>, rel_dirs: &Vec<String>) -> (r: VaultState)
        ensures
            r.wf(),
            r.root == root,
            r.files == files,
            r.dirs@.map_values(|d: VaultDir| d@) == dir_entries(string_views(rel_dirs@)),
    {
        let dirs = build_dir_index(rel_dirs);
        VaultState { files, dirs, root }
    }
}

/// In an index as a scan builds it, every directory lies 1 to `MAX_LEVEL` levels
/// below the root (the root itself is not listed).
pub proof fn law_indexed_dirs_within_levels(st: VaultState)
    requires
        st.wf(),
    ensures
        forall|k: int| 0 <= k < st.dirs@.len() ==> {
            &&& 1 <= (#[trigger] st.dirs@[k]).level <= MAX_LEVEL
            &&& st.dirs@[k].rel_path@.len() > 0
        },
{
    let rels = choose|rels: Seq<Seq<char>>| #[trigger] dir_entries(rels) == st.dirs@.map_values(|d: VaultDir| d@);
    lemma_dir_entries_levels(rels);
    assert forall|k: int| 0 <= k < st.dirs@.len() implies {
        &&& 1 <= (#[trigger] st.dirs@[k]).level <= MAX_LEVEL
        &&& st.dirs@[k].rel_path@.len() > 0
    } by {
        assert(st.dirs@.map_values(|d: VaultDir| d@)[k] == st.dirs@[k]@);
    }
}

/// The index entry of an HTML file, from its path relative to the root, its path on
/// disk, a fresh id, what parsing it gave, its size and modification time.  The title
/// falls back to the file stem; the directory is the relative path's directory part.
pub open spec fn file_entry(rel: Seq<char>, abs: Seq<char>, id: Seq<char>, title: Option<Seq<char>>, summary: Seq<char>, size: u64, modified: i64) -> VaultFileView {
    VaultFileView {
        id: id,
        title: match title {
            Some(t) => t,
            None => match file_name(abs) {
                Some(n) => name_stem(n),
                None => Seq::empty(),
            },
        },
        file_name: match file_name(abs) {
            Some(n) => n,
            None => "unknown.html"@,
        },
        rel_path: replace_char(rel, '\\', '/'),
        abs_path: abs,
        file_size: size,
        summary: summary,
        last_modified: modified,
        dir_path: clean_parent(rel),
    }
}

/// The index entry of a scanned HTML file.
pub fn make_vault_file(rel: &str, abs_path: &str, id: String, parsed: ParsedHtml, file_size: u64, last_modified: i64) -> (r: VaultFile)
    ensures
        r@ == file_entry(rel@, abs_path@, id@, opt_view(parsed.title), parsed.summary@, file_size, last_modified),
{
    let relc = chars_of(rel);
    let absc = chars_of(abs_path);
    let fname = file_name_of(&absc);
    let title = match parsed.title {
        Some(t) => t,
        None => match &fname {
            Some(n) => string_of(&name_stem_of(n)),
            None => String::new(),
        },
    };
    let file_name = match &fname {
        Some(n) => string_of(n),
        None => "unknown.html".to_string(),
    };
    VaultFile {
        id,
        title,
        file_name,
        rel_path: string_of(&replace_char_exec(&relc, '\\', '/')),
        abs_path: abs_path.to_string(),
        file_size,
        summary: parsed.summary,
        last_modified,
        dir_path: string_of(&clean_parent_of(&relc)),
    }
}

// ─── changing the vault ───

/// Where a new directory `name` goes: below `parent_rel` when that is given and not
/// empty, else at the root.
pub open spec fn new_dir_path(root: Seq<char>, parent_rel: Option<Seq<char>>, name: Seq<char>) -> Seq<char> {
    match parent_rel {
        Some(p) if p.len() > 0 => join_path(join_path(root, p), name),
        _ => join_path(root, name),
    }
}

/// The path of a directory to create.
pub fn create_dir_path(root: &str, parent_rel: Option<&str>, name: &str) -> (r: String)
    ensures
        r@ == new_dir_path(
            root@,
            match parent_rel {
                Some(p) => Some(p@),
                None => None,
            },
            name@,
        ),
{
    let rootc = chars_of(root);
    let namec = chars_of(name);
    match parent_rel {
        Some(p) => {
            let pc = chars_of(p);
            if pc.len() > 0 {
                let d = join_path_exec(&rootc, &pc);
                return string_of(&join_path_exec(&d, &namec));
            }
        },
        None => {},
    }
    string_of(&join_path_exec(&rootc, &namec))
}


/// The name an item gets when renamed to `new_name`: a file whose new name has no
/// (or an empty) extension keeps the extension of `src`, its current path.
pub open spec fn renamed_name(src: Seq<char>, new_name: Seq<char>, is_dir: bool) -> Seq<char> {
    let src_ext = or_empty(extension(src));
    let new_ext = or_empty(extension(new_name));
    if !is_dir && new_ext.len() == 0 && src_ext.len() > 0 {
        new_name + seq!['.'] + src_ext
    } else {
        new_name
    }
}

/// The final name of a renamed item whose current path is `src_path`.
pub fn rename_final_name(src_path: &str, new_name: &str, is_dir: bool) -> (r: String)
    ensures
        r@ == renamed_name(src_path@, new_name@, is_dir),
{
    let newc = chars_of(new_name);
    if is_dir {
        return string_of(&newc);
    }
    let src_ext = match extension_of(&chars_of(src_path)) {
        Some(e) => e,
        None => Vec::new(),
    };
    let new_ext = match extension_of(&newc) {
        Some(e) => e,
        None => Vec::new(),
    };
    if new_ext.len() == 0 && src_ext.len() > 0 {
        let mut out = slice_of(&newc, 0, newc.len());
        out.push('.');
        push_all(&mut out, &src_ext);
        string_of(&out)
    } else {
        string_of(&newc)
    }
}

/// An item of the vault at `rel` renamed to `new_name`: its final name, and its new
/// path beside the old one (in the old path's parent, or at the root).
pub open spec fn rename_move(root: Seq<char>, rel: Seq<char>, new_name: Seq<char>, is_dir: bool) -> (Seq<char>, Seq<char>) {
    let src = join_path(root, rel);
    let dir = match parent(src) {
        Some(d) => d,
        None => root,
    };
    let name = renamed_name(src, new_name, is_dir);
    (name, join_path(dir, name))
}

/// The final name and the new path of an item renamed to `new_name`.
pub fn rename_target(root: &str, rel_path: &str, new_name: &str, is_dir: bool) -> (r: (String, String))
    ensures
        (r.0@, r.1@) == rename_move(root@, rel_path@, new_name@, is_dir),
{
    let rootc = chars_of(root);
    let src = join_path_exec(&rootc, &chars_of(rel_path));
    let dir = match parent_of(&src) {
        Some(d) => d,
        None => rootc,
    };
    let name = rename_final_name(string_of(&src).as_str(), new_name, is_dir);
    let dst = join_path_exec(&dir, &chars_of(name.as_str()));
    (name, string_of(&dst))
}

/// A file renamed to a name without an extension keeps its own, so an HTML file stays
/// an HTML file (and stays in the index).
pub proof fn law_renamed_html_files_stay_html(src: Seq<char>, new_name: Seq<char>)
    requires
        html_path(src),
        new_name.len() > 0,
        !new_name.contains('/'),
        or_empty(extension(new_name)).len() == 0,
    ensures
        html_path(renamed_name(src, new_name, false)),
{
    let e = extension(src)->Some_0;
    reveal_strlit("html");
    reveal_strlit("htm");
    assert(lower_seq(e) == "html"@ || lower_seq(e) == "htm"@);
    assert(lower_seq(e).len() == e.len());
    assert(e.len() >= 3);
    assert forall|k: int| 0 <= k < e.len() implies e[k] != '.' && e[k] != '/' by {
        assert(lower_seq(e)[k] == lower(e[k]));
        assert(lower_seq(e)[k] == 'h' || lower_seq(e)[k] == 't' || lower_seq(e)[k] == 'm' || lower_seq(e)[k] == 'l');
    }
    let f = new_name + seq!['.'] + e;
    assert(renamed_name(src, new_name, false) == f);
    assert(!f.contains('/')) by {
        if f.contains('/') {
            let k = choose|k: int| 0 <= k < f.len() && f[k] == '/';
            if k < new_name.len() {
                assert(new_name[k] == '/');
            } else if k > new_name.len() {
                assert(e[k - new_name.len() - 1] == '/');
            }
        }
    }
    assert(!e.contains('.')) by {
        if e.contains('.') {
            let k = choose|k: int| 0 <= k < e.len() && e[k] == '.';
        }
    }
    lemma_split_single(f, '/');
    let segs = split(f, '/');
    assert(segs[0] == f);
    assert(f != dot() && f != dot_dot()) by {
        assert(f.len() >= 5);
    }
    assert(name_end(segs, 1) == 1);
    assert(file_name(f) == Some(f));
    lemma_last_index_of_join(new_name, e, '.');
    assert(f.subrange(new_name.len() + 1 as int, f.len() as int) =~= e);
}

/// Renaming: a directory takes the new name as given; a file whose new name has an
/// extension of its own, or whose current path has none, takes it as given; a file
/// whose new name has no extension keeps its current one after a `.`.
pub proof fn law_rename_names(src: Seq<char>, new_name: Seq<char>)
    ensures
        renamed_name(src, new_name, true) == new_name,
        (extension(new_name) matches Some(e) && e.len() > 0) ==> renamed_name(src, new_name, false) == new_name,
        (extension(src) is None) ==> renamed_name(src, new_name, false) == new_name,
        (extension(src) matches Some(x) && x.len() > 0 && (extension(new_name) is None || extension(new_name) == Some(Seq::<char>::empty())))
            ==> renamed_name(src, new_name, false) == new_name + seq!['.'] + extension(src)->0,
{
}

/// Where things go: a new directory below its parent (the root when the parent is
/// missing or `""`); a moved file, under its own name, into the target directory (the
/// root for `""`); a file whose path has no name cannot be moved.
pub proof fn law_destinations(root: Seq<char>, parent: Option<Seq<char>>, name: Seq<char>, rel: Seq<char>, target_rel: Seq<char>)
    ensures
        (parent matches Some(p) && p.len() > 0) ==> new_dir_path(root, parent, name) == join_path(join_path(root, parent->0), name),
        (parent is None || parent == Some(Seq::<char>::empty())) ==> new_dir_path(root, parent, name) == join_path(root, name),
        file_name(join_path(root, rel)) is None ==> file_move(root, rel, target_rel) is Err,
        (file_name(join_path(root, rel)) is Some && target_rel.len() == 0) ==> file_move(root, rel, target_rel) == Ok::<
            (Seq<char>, Seq<char>),
            Seq<char>,
        >((file_name(join_path(root, rel))->0, join_path(root, file_name(join_path(root, rel))->0))),
        (file_name(join_path(root, rel)) is Some && target_rel.len() > 0) ==> file_move(root, rel, target_rel) == Ok::<
            (Seq<char>, Seq<char>),
            Seq<char>,
        >((file_name(join_path(root, rel))->0, join_path(join_path(root, target_rel), file_name(join_path(root, rel))->0))),
{
}

/// Whether a name holds the path separator, and so would reach outside its directory.
pub fn contains_separator(name: &str) -> (r: bool)
    ensures
        r == name@.contains('/'),
{
    contains_char(&chars_of(name), '/')
}

/// A file moved from `rel` into `target_rel` (`""` for the root): its name and where it
/// goes.
pub open spec fn file_move(root: Seq<char>, rel: Seq<char>, target_rel: Seq<char>) -> Result<(Seq<char>, Seq<char>), Seq<char>> {
    match file_name(join_path(root, rel)) {
        None => Err("无效的文件路径"@),
        Some(name) => Ok(
            (
                name,
                if target_rel.len() == 0 {
                    join_path(root, name)
                } else {
                    join_path(join_path(root, target_rel), name)
                },
            ),
        ),
    }
}

/// The name and destination of a file moved into another directory of the vault.
pub fn file_move_target(root: &str, rel_path: &str, target_dir_rel: &str) -> (r: Result<(String, String), String>)
    ensures
        match r {
            Ok((n, d)) => file_move(root@, rel_path@, target_dir_rel@) == Ok::<(Seq<char>, Seq<char>), Seq<char>>((n@, d@)),
            Err(e) => file_move(root@, rel_path@, target_dir_rel@) == Err::<(Seq<char>, Seq<char>), Seq<char>>(e@),
        },
{
    let rootc = chars_of(root);
    let src = join_path_exec(&rootc, &chars_of(rel_path));
    let name = match file_name_of(&src) {
        Some(n) => n,
        None => {
            return Err("无效的文件路径".to_string());
        },
    };
    let target = chars_of(target_dir_rel);
    let dst = if target.len() == 0 {
        join_path_exec(&rootc, &name)
    } else {
        join_path_exec(&join_path_exec(&rootc, &target), &name)
    };
    Ok((string_of(&name), string_of(&dst)))
}

/// A directory moved from `rel` into `target_rel` (`""` for the root): its name and
/// where it goes.  Moving a directory into itself or into one of its descendants is
/// refused.
pub open spec fn dir_move(root: Seq<char>, rel: Seq<char>, target_rel: Seq<char>) -> Result<(Seq<char>, Seq<char>), Seq<char>> {
    let src = join_path(root, rel);
    match file_name(src) {
        None => Err("无效的文件夹路径"@),
        Some(name) => if target_rel.len() == 0 {
            Ok((name, join_path(root, name)))
        } else {
            let target = join_path(root, target_rel);
            if path_starts_with(target, src) {
                Err("不能将文件夹移到它自己的子文件夹下"@)
            } else {
                Ok((name, join_path(target, name)))
            }
        },
    }
}

/// The name and destination of a directory moved into another directory of the vault.
pub fn dir_move_target(root: &str, dir_rel: &str, target_parent_rel: &str) -> (r: Result<(String, String), String>)
    ensures
        match r {
            Ok((n, d)) => dir_move(root@, dir_rel@, target_parent_rel@) == Ok::<(Seq<char>, Seq<char>), Seq<char>>((n@, d@)),
            Err(e) => dir_move(root@, dir_rel@, target_parent_rel@) == Err::<(Seq<char>, Seq<char>), Seq<char>>(e@),
        },
{
    let rootc = chars_of(root);
    let src = join_path_exec(&rootc, &chars_of(dir_rel));
    let name = match file_name_of(&src) {
        Some(n) => n,
        None => {
            return Err("无效的文件夹路径".to_string());
        },
    };
    let target_rel = chars_of(target_parent_rel);
    if target_rel.len() == 0 {
        return Ok((string_of(&name), string_of(&join_path_exec(&rootc, &name))));
    }
    let target = join_path_exec(&rootc, &target_rel);
    if path_starts_with_exec(&target, &src) {
        return Err("不能将文件夹移到它自己的子文件夹下".to_string());
    }
    Ok((string_of(&name), string_of(&join_path_exec(&target, &name))))
}

/// The index of the first directory with relative path `rel`, from `i` on.
pub open spec fn find_dir_from(dirs: Seq<VaultDir>, i: int, rel: Seq<char>) -> Option<int>
    decreases dirs.len() - i,
{
    if 0 <= i < dirs.len() {
        if dirs[i].rel_path@ == rel {
            Some(i)
        } else {
            find_dir_from(dirs, i + 1, rel)
        }
    } else {
        None
    }
}

pub open spec fn find_dir(dirs: Seq<VaultDir>, rel: Seq<char>) -> Option<int> {
    find_dir_from(dirs, 0, rel)
}

proof fn lemma_find_dir(dirs: Seq<VaultDir>, i: int, rel: Seq<char>)
    requires
        0 <= i,
    ensures
        find_dir_from(dirs, i, rel) matches Some(j) ==> i <= j < dirs.len() && dirs[j].rel_path@ == rel,
    decreases dirs.len() - i,
{
    if i < dirs.len() && dirs[i].rel_path@ != rel {
        lemma_find_dir(dirs, i + 1, rel);
    }
}

fn find_dir_exec(dirs: &Vec<VaultDir>, rel: &Vec<char>) -> (r: Option<usize>)
    ensures
        r matches Some(i) ==> find_dir(dirs@, rel@) == Some(i as int) && i < dirs@.len(),
        r is None ==> find_dir(dirs@, rel@) is None,
{
    proof {
        lemma_find_dir(dirs@, 0, rel@);
    }
    let n = dirs.len();
    let mut i: usize = 0;
    while i < n
        invariant
            n == dirs@.len(),
            i <= n,
            find_dir(dirs@, rel@) == find_dir_from(dirs@, i as int, rel@),
        decreases n - i,
    {
        if same_chars(&chars_of(dirs[i].rel_path.as_str()), rel) {
            return Some(i);
        }
        i = i + 1;
    }
    None
}

/// `d` is the directory `rel` or lies below it (its path starts with `rel/`).
pub open spec fn in_subtree(d: Seq<char>, rel: Seq<char>) -> bool {
    d == rel || has_prefix(d, rel + seq!['/'])
}

/// The first directory from `i` on in the subtree of `rel` whose level, moved by
/// `shift`, would exceed `MAX_LEVEL`.
pub open spec fn too_deep_from(dirs: Seq<VaultDir>, i: int, rel: Seq<char>, shift: int) -> Option<int>
    decreases dirs.len() - i,
{
    if 0 <= i < dirs.len() {
        if in_subtree(dirs[i].rel_path@, rel) && dirs[i].level + shift > MAX_LEVEL {
            Some(i)
        } else {
            too_deep_from(dirs, i + 1, rel, shift)
        }
    } else {
        None
    }
}

pub open spec fn max_level_msg() -> Seq<char> {
    "已达最大层级（3 级），无法放入子文件夹"@
}

pub open spec fn too_deep_msg(name: Seq<char>) -> Seq<char> {
    "移动后「"@ + name + "」的层级将超过 3 级上限"@
}

/// The level check of moving directory `rel` into `target_rel` (`""` for the root),
/// against the index `dirs`: the new level of the directory, or why the move is refused.
/// The directory and the target must be in the index, the target must lie above
/// `MAX_LEVEL`, and no directory of the moved subtree may end up below it.
pub open spec fn dir_move_levels(dirs: Seq<VaultDir>, rel: Seq<char>, target_rel: Seq<char>) -> Result<u32, Seq<char>> {
    match find_dir(dirs, rel) {
        None => Err("文件夹不存在于索引中"@),
        Some(m) => {
            let new_level: Result<u32, Seq<char>> = if target_rel.len() == 0 {
                Ok(1u32)
            } else {
                match find_dir(dirs, target_rel) {
                    None => Err("目标文件夹不存在"@),
                    Some(t) => if dirs[t].level >= MAX_LEVEL {
                        Err(max_level_msg())
                    } else {
                        Ok((dirs[t].level + 1) as u32)
                    },
                }
            };
            match new_level {
                Err(e) => Err(e),
                Ok(nl) => match too_deep_from(dirs, 0, rel, nl - dirs[m].level) {
                    Some(d) => Err(too_deep_msg(dirs[d].name@)),
                    None => Ok(nl),
                },
            }
        },
    }
}

proof fn lemma_none_too_deep(dirs: Seq<VaultDir>, i: int, rel: Seq<char>, shift: int)
    requires
        0 <= i,
        too_deep_from(dirs, i, rel, shift) is None,
    ensures
        forall|j: int| i <= j < dirs.len() && in_subtree(#[trigger] dirs[j].rel_path@, rel) ==> dirs[j].level + shift <= MAX_LEVEL,
    decreases dirs.len() - i,
{
    if i < dirs.len() {
        lemma_none_too_deep(dirs, i + 1, rel, shift);
    }
}

/// An accepted move keeps the vault within `MAX_LEVEL` levels: the directory lands at
/// a level from 1 to `MAX_LEVEL`, and every directory of its subtree, moved by the same
/// number of levels, ends up no deeper than `MAX_LEVEL`.
pub proof fn law_accepted_moves_keep_levels(dirs: Seq<VaultDir>, rel: Seq<char>, target_rel: Seq<char>)
    requires
        dir_move_levels(dirs, rel, target_rel) is Ok,
    ensures
        ({
            let nl = dir_move_levels(dirs, rel, target_rel)->Ok_0;
            &&& 1 <= nl <= MAX_LEVEL
            &&& find_dir(dirs, rel) matches Some(m) && forall|j: int|
                0 <= j < dirs.len() && in_subtree(#[trigger] dirs[j].rel_path@, rel) ==> dirs[j].level + (nl - dirs[m].level) <= MAX_LEVEL
        }),
{
    let m = find_dir(dirs, rel)->Some_0;
    lemma_find_dir(dirs, 0, rel);
    lemma_find_dir(dirs, 0, target_rel);
    let nl = dir_move_levels(dirs, rel, target_rel)->Ok_0;
    lemma_none_too_deep(dirs, 0, rel, nl - dirs[m].level);
}

proof fn lemma_fits_not_too_deep(dirs: Seq<VaultDir>, i: int, rel: Seq<char>, shift: int)
    requires
        0 <= i,
        forall|j: int| 0 <= j < dirs.len() && in_subtree(#[trigger] dirs[j].rel_path@, rel) ==> dirs[j].level + shift <= MAX_LEVEL,
    ensures
        too_deep_from(dirs, i, rel, shift) is None,
    decreases dirs.len() - i,
{
    if i < dirs.len() {
        lemma_fits_not_too_deep(dirs, i + 1, rel, shift);
    }
}

/// The level check accepts every move that fits: when the directory (at index `m`)
/// and the target (at index `t`, unless the target is the root `""`) are in the index,
/// the target lies above `MAX_LEVEL`, and every directory of the moved subtree, moved
/// down by the target's level + 1 less the directory's own level, stays within
/// `MAX_LEVEL`, the move is accepted and the directory lands at the target's level + 1
/// (level 1 at the root).
pub proof fn law_level_check_accepts_fitting_moves(dirs: Seq<VaultDir>, rel: Seq<char>, target_rel: Seq<char>, m: int, t: int)
    requires
        find_dir(dirs, rel) == Some(m),
        target_rel.len() > 0 ==> find_dir(dirs, target_rel) == Some(t) && dirs[t].level < MAX_LEVEL,
        forall|j: int|
            0 <= j < dirs.len() && in_subtree(#[trigger] dirs[j].rel_path@, rel) ==> dirs[j].level + ((if target_rel.len() == 0 {
                1
            } else {
                dirs[t].level + 1
            }) - dirs[m].level) <= MAX_LEVEL,
    ensures
        dir_move_levels(dirs, rel, target_rel) == Ok::<u32, Seq<char>>(
            (if target_rel.len() == 0 {
                1
            } else {
                dirs[t].level + 1
            }) as u32,
        ),
{
    let nl: int = if target_rel.len() == 0 { 1 } else { dirs[t].level + 1 };
    lemma_fits_not_too_deep(dirs, 0, rel, nl - dirs[m].level);
}

/// The level check refuses: a directory not in the index; a target not in the index;
/// a target already `MAX_LEVEL` deep; and a move after which some directory of the
/// moved subtree would lie deeper than `MAX_LEVEL` (named in the message).
pub proof fn law_level_check_refusals(dirs: Seq<VaultDir>, rel: Seq<char>, target_rel: Seq<char>, m: int, t: int, j: int)
    ensures
        find_dir(dirs, rel) is None ==> dir_move_levels(dirs, rel, target_rel) == Err::<u32, Seq<char>>("文件夹不存在于索引中"@),
        (find_dir(dirs, rel) is Some && target_rel.len() > 0 && find_dir(dirs, target_rel) is None)
            ==> dir_move_levels(dirs, rel, target_rel) == Err::<u32, Seq<char>>("目标文件夹不存在"@),
        (find_dir(dirs, rel) is Some && target_rel.len() > 0 && find_dir(dirs, target_rel) == Some(t) && dirs[t].level >= MAX_LEVEL)
            ==> dir_move_levels(dirs, rel, target_rel) == Err::<u32, Seq<char>>("已达最大层级（3 级），无法放入子文件夹"@),
        ({
            &&& find_dir(dirs, rel) == Some(m)
            &&& target_rel.len() > 0 ==> find_dir(dirs, target_rel) == Some(t) && dirs[t].level < MAX_LEVEL
            &&& 0 <= j < dirs.len()
            &&& in_subtree(dirs[j].rel_path@, rel)
            &&& dirs[j].level + ((if target_rel.len() == 0 { 1 } else { dirs[t].level + 1 }) - dirs[m].level) > MAX_LEVEL
        }) ==> dir_move_levels(dirs, rel, target_rel) is Err,
{
    if find_dir(dirs, rel) == Some(m) && (target_rel.len() > 0 ==> find_dir(dirs, target_rel) == Some(t) && dirs[t].level < MAX_LEVEL)
        && 0 <= j < dirs.len() && in_subtree(dirs[j].rel_path@, rel) {
        let nl: int = if target_rel.len() == 0 { 1 } else { dirs[t].level + 1 };
        if dir_move_levels(dirs, rel, target_rel) is Ok {
            lemma_none_too_deep(dirs, 0, rel, nl - dirs[m].level);
        }
    }
}

/// A directory is never moved into itself or below itself: an accepted move into a
/// directory of the vault has a target that does not lie inside the moved directory,
/// and the moved directory keeps its name.
pub proof fn law_dirs_not_moved_into_themselves(root: Seq<char>, rel: Seq<char>, target_rel: Seq<char>)
    ensures
        (dir_move(root, rel, target_rel) is Ok && target_rel.len() > 0)
            ==> !path_starts_with(join_path(root, target_rel), join_path(root, rel)),
        dir_move(root, rel, target_rel) matches Ok((name, _)) ==> file_name(join_path(root, rel)) == Some(name),
        (target_rel.len() > 0 && path_starts_with(join_path(root, target_rel), join_path(root, rel)))
            ==> dir_move(root, rel, target_rel) is Err,
{
}

/// Checks that moving the directory `dir_rel` into `target_parent_rel` keeps every
/// directory within `MAX_LEVEL` levels; gives the directory's new level.
pub fn check_dir_move_levels(dirs: &Vec<VaultDir>, dir_rel: &str, target_parent_rel: &str) -> (r: Result<u32, String>)
    ensures
        match r {
            Ok(l) => dir_move_levels(dirs@, dir_rel@, target_parent_rel@) == Ok::<u32, Seq<char>>(l),
            Err(e) => dir_move_levels(dirs@, dir_rel@, target_parent_rel@) == Err::<u32, Seq<char>>(e@),
        },
{
    let rel = chars_of(dir_rel);
    let m = match find_dir_exec(dirs, &rel) {
        None => {
            return Err("文件夹不存在于索引中".to_string());
        },
        Some(m) => m,
    };
    let target = chars_of(target_parent_rel);
    let new_level: u32 = if target.len() == 0 {
        1
    } else {
        match find_dir_exec(dirs, &target) {
            None => {
                return Err("目标文件夹不存在".to_string());
            },
            Some(t) => {
                if dirs[t].level >= MAX_LEVEL {
                    return Err("已达最大层级（3 级），无法放入子文件夹".to_string());
                }
                dirs[t].level + 1
            },
        }
    };
    assert(m < dirs@.len());
    let shift: i64 = new_level as i64 - dirs[m].level as i64;
    let mut prefix = slice_of(&rel, 0, rel.len());
    prefix.push('/');
    assert(prefix@ =~= rel@ + seq!['/']);
    let n = dirs.len();
    let mut i: usize = 0;
    assert(dir_move_levels(dirs@, dir_rel@, target_parent_rel@) == match too_deep_from(dirs@, 0, rel@, shift as int) {
        Some(d) => Err(too_deep_msg(dirs@[d].name@)),
        None => Ok::<u32, Seq<char>>(new_level),
    });
    while i < n
        invariant
            n == dirs@.len(),
            i <= n,
            m < n,
            rel@ == dir_rel@,
            dir_move_levels(dirs@, dir_rel@, target_parent_rel@) == match too_deep_from(dirs@, 0, rel@, shift as int) {
                Some(d) => Err(too_deep_msg(dirs@[d].name@)),
                None => Ok::<u32, Seq<char>>(new_level),
            },
            prefix@ == rel@ + seq!['/'],
            shift == new_level - dirs@[m as int].level,
            too_deep_from(dirs@, 0, rel@, shift as int) == too_deep_from(dirs@, i as int, rel@, shift as int),
        decreases n - i,
    {
        let d = &dirs[i];
        let dp = chars_of(d.rel_path.as_str());
        if (same_chars(&dp, &rel) || has_prefix_exec(&dp, &prefix)) && d.level as i64 + shift > MAX_LEVEL as i64 {
            let mut msg = chars_of("移动后「");
            push_all(&mut msg, &chars_of(d.name.as_str()));
            push_all(&mut msg, &chars_of("」的层级将超过 3 级上限"));
            proof {
                assert(in_subtree(dirs@[i as int].rel_path@, rel@));
                assert(too_deep_from(dirs@, i as int, rel@, shift as int) == Some(i as int));
                assert(msg@ =~= too_deep_msg(d.name@));
            }
            return Err(string_of(&msg));
        }
        proof {
            assert(!(in_subtree(dirs@[i as int].rel_path@, rel@) && dirs@[i as int].level + shift > MAX_LEVEL));
        }
        i = i + 1;
    }
    Ok(new_level)
}

// ─── names given by the user ───

pub open spec fn bad_name_char(c: char) -> bool {
    c == '/' || c == '\\' || c == '\0' || is_control_char(c)
}

/// A name for a new directory: trimmed; refused when empty or when it holds `/`, `\`
/// or a control character.
pub open spec fn dir_name_check(name: Seq<char>) -> Result<Seq<char>, Seq<char>> {
    let t = trim(name);
    if t.len() == 0 {
        Err("名称不能为空"@)
    } else if exists|i: int| 0 <= i < t.len() && bad_name_char(#[trigger] t[i]) {
        Err("名称包含非法字符"@)
    } else {
        Ok(t)
    }
}

/// The name check of a new directory: the name is trimmed; an empty result is refused
/// as empty; one holding `/`, `\\`, NUL or a control character (`char::is_control`) is
/// refused as holding an illegal character; any other is accepted as it is, spaces and
/// all other characters inside included.
pub proof fn law_dir_names_accepted_unless_illegal(name: Seq<char>)
    ensures
        trim(name).len() == 0 ==> dir_name_check(name) == Err::<Seq<char>, Seq<char>>("名称不能为空"@),
        (trim(name).len() > 0 && forall|i: int|
            0 <= i < trim(name).len() ==> {
                let c = #[trigger] trim(name)[i];
                c != '/' && c != '\\' && c != '\0' && !is_control_char(c)
            }) ==> dir_name_check(name) == Ok::<Seq<char>, Seq<char>>(trim(name)),
        (trim(name).len() > 0 && exists|i: int|
            0 <= i < trim(name).len() && {
                let c = #[trigger] trim(name)[i];
                c == '/' || c == '\\' || c == '\0' || is_control_char(c)
            }) ==> dir_name_check(name) == Err::<Seq<char>, Seq<char>>("名称包含非法字符"@),
{
}

/// The name check of a renamed item: the name is trimmed; an empty result is refused,
/// any other accepted as it is.
pub proof fn law_item_names_accepted_unless_empty(name: Seq<char>)
    ensures
        trim(name).len() == 0 <==> item_name_check(name) is Err,
        trim(name).len() > 0 ==> item_name_check(name) == Ok::<Seq<char>, Seq<char>>(trim(name)),
{
}

/// Checks the name of a directory to create; gives it trimmed.
pub fn checked_dir_name(name: &str) -> (r: Result<String, String>)
    ensures
        match r {
            Ok(n) => dir_name_check(name@) == Ok::<Seq<char>, Seq<char>>(n@),
            Err(e) => dir_name_check(name@) == Err::<Seq<char>, Seq<char>>(e@),
        },
{
    let t = trim_chars(&chars_of(name));
    if t.len() == 0 {
        return Err("名称不能为空".to_string());
    }
    let n = t.len();
    for i in 0..n
        invariant
            n == t@.len(),
            t@ == trim(name@),
            forall|k: int| 0 <= k < i ==> !bad_name_char(#[trigger] t@[k]),
    {
        let c = t[i];
        if c == '/' || c == '\\' || c == '\0' || is_control(c) {
            assert(bad_name_char(t@[i as int]));
            return Err("名称包含非法字符".to_string());
        }
    }
    Ok(string_of(&t))
}

/// A new name for a file or directory: trimmed; refused when empty.
pub open spec fn item_name_check(name: Seq<char>) -> Result<Seq<char>, Seq<char>> {
    let t = trim(name);
    if t.len() == 0 {
        Err("名称不能为空"@)
    } else {
        Ok(t)
    }
}

/// Checks a new name for a file or directory; gives it trimmed.
pub fn checked_item_name(name: &str) -> (r: Result<String, String>)
    ensures
        match r {
            Ok(n) => item_name_check(name@) == Ok::<Seq<char>, Seq<char>>(n@),
            Err(e) => item_name_check(name@) == Err::<Seq<char>, Seq<char>>(e@),
        },
{
    let t = trim_chars(&chars_of(name));
    if t.len() == 0 {
        return Err("名称不能为空".to_string());
    }
    Ok(string_of(&t))
}

} // verus!
