//! What a walk of the vault directory puts in the index: the directories and the HTML
//! files found, relative to the vault's root.
use vstd::prelude::*;
use crate::text::{chars_of, string_of, push_all};
use crate::paths::{components, components_of, path_starts_with, path_starts_with_exec, replace_char, replace_char_exec, join_with};
use crate::sort::{is_stable_order, stable_order, views_of, lemma_stable_order_onto};
use crate::vault::{hidden_path, ignored_path, html_path, is_hidden, should_ignore, is_html};
use crate::watcher::{add_unique, add_unique_exec, views, law_add_unique_keeps_paths_distinct};

verus! {

/// One entry of a walk of the vault directory (the root itself first, links not
/// followed): its path and whether it is a directory.
pub struct WalkEntry {
    pub path: String,
    pub is_dir: bool,
}

/// An HTML file found by a walk: its path relative to the root and its path on disk.
pub struct FoundFile {
    pub rel: String,
    pub abs: String,
}

/// What a walk puts in the index: the directories relative to the root (the root
/// itself as `""`), each once and ordered by components, and the HTML files in the
/// order walked.
pub struct ScanPlan {
    pub rel_dirs: Vec<String>,
    pub files: Vec<FoundFile>,
}

/// `p` relative to `root`: the components of `p` after those of `root`, joined with
/// `/`; `None` when `p` does not lie below `root`.  For the paths a walk gives (the
/// root joined with names) this is `Path::strip_prefix`.
pub open spec fn rel_to(root: Seq<char>, p: Seq<char>) -> Option<Seq<char>> {
    if path_starts_with(p, root) {
        Some(join_with(components(p).skip(components(root).len() as int), '/'))
    } else {
        None
    }
}

/// Names that are neither hidden nor among the ignored names.
pub open spec fn kept(p: Seq<char>) -> bool {
    !hidden_path(p) && !ignored_path(p)
}

/// Some component of `p` below `root` is hidden or ignored: `p` is such an entry or
/// lies inside one, and the scan does not go there.
pub open spec fn hidden_below(root: Seq<char>, p: Seq<char>) -> bool {
    exists|i: int| components(root).len() <= i < components(p).len() && !kept(#[trigger] components(p)[i])
}

/// `p` relative to `root`, when it lies below `root` and no component below `root` is
/// hidden or ignored.
pub open spec fn kept_rel(root: Seq<char>, p: Seq<char>) -> Option<Seq<char>> {
    if hidden_below(root, p) {
        None
    } else {
        rel_to(root, p)
    }
}

/// The directories met by the walk `es`, relative to `root`, in the order walked,
/// leaving out hidden and ignored directories and everything inside them.
pub open spec fn found_dirs(root: Seq<char>, es: Seq<WalkEntry>) -> Seq<Seq<char>>
    decreases es.len(),
{
    if es.len() == 0 {
        Seq::empty()
    } else {
        let prev = found_dirs(root, es.drop_last());
        let e = es.last();
        if e.is_dir {
            match kept_rel(root, e.path@) {
                Some(r) => prev.push(r),
                None => prev,
            }
        } else {
            prev
        }
    }
}

/// The HTML files met by the walk `es`: each relative to `root` and as walked, leaving
/// out hidden files and everything inside hidden or ignored directories.
pub open spec fn found_files(root: Seq<char>, es: Seq<WalkEntry>) -> Seq<(Seq<char>, Seq<char>)>
    decreases es.len(),
{
    if es.len() == 0 {
        Seq::empty()
    } else {
        let prev = found_files(root, es.drop_last());
        let e = es.last();
        if !e.is_dir && html_path(e.path@) {
            match kept_rel(root, e.path@) {
                Some(r) => prev.push((r, e.path@)),
                None => prev,
            }
        } else {
            prev
        }
    }
}

/// An entry the scan indexes as an HTML file: not a directory, named `.html` or
/// `.htm`, below the root, with no hidden or ignored component below the root.
pub open spec fn indexed_file(root: Seq<char>, e: WalkEntry) -> bool {
    !e.is_dir && html_path(e.path@) && path_starts_with(e.path@, root) && !hidden_below(root, e.path@)
}

/// An entry the scan indexes as a directory.
pub open spec fn indexed_dir(root: Seq<char>, e: WalkEntry) -> bool {
    e.is_dir && path_starts_with(e.path@, root) && !hidden_below(root, e.path@)
}

/// The scan finds every HTML file the walk met below the root, at any depth, outside
/// hidden and ignored directories, with its path relative to the root, and nothing
/// else: each file found comes from such an entry of the walk.
pub proof fn law_scan_finds_exactly_the_documents(root: Seq<char>, es: Seq<WalkEntry>)
    ensures
        forall|i: int|
            0 <= i < es.len() && indexed_file(root, #[trigger] es[i]) ==> found_files(root, es).contains(
                (join_with(components(es[i].path@).skip(components(root).len() as int), '/'), es[i].path@),
            ),
        forall|k: int|
            #![trigger found_files(root, es)[k]]
            0 <= k < found_files(root, es).len() ==> exists|i: int|
                0 <= i < es.len() && indexed_file(root, #[trigger] es[i]) && found_files(root, es)[k] == (
                    join_with(components(es[i].path@).skip(components(root).len() as int), '/'),
                    es[i].path@,
                ),
    decreases es.len(),
{
    if es.len() > 0 {
        let d = es.drop_last();
        law_scan_finds_exactly_the_documents(root, d);
        let prev = found_files(root, d);
        let cur = found_files(root, es);
        let n = es.len() - 1;
        assert forall|i: int|
            0 <= i < es.len() && indexed_file(root, #[trigger] es[i]) implies cur.contains(
                (join_with(components(es[i].path@).skip(components(root).len() as int), '/'), es[i].path@),
            ) by {
            if i < n {
                assert(d[i] == es[i]);
                let x = (join_with(components(es[i].path@).skip(components(root).len() as int), '/'), es[i].path@);
                assert(prev.contains(x));
                if cur != prev {
                    let k = choose|k: int| 0 <= k < prev.len() && prev[k] == x;
                    assert(cur == prev.push(cur.last()));
                    assert(cur[k] == x);
                }
            } else {
                assert(cur[cur.len() - 1] == (join_with(components(es[i].path@).skip(components(root).len() as int), '/'), es[i].path@));
            }
        }
        assert forall|k: int| #![trigger cur[k]] 0 <= k < cur.len() implies exists|i: int|
            0 <= i < es.len() && indexed_file(root, #[trigger] es[i]) && cur[k] == (
                join_with(components(es[i].path@).skip(components(root).len() as int), '/'),
                es[i].path@,
            ) by {
            if k < prev.len() {
                let i = choose|i: int|
                    0 <= i < d.len() && indexed_file(root, #[trigger] d[i]) && prev[k] == (
                        join_with(components(d[i].path@).skip(components(root).len() as int), '/'),
                        d[i].path@,
                    );
                assert(d[i] == es[i]);
                if cur != prev {
                    assert(cur == prev.push(cur.last()));
                }
                assert(cur[k] == prev[k]);
            } else {
                assert(es[n] == es.last());
            }
        }
    }
}

/// The walk entry `e` is an indexed directory whose path relative to `root` is `x`.
pub open spec fn dir_found_at(root: Seq<char>, e: WalkEntry, x: Seq<char>) -> bool {
    indexed_dir(root, e) && join_with(components(e.path@).skip(components(root).len() as int), '/') == x
}

/// Nothing else is found: each directory the scan finds comes from an entry of the
/// walk that is a directory below the root, outside hidden and ignored directories,
/// and is that entry's path relative to the root.
pub proof fn law_found_dirs_come_from_the_walk(root: Seq<char>, es: Seq<WalkEntry>, k: int)
    requires
        0 <= k < found_dirs(root, es).len(),
    ensures
        exists|i: int| 0 <= i < es.len() && #[trigger] dir_found_at(root, es[i], found_dirs(root, es)[k]),
    decreases es.len(),
{
    let d = es.drop_last();
    let prev = found_dirs(root, d);
    let cur = found_dirs(root, es);
    let n = es.len() - 1;
    if k < prev.len() {
        law_found_dirs_come_from_the_walk(root, d, k);
        let i = choose|i: int| 0 <= i < d.len() && #[trigger] dir_found_at(root, d[i], prev[k]);
        assert(d[i] == es[i]);
        if cur != prev {
            assert(cur == prev.push(cur.last()));
        }
        assert(cur[k] == prev[k]);
        assert(dir_found_at(root, es[i], cur[k]));
    } else {
        assert(es[n] == es.last());
        assert(dir_found_at(root, es[n], cur[k]));
    }
}

/// The scan finds every directory the walk met below the root outside hidden and
/// ignored directories, with its path relative to the root.
pub proof fn law_scan_finds_exactly_the_directories(root: Seq<char>, es: Seq<WalkEntry>)
    ensures
        forall|i: int|
            0 <= i < es.len() && indexed_dir(root, #[trigger] es[i]) ==> found_dirs(root, es).contains(
                join_with(components(es[i].path@).skip(components(root).len() as int), '/'),
            ),
    decreases es.len(),
{
    if es.len() > 0 {
        let d = es.drop_last();
        law_scan_finds_exactly_the_directories(root, d);
        let prev = found_dirs(root, d);
        let cur = found_dirs(root, es);
        let n = es.len() - 1;
        assert forall|i: int|
            0 <= i < es.len() && indexed_dir(root, #[trigger] es[i]) implies cur.contains(
                join_with(components(es[i].path@).skip(components(root).len() as int), '/'),
            ) by {
            if i < n {
                assert(d[i] == es[i]);
                let x = join_with(components(es[i].path@).skip(components(root).len() as int), '/');
                assert(prev.contains(x));
                if cur != prev {
                    let k = choose|k: int| 0 <= k < prev.len() && prev[k] == x;
                    assert(cur == prev.push(cur.last()));
                    assert(cur[k] == x);
                }
            } else {
                assert(cur[cur.len() - 1] == join_with(components(es[i].path@).skip(components(root).len() as int), '/'));
            }
        }
    }
}

/// The directories of the index before ordering: the root, then each directory met,
/// each once.
pub open spec fn scan_dirs(root: Seq<char>, es: Seq<WalkEntry>) -> Seq<Seq<char>> {
    add_unique(seq![Seq::empty()], found_dirs(root, es))
}

/// The key by which directories are ordered.  `PathBuf` compares paths component by
/// component; for these relative paths that is the order of their text with the
/// separator counting below every other character.
pub open spec fn component_key(p: Seq<char>) -> Seq<char> {
    replace_char(p, '/', '\0')
}

pub open spec fn component_keys(ds: Seq<Seq<char>>) -> Seq<Seq<char>> {
    Seq::new(ds.len(), |i: int| component_key(ds[i]))
}

/// `out` is `ds` ordered by components (ties in their own order).
pub open spec fn ordered_by_components(ds: Seq<Seq<char>>, out: Seq<Seq<char>>) -> bool {
    &&& out.len() == ds.len()
    &&& exists|p: Seq<usize>|
        #[trigger] is_stable_order(component_keys(ds), p) && forall|k: int|
            0 <= k < out.len() ==> out[k] == ds[p[k] as int]
}

/// The index lists each directory once: the root and every directory the walk met,
/// and nothing else.
pub proof fn law_scan_lists_each_directory_once(root: Seq<char>, es: Seq<WalkEntry>, out: Seq<Seq<char>>)
    requires
        ordered_by_components(scan_dirs(root, es), out),
    ensures
        out.no_duplicates(),
        forall|d: Seq<char>| #[trigger] out.contains(d) <==> (d == Seq::<char>::empty() || found_dirs(root, es).contains(d)),
{
    let ds = scan_dirs(root, es);
    assert(seq![Seq::<char>::empty()].no_duplicates());
    law_add_unique_keeps_paths_distinct(seq![Seq::<char>::empty()], found_dirs(root, es));
    let p = choose|p: Seq<usize>|
        #[trigger] is_stable_order(component_keys(ds), p) && forall|k: int| 0 <= k < out.len() ==> out[k] == ds[p[k] as int];
    assert forall|a: int, b: int| 0 <= a < b < out.len() implies out[a] != out[b] by {
        assert(p[a] != p[b]);
        assert(p[a] < ds.len() && p[b] < ds.len());
    }
    assert forall|d: Seq<char>| #[trigger] out.contains(d) <==> ds.contains(d) by {
        if out.contains(d) {
            let k = choose|k: int| 0 <= k < out.len() && out[k] == d;
            assert(p[k] < ds.len());
            assert(ds[p[k] as int] == d);
        }
        if ds.contains(d) {
            let j = choose|j: int| 0 <= j < ds.len() && ds[j] == d;
            lemma_stable_order_onto(component_keys(ds), p, j);
            let k = choose|k: int| 0 <= k < p.len() && p[k] as int == j;
            assert(out[k] == d);
        }
    }
    assert forall|d: Seq<char>| #[trigger] seq![Seq::<char>::empty()].contains(d) <==> d == Seq::<char>::empty() by {
        if d == Seq::<char>::empty() {
            assert(seq![Seq::<char>::empty()][0] == d);
        }
    }
}

fn join_from(cs: &Vec<Vec<char>>, from: usize) -> (r: Vec<char>)
    requires
        from <= cs@.len(),
    ensures
        r@ == join_with(views_of(cs@).skip(from as int), '/'),
{
    let ghost s = views_of(cs@).skip(from as int);
    let n = cs.len();
    let mut out: Vec<char> = Vec::new();
    let mut i: usize = from;
    proof {
        assert(s.take(0) =~= Seq::<Seq<char>>::empty());
    }
    while i < n
        invariant
            from <= i <= n == cs@.len(),
            s == views_of(cs@).skip(from as int),
            out@ == join_with(s.take(i - from), '/'),
        decreases n - i,
    {
        proof {
            assert(s.take(i - from + 1).drop_last() =~= s.take(i - from));
            assert(s.take(i - from + 1).last() == cs@[i as int]@);
        }
        if i > from {
            out.push('/');
        } else {
            assert(s.take(1) =~= seq![cs@[i as int]@]);
        }
        push_all(&mut out, &cs[i]);
        i = i + 1;
    }
    proof {
        assert(s.take(n - from) =~= s);
    }
    out
}

/// `p` relative to `root`, component by component.
pub fn rel_to_exec(root: &Vec<char>, p: &Vec<char>) -> (r: Option<Vec<char>>)
    ensures
        match r {
            Some(x) => rel_to(root@, p@) == Some(x@),
            None => rel_to(root@, p@) is None,
        },
{
    if !path_starts_with_exec(p, root) {
        return None;
    }
    let pc = components_of(p);
    let rc = components_of(root);
    proof {
        assert(views_of(pc@) =~= components(p@));
    }
    Some(join_from(&pc, rc.len()))
}

/// `p` relative to `root`, unless it does not lie below `root` or a component below
/// `root` is hidden or ignored.
pub fn kept_rel_exec(root: &Vec<char>, p: &Vec<char>) -> (r: Option<Vec<char>>)
    ensures
        match r {
            Some(x) => kept_rel(root@, p@) == Some(x@),
            None => kept_rel(root@, p@) is None,
        },
{
    let pc = components_of(p);
    let rc = components_of(root);
    let n = pc.len();
    let mut i = rc.len();
    while i < n
        invariant
            n == pc@.len() == components(p@).len(),
            rc@.len() == components(root@).len(),
            rc@.len() <= i,
            forall|k: int| 0 <= k < n ==> #[trigger] pc@[k]@ == components(p@)[k],
            forall|k: int| rc@.len() <= k < i ==> kept(#[trigger] components(p@)[k]),
        decreases n - i,
    {
        let name = string_of(&pc[i]);
        if is_hidden(name.as_str()) || should_ignore(name.as_str()) {
            assert(name@ == components(p@)[i as int]);
            assert(!kept(components(p@)[i as int]));
            assert(hidden_below(root@, p@));
            return None;
        }
        i = i + 1;
    }
    assert(!hidden_below(root@, p@));
    rel_to_exec(root, p)
}

/// The directories and HTML files a walk of the vault puts in the index.  `entries`
/// are the walk's entries, `root` first; hidden and ignored entries, and whatever lies
/// inside hidden or ignored directories, are left out.
pub fn plan_scan(root: &str, entries: &Vec<WalkEntry>) -> (r: ScanPlan)
    ensures
        ordered_by_components(scan_dirs(root@, entries@), views(r.rel_dirs@)),
        r.files@.map_values(|f: FoundFile| (f.rel@, f.abs@)) == found_files(root@, entries@),
{
    let rootc = chars_of(root);
    let n = entries.len();
    let mut dirs: Vec<String> = Vec::new();
    let mut files: Vec<FoundFile> = Vec::new();
    for i in 0..n
        invariant
            n == entries@.len(),
            rootc@ == root@,
            views(dirs@) == found_dirs(root@, entries@.take(i as int)),
            files@.map_values(|f: FoundFile| (f.rel@, f.abs@)) == found_files(root@, entries@.take(i as int)),
    {
        let ghost before_d = views(dirs@);
        let ghost before_f = files@.map_values(|f: FoundFile| (f.rel@, f.abs@));
        proof {
            assert(entries@.take(i + 1).drop_last() =~= entries@.take(i as int));
            assert(entries@.take(i + 1).last() == entries@[i as int]);
        }
        let e = &entries[i];
        let path = e.path.as_str();
        {
            if e.is_dir {
                match kept_rel_exec(&rootc, &chars_of(path)) {
                    Some(r) => {
                        let rs = string_of(&r);
                        dirs.push(rs);
                        assert(views(dirs@) =~= before_d.push(r@));
                    },
                    None => {},
                }
            } else if is_html(path) {
                match kept_rel_exec(&rootc, &chars_of(path)) {
                    Some(r) => {
                        let f = FoundFile { rel: string_of(&r), abs: path.to_string() };
                        let ghost fv = (f.rel@, f.abs@);
                        files.push(f);
                        assert(files@.map_values(|f: FoundFile| (f.rel@, f.abs@)) =~= before_f.push(fv));
                    },
                    None => {},
                }
            }
        }
    }
    proof {
        assert(entries@.take(n as int) =~= entries@);
    }
    let mut distinct: Vec<String> = Vec::new();
    distinct.push(String::new());
    assert(views(distinct@) =~= seq![Seq::<char>::empty()]);
    add_unique_exec(&mut distinct, &dirs);
    let ghost ds = views(distinct@);
    let m = distinct.len();
    let mut keys: Vec<Vec<char>> = Vec::new();
    for i in 0..m
        invariant
            m == distinct@.len() == ds.len(),
            ds == views(distinct@),
            keys@.len() == i,
            forall|k: int| 0 <= k < i ==> #[trigger] keys@[k]@ == component_key(ds[k]),
    {
        keys.push(replace_char_exec(&chars_of(distinct[i].as_str()), '/', '\0'));
    }
    assert(views_of(keys@) =~= component_keys(ds));
    let order = stable_order(&keys);
    let mut out: Vec<String> = Vec::new();
    for k in 0..m
        invariant
            m == distinct@.len() == ds.len() == order@.len(),
            ds == views(distinct@),
            is_stable_order(component_keys(ds), order@),
            out@.len() == k,
            forall|j: int| 0 <= j < k ==> #[trigger] out@[j]@ == ds[order@[j] as int],
    {
        out.push(distinct[order[k]].clone());
    }
    proof {
        assert forall|j: int| 0 <= j < views(out@).len() implies views(out@)[j] == ds[order@[j] as int] by {
            assert(views(out@)[j] == out@[j]@);
        }
    }
    ScanPlan { rel_dirs: out, files }
}

} // verus!
