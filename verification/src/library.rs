//! Where documents lie inside the library directory.
use vstd::prelude::*;
use crate::db::{Document, Folder};
use crate::text::{opt_view, chars_of, string_of, same_chars, push_all, slice_of};
use crate::sort::views_of;
use crate::paths::{join_path, join_path_exec, components, components_of, join_with};

verus! {

// ─── folder chains ───

/// The index of the first folder with id `fid`, from `i` on.
pub open spec fn find_folder_from(folders: Seq<Folder>, i: int, fid: Seq<char>) -> Option<int>
    decreases folders.len() - i,
{
    if 0 <= i < folders.len() {
        if folders[i].id@ == fid {
            Some(i)
        } else {
            find_folder_from(folders, i + 1, fid)
        }
    } else {
        None
    }
}

/// The index of the first folder with id `fid`.
pub open spec fn find_folder(folders: Seq<Folder>, fid: Seq<char>) -> Option<int> {
    find_folder_from(folders, 0, fid)
}

proof fn lemma_find_folder(folders: Seq<Folder>, i: int, fid: Seq<char>)
    requires
        0 <= i,
    ensures
        find_folder_from(folders, i, fid) matches Some(j) ==> i <= j < folders.len() && folders[j].id@ == fid,
    decreases folders.len() - i,
{
    if i < folders.len() && folders[i].id@ != fid {
        lemma_find_folder(folders, i + 1, fid);
    }
}

/// The ids met going up from the folder `fid` through parent links, nearest first,
/// taking at most `fuel` steps up; `None` when the walk is longer.  The walk stops at a
/// folder without parent, and before an id no folder has.
pub open spec fn folder_walk(folders: Seq<Folder>, fid: Seq<char>, fuel: nat) -> Option<Seq<Seq<char>>>
    decreases fuel,
{
    match find_folder(folders, fid) {
        None => Some(Seq::empty()),
        Some(i) => match opt_view(folders[i].parent_id) {
            None => Some(seq![folders[i].id@]),
            Some(p) => if fuel == 0 {
                None
            } else {
                match folder_walk(folders, p, (fuel - 1) as nat) {
                    Some(rest) => Some(seq![folders[i].id@] + rest),
                    None => None,
                }
            },
        },
    }
}

/// Going up from `fid` ends (the parent links met form no cycle).
pub open spec fn walk_ends(folders: Seq<Folder>, fid: Seq<char>) -> bool {
    exists|n: nat| (#[trigger] folder_walk(folders, fid, n)) is Some
}

/// A number of steps within which going up from `fid` ends, when there is one.
pub open spec fn walk_fuel(folders: Seq<Folder>, fid: Seq<char>) -> nat {
    choose|n: nat| (#[trigger] folder_walk(folders, fid, n)) is Some
}

/// The ids met going up from `fid`, nearest first.
pub open spec fn folder_chain(folders: Seq<Folder>, fid: Seq<char>) -> Seq<Seq<char>> {
    folder_walk(folders, fid, walk_fuel(folders, fid))->0
}

/// The directory, relative to the library root, that mirrors the folder `fid`: the
/// ids from the top folder down, joined with `/`; `""` for no folder.
pub open spec fn chain_path(folders: Seq<Folder>, fid: Option<Seq<char>>) -> Seq<char> {
    match fid {
        None => Seq::empty(),
        Some(f) => join_with(folder_chain(folders, f).reverse(), '/'),
    }
}

fn find_folder_exec(folders: &[Folder], fid: &Vec<char>) -> (r: Option<usize>)
    ensures
        r matches Some(i) ==> find_folder(folders@, fid@) == Some(i as int) && i < folders@.len(),
        r is None ==> find_folder(folders@, fid@) is None,
{
    proof {
        lemma_find_folder(folders@, 0, fid@);
    }
    let n = folders.len();
    let mut i: usize = 0;
    while i < n
        invariant
            n == folders@.len(),
            i <= n,
            find_folder(folders@, fid@) == find_folder_from(folders@, i as int, fid@),
        decreases n - i,
    {
        if same_chars(&chars_of(folders[i].id.as_str()), fid) {
            return Some(i);
        }
        i = i + 1;
    }
    None
}



fn join_reversed(ids: &Vec<Vec<char>>, sep: char) -> (r: Vec<char>)
    ensures
        r@ == join_with(views_of(ids@).reverse(), sep),
{
    let n = ids.len();
    let ghost rev = views_of(ids@).reverse();
    let mut out: Vec<char> = Vec::new();
    let mut i: usize = 0;
    proof {
        assert(rev.take(0) =~= Seq::<Seq<char>>::empty());
    }
    while i < n
        invariant
            n == ids@.len() == rev.len(),
            rev == views_of(ids@).reverse(),
            i <= n,
            out@ == join_with(rev.take(i as int), sep),
        decreases n - i,
    {
        let piece = &ids[n - 1 - i];
        proof {
            assert(rev.take(i + 1).drop_last() =~= rev.take(i as int));
            assert(rev.take(i + 1).last() == rev[i as int]);
            assert(rev[i as int] == piece@);
        }
        if i > 0 {
            out.push(sep);
        } else {
            assert(rev.take(1) =~= seq![rev[0]]);
        }
        push_all(&mut out, piece);
        i = i + 1;
    }
    proof {
        assert(rev.take(n as int) =~= rev);
    }
    out
}

/// The library directory path of a folder's documents (relative, no leading or
/// trailing `/`): the folder ids from the top folder down, joined with `/`.  `None`
/// (the top) gives `""`, and so does an id no folder has.
pub fn build_folder_chain_path(folder_id: Option<&str>, folders: &[Folder]) -> (r: String)
    requires
        folder_id matches Some(f) ==> walk_ends(folders@, f@),
    ensures
        r@ == chain_path(
            folders@,
            match folder_id {
                Some(f) => Some(f@),
                None => None,
            },
        ),
{
    let fid = match folder_id {
        None => {
            return String::new();
        },
        Some(f) => f,
    };
    let ghost chain = folder_chain(folders@, fid@);
    let mut ids: Vec<Vec<char>> = Vec::new();
    let mut current = chars_of(fid);
    let ghost mut fuel: nat = walk_fuel(folders@, fid@);
    proof {
        assert(views_of(ids@) + chain =~= chain);
    }
    loop
        invariant_except_break
            folder_walk(folders@, current@, fuel) is Some,
            chain == views_of(ids@) + folder_walk(folders@, current@, fuel)->0,
        ensures
            chain == views_of(ids@),
        decreases fuel,
    {
        let ghost before = views_of(ids@);
        match find_folder_exec(folders, &current) {
            None => {
                assert(before + Seq::<Seq<char>>::empty() =~= before);
                break;
            },
            Some(i) => {
                let f = &folders[i];
                let id = chars_of(f.id.as_str());
                match &f.parent_id {
                    None => {
                        ids.push(id);
                        assert(views_of(ids@) =~= before + seq![f.id@]);
                        break;
                    },
                    Some(p) => {
                        ids.push(id);
                        proof {
                            let rest = folder_walk(folders@, p@, (fuel - 1) as nat)->0;
                            assert(views_of(ids@) =~= before + seq![f.id@]);
                            assert(before + (seq![f.id@] + rest) =~= views_of(ids@) + rest);
                            fuel = (fuel - 1) as nat;
                        }
                        current = chars_of(p.as_str());
                    },
                }
            },
        }
    }
    string_of(&join_reversed(&ids, '/'))
}

/// The library path a document should have: its folder's directory, then its file
/// name (just the file name at the top).
pub open spec fn document_rel_path(doc: Document, folders: Seq<Folder>) -> Seq<char> {
    let chain = chain_path(folders, opt_view(doc.folder_id));
    if chain.len() == 0 {
        doc.file_name@
    } else {
        chain + seq!['/'] + doc.file_name@
    }
}

/// The mirrored path of a document inside the library: `<folder chain>/<file name>`,
/// or the file name alone at the top.
pub fn build_document_rel_path(doc: &Document, folders: &[Folder]) -> (r: String)
    requires
        doc.folder_id matches Some(f) ==> walk_ends(folders@, f@),
    ensures
        r@ == document_rel_path(*doc, folders@),
{
    let fid = match &doc.folder_id {
        Some(s) => Some(s.as_str()),
        None => None,
    };
    let chain = chars_of(build_folder_chain_path(fid, folders).as_str());
    let name = chars_of(doc.file_name.as_str());
    if chain.len() == 0 {
        string_of(&name)
    } else {
        let mut out = slice_of(&chain, 0, chain.len());
        out.push('/');
        push_all(&mut out, &name);
        string_of(&out)
    }
}

/// Two folder lists describe the same tree: the same ids with the same parents, in the
/// same order; names, creation times and levels may differ.
pub open spec fn same_tree(a: Seq<Folder>, b: Seq<Folder>) -> bool {
    &&& a.len() == b.len()
    &&& forall|i: int|
        0 <= i < a.len() ==> (#[trigger] a[i]).id@ == b[i].id@ && opt_view(a[i].parent_id) == opt_view(b[i].parent_id)
}

proof fn lemma_same_tree_find(a: Seq<Folder>, b: Seq<Folder>, i: int, fid: Seq<char>)
    requires
        same_tree(a, b),
        0 <= i,
    ensures
        find_folder_from(a, i, fid) == find_folder_from(b, i, fid),
    decreases a.len() - i,
{
    if i < a.len() {
        assert(a[i].id@ == b[i].id@);
        lemma_same_tree_find(a, b, i + 1, fid);
    }
}

proof fn lemma_same_tree_walk(a: Seq<Folder>, b: Seq<Folder>, fid: Seq<char>, fuel: nat)
    requires
        same_tree(a, b),
    ensures
        folder_walk(a, fid, fuel) == folder_walk(b, fid, fuel),
    decreases fuel,
{
    lemma_same_tree_find(a, b, 0, fid);
    lemma_find_folder(a, 0, fid);
    match find_folder(a, fid) {
        None => {},
        Some(i) => {
            assert(a[i].id@ == b[i].id@ && opt_view(a[i].parent_id) == opt_view(b[i].parent_id));
            match opt_view(a[i].parent_id) {
                None => {},
                Some(p) => {
                    if fuel > 0 {
                        lemma_same_tree_walk(a, b, p, (fuel - 1) as nat);
                    }
                },
            }
        },
    }
}

proof fn lemma_walk_fuel_free(folders: Seq<Folder>, fid: Seq<char>, n: nat, m: nat)
    requires
        folder_walk(folders, fid, n) is Some,
        folder_walk(folders, fid, m) is Some,
    ensures
        folder_walk(folders, fid, n) == folder_walk(folders, fid, m),
    decreases n,
{
    match find_folder(folders, fid) {
        None => {},
        Some(i) => match opt_view(folders[i].parent_id) {
            None => {},
            Some(p) => {
                lemma_walk_fuel_free(folders, p, (n - 1) as nat, (m - 1) as nat);
            },
        },
    }
}

proof fn lemma_same_tree_chain(a: Seq<Folder>, b: Seq<Folder>, f: Seq<char>)
    requires
        same_tree(a, b),
        walk_ends(a, f),
    ensures
        folder_chain(a, f) == folder_chain(b, f),
{
    let na = walk_fuel(a, f);
    lemma_same_tree_walk(a, b, f, na);
    assert(walk_ends(b, f));
    let nb = walk_fuel(b, f);
    lemma_same_tree_walk(a, b, f, nb);
    lemma_walk_fuel_free(a, f, na, nb);
}

/// Directories on disk are named by folder ids, so renaming folders moves nothing:
/// two folder lists that differ only in names (and other fields than ids and parents)
/// give a folder the same chain path, and a document the same library path.
pub proof fn law_renaming_folders_moves_nothing(a: Seq<Folder>, b: Seq<Folder>, fid: Option<Seq<char>>, doc: Document)
    requires
        same_tree(a, b),
        fid matches Some(f) ==> walk_ends(a, f),
        opt_view(doc.folder_id) matches Some(f) ==> walk_ends(a, f),
    ensures
        chain_path(a, fid) == chain_path(b, fid),
        document_rel_path(doc, a) == document_rel_path(doc, b),
{
    if let Some(f) = fid {
        lemma_same_tree_chain(a, b, f);
    }
    if let Some(f) = opt_view(doc.folder_id) {
        lemma_same_tree_chain(a, b, f);
    }
}

/// Folders as the database keeps them: every level is at least 1, and a parent that is
/// listed has a smaller level than its child.
pub open spec fn levels_descend(folders: Seq<Folder>) -> bool {
    forall|i: int|
        0 <= i < folders.len() ==> {
            &&& (#[trigger] folders[i]).level >= 1
            &&& (opt_view(folders[i].parent_id) matches Some(p) ==> (find_folder(folders, p) matches Some(j) ==> folders[j].level < folders[i].level))
        }
}

proof fn lemma_walk_within_level(folders: Seq<Folder>, fid: Seq<char>, n: nat)
    requires
        levels_descend(folders),
        find_folder(folders, fid) matches Some(i) ==> folders[i].level <= n,
    ensures
        folder_walk(folders, fid, n) is Some,
    decreases n,
{
    lemma_find_folder(folders, 0, fid);
    match find_folder(folders, fid) {
        None => {},
        Some(i) => {
            match opt_view(folders[i].parent_id) {
                None => {},
                Some(p) => {
                    assert(folders[i].level >= 1);
                    lemma_find_folder(folders, 0, p);
                    lemma_walk_within_level(folders, p, (n - 1) as nat);
                },
            }
        },
    }
}

/// In a folder tree as the database keeps it, going up from any folder ends, so the
/// chain path of every folder id is defined.
pub proof fn law_chain_ends_in_a_tree(folders: Seq<Folder>, fid: Seq<char>)
    requires
        levels_descend(folders),
    ensures
        walk_ends(folders, fid),
{
    lemma_find_folder(folders, 0, fid);
    let n: nat = match find_folder(folders, fid) {
        Some(i) => folders[i].level as nat,
        None => 0,
    };
    lemma_walk_within_level(folders, fid, n);
}

// ─── paths in the library directory ───

/// The database file inside the library directory.
pub fn db_path(library_dir: &str) -> (r: String)
    ensures
        r@ == join_path(library_dir@, "library.db"@),
{
    string_of(&join_path_exec(&chars_of(library_dir), &chars_of("library.db")))
}

/// The absolute path of a document's copy: the library directory joined with its
/// library path.
pub fn resolve_library_path(library_dir: &str, library_path: &str) -> (r: String)
    ensures
        r@ == join_path(library_dir@, library_path@),
{
    string_of(&join_path_exec(&chars_of(library_dir), &chars_of(library_path)))
}

// ─── migrations of the library layout ───

/// Two paths name the same place: they have the same components (`PathBuf` equality).
pub open spec fn same_path(a: Seq<char>, b: Seq<char>) -> bool {
    components(a) == components(b)
}

pub fn same_path_exec(a: &Vec<char>, b: &Vec<char>) -> (r: bool)
    ensures
        r == same_path(a@, b@),
{
    let ca = components_of(a);
    let cb = components_of(b);
    if ca.len() != cb.len() {
        return false;
    }
    let n = ca.len();
    for i in 0..n
        invariant
            n == ca@.len() == cb@.len(),
            ca@.len() == components(a@).len(),
            cb@.len() == components(b@).len(),
            forall|k: int| 0 <= k < ca@.len() ==> #[trigger] ca@[k]@ == components(a@)[k],
            forall|k: int| 0 <= k < cb@.len() ==> #[trigger] cb@[k]@ == components(b@)[k],
            forall|k: int| 0 <= k < i ==> components(a@)[k] == components(b@)[k],
    {
        if !same_chars(&ca[i], &cb[i]) {
            return false;
        }
    }
    assert(components(a@) =~= components(b@));
    true
}

/// A file of the library to move: from `src` to `dst` (both inside the library
/// directory), and whether the two name the same place.
#[derive(Debug)]
pub struct MigrationMove {
    pub src: String,
    pub dst: String,
    pub same_place: bool,
}

/// Where the copy of a document lies (`current`) and should lie (`target`) inside the
/// library directory: nothing to do when the two library paths are equal.
pub fn migration_paths(library_dir: &str, current: &str, target: &str) -> (r: Option<MigrationMove>)
    ensures
        r is None <==> current@ == target@,
        r matches Some(m) ==> {
            &&& m.src@ == join_path(library_dir@, current@)
            &&& m.dst@ == join_path(library_dir@, target@)
            &&& m.same_place == same_path(m.src@, m.dst@)
        },
{
    let cur = chars_of(current);
    let tgt = chars_of(target);
    if same_chars(&cur, &tgt) {
        return None;
    }
    let dir = chars_of(library_dir);
    let src = join_path_exec(&dir, &cur);
    let dst = join_path_exec(&dir, &tgt);
    let same_place = same_path_exec(&src, &dst);
    Some(MigrationMove { src: string_of(&src), dst: string_of(&dst), same_place })
}

/// The documents a migration has to handle: the indices, in list order, of those
/// whose library path is not their target.
pub open spec fn pending(docs: Seq<Document>, targets: Seq<Seq<char>>) -> Seq<int>
    decreases docs.len(),
{
    if docs.len() == 0 {
        Seq::empty()
    } else {
        let p = pending(docs.drop_last(), targets);
        let i = docs.len() - 1;
        if docs[i].library_path@ != targets[i] {
            p.push(i)
        } else {
            p
        }
    }
}

/// The targets of renaming copies to their source file names.
pub open spec fn file_name_targets(docs: Seq<Document>) -> Seq<Seq<char>> {
    Seq::new(docs.len(), |i: int| docs[i].file_name@)
}

/// The targets of moving copies into the folder layout.
pub open spec fn layout_targets(docs: Seq<Document>, folders: Seq<Folder>) -> Seq<Seq<char>> {
    Seq::new(docs.len(), |i: int| document_rel_path(docs[i], folders))
}

/// One document of a migration: its index in the list, its target library path, and
/// the move from where its copy lies to the target.
#[derive(Debug)]
pub struct PlannedMigration {
    pub index: usize,
    pub target: String,
    pub moved: MigrationMove,
}

/// `plan` lists the pending documents, in order, each with its target and its move
/// inside the library directory `dir`.
pub open spec fn planned(dir: Seq<char>, docs: Seq<Document>, targets: Seq<Seq<char>>, plan: Seq<PlannedMigration>) -> bool {
    let pend = pending(docs, targets);
    &&& plan.len() == pend.len()
    &&& forall|k: int|
        0 <= k < plan.len() ==> {
            let i = pend[k];
            &&& (#[trigger] plan[k]).index == i
            &&& plan[k].target@ == targets[i]
            &&& plan[k].moved.src@ == join_path(dir, docs[i].library_path@)
            &&& plan[k].moved.dst@ == join_path(dir, targets[i])
            &&& plan[k].moved.same_place == same_path(plan[k].moved.src@, plan[k].moved.dst@)
        }
}

proof fn lemma_pending(docs: Seq<Document>, targets: Seq<Seq<char>>)
    ensures
        forall|a: int, b: int| 0 <= a < b < pending(docs, targets).len() ==> pending(docs, targets)[a] < pending(docs, targets)[b],
        forall|k: int| 0 <= k < pending(docs, targets).len() ==> 0 <= #[trigger] pending(docs, targets)[k] < docs.len(),
        forall|i: int| 0 <= i < docs.len() ==> (pending(docs, targets).contains(i) <==> docs[i].library_path@ != targets[i]),
    decreases docs.len(),
{
    if docs.len() > 0 {
        let d = docs.drop_last();
        lemma_pending(d, targets);
        let p = pending(d, targets);
        let n = docs.len() - 1;
        assert forall|i: int| 0 <= i < docs.len() implies (pending(docs, targets).contains(i) <==> docs[i].library_path@ != targets[i]) by {
            if i < n {
                assert(d[i] == docs[i]);
                if docs[n].library_path@ != targets[n] {
                    if p.push(n).contains(i) {
                        let k = choose|k: int| 0 <= k < p.push(n).len() && p.push(n)[k] == i;
                        assert(k < p.len());
                        assert(p[k] == i);
                    }
                    if p.contains(i) {
                        let k = choose|k: int| 0 <= k < p.len() && p[k] == i;
                        assert(p.push(n)[k] == i);
                    }
                }
            } else {
                if docs[n].library_path@ != targets[n] {
                    assert(p.push(n)[p.len() as int] == n);
                } else if p.contains(n) {
                    let k = choose|k: int| 0 <= k < p.len() && p[k] == n;
                    assert(p[k] < d.len());
                }
            }
        }
    }
}

/// A migration handles each document at most once and in list order: exactly those
/// whose copy is not at its target.
pub proof fn law_migration_handles_each_document_once(docs: Seq<Document>, targets: Seq<Seq<char>>)
    ensures
        pending(docs, targets).no_duplicates(),
        forall|a: int, b: int| 0 <= a < b < pending(docs, targets).len() ==> pending(docs, targets)[a] < pending(docs, targets)[b],
        forall|i: int| 0 <= i < docs.len() ==> (pending(docs, targets).contains(i) <==> docs[i].library_path@ != targets[i]),
{
    lemma_pending(docs, targets);
}

/// `done` is `docs` after a migration in which every pending document was updated to
/// its target: the same documents, only the pending ones with a new library path.
pub open spec fn all_updated(docs: Seq<Document>, targets: Seq<Seq<char>>, done: Seq<Document>) -> bool {
    &&& done.len() == docs.len()
    &&& forall|i: int|
        0 <= i < docs.len() ==> {
            &&& (#[trigger] done[i]).file_name@ == docs[i].file_name@
            &&& opt_view(done[i].folder_id) == opt_view(docs[i].folder_id)
            &&& done[i].library_path@ == (if pending(docs, targets).contains(i) {
                targets[i]
            } else {
                docs[i].library_path@
            })
        }
}

/// Renaming copies to their source file names is idempotent: once every pending
/// document has been updated, a second run finds nothing to do.
pub proof fn law_filename_migration_is_idempotent(docs: Seq<Document>, done: Seq<Document>)
    requires
        all_updated(docs, file_name_targets(docs), done),
    ensures
        pending(done, file_name_targets(done)).len() == 0,
{
    let t = file_name_targets(docs);
    lemma_pending(docs, t);
    lemma_pending(done, file_name_targets(done));
    assert(file_name_targets(done) =~= t);
    if pending(done, t).len() > 0 {
        let i = pending(done, t)[0];
        assert(0 <= i < done.len());
        assert(pending(done, t).contains(i));
        if pending(docs, t).contains(i) {
            assert(done[i].library_path@ == t[i]);
        } else {
            assert(docs[i].library_path@ == t[i]);
            assert(done[i].library_path@ == t[i]);
        }
        assert(false);
    }
}

/// Moving copies into the folder layout is idempotent: once every pending document
/// has been updated, a second run with the same folders finds nothing to do.
pub proof fn law_layout_migration_is_idempotent(docs: Seq<Document>, folders: Seq<Folder>, done: Seq<Document>)
    requires
        all_updated(docs, layout_targets(docs, folders), done),
    ensures
        pending(done, layout_targets(done, folders)).len() == 0,
{
    let t = layout_targets(docs, folders);
    lemma_pending(docs, t);
    assert forall|i: int| 0 <= i < done.len() implies #[trigger] layout_targets(done, folders)[i] == t[i] by {
        assert(done[i].file_name@ == docs[i].file_name@);
    }
    assert(layout_targets(done, folders) =~= t);
    lemma_pending(done, t);
    if pending(done, t).len() > 0 {
        let i = pending(done, t)[0];
        assert(0 <= i < done.len());
        assert(pending(done, t).contains(i));
        if pending(docs, t).contains(i) {
            assert(done[i].library_path@ == t[i]);
        } else {
            assert(docs[i].library_path@ == t[i]);
            assert(done[i].library_path@ == t[i]);
        }
        assert(false);
    }
}

fn plan_for(library_dir: &str, docs: &[Document], targets: &Vec<String>) -> (r: Vec<PlannedMigration>)
    requires
        targets@.len() == docs@.len(),
    ensures
        planned(library_dir@, docs@, targets@.map_values(|t: String| t@), r@),
{
    let ghost tv = targets@.map_values(|t: String| t@);
    let n = docs.len();
    let mut plan: Vec<PlannedMigration> = Vec::new();
    for i in 0..n
        invariant
            n == docs@.len() == targets@.len() == tv.len(),
            tv == targets@.map_values(|t: String| t@),
            planned(library_dir@, docs@.take(i as int), tv, plan@),
    {
        let ghost before = plan@;
        proof {
            assert(docs@.take(i + 1).drop_last() =~= docs@.take(i as int));
            assert(docs@.take(i + 1)[i as int] == docs@[i as int]);
            assert(tv[i as int] == targets@[i as int]@);
        }
        match migration_paths(library_dir, docs[i].library_path.as_str(), targets[i].as_str()) {
            Some(m) => {
                let p = PlannedMigration { index: i, target: targets[i].clone(), moved: m };
                plan.push(p);
                proof {
                    let pend = pending(docs@.take(i + 1), tv);
                    assert(pend == pending(docs@.take(i as int), tv).push(i as int));
                    assert forall|k: int| 0 <= k < plan@.len() implies {
                        let j = pend[k];
                        &&& (#[trigger] plan@[k]).index == j
                        &&& plan@[k].target@ == tv[j]
                        &&& plan@[k].moved.src@ == join_path(library_dir@, docs@.take(i + 1)[j].library_path@)
                        &&& plan@[k].moved.dst@ == join_path(library_dir@, tv[j])
                        &&& plan@[k].moved.same_place == same_path(plan@[k].moved.src@, plan@[k].moved.dst@)
                    } by {
                        if k < before.len() {
                            assert(plan@[k] == before[k]);
                            let j = pend[k];
                            lemma_pending(docs@.take(i as int), tv);
                            assert(docs@.take(i + 1)[j] == docs@.take(i as int)[j]);
                        }
                    }
                }
            },
            None => {
                proof {
                    assert(pending(docs@.take(i + 1), tv) == pending(docs@.take(i as int), tv));
                    let pend = pending(docs@.take(i + 1), tv);
                    assert forall|k: int| 0 <= k < plan@.len() implies {
                        let j = pend[k];
                        &&& (#[trigger] plan@[k]).index == j
                        &&& plan@[k].target@ == tv[j]
                        &&& plan@[k].moved.src@ == join_path(library_dir@, docs@.take(i + 1)[j].library_path@)
                        &&& plan@[k].moved.dst@ == join_path(library_dir@, tv[j])
                        &&& plan@[k].moved.same_place == same_path(plan@[k].moved.src@, plan@[k].moved.dst@)
                    } by {
                        let j = pend[k];
                        lemma_pending(docs@.take(i as int), tv);
                        assert(docs@.take(i + 1)[j] == docs@.take(i as int)[j]);
                    }
                }
            },
        }
    }
    proof {
        assert(docs@.take(n as int) =~= docs@);
    }
    plan
}

/// The documents to rename to their source file names, with their moves.
pub fn filename_migration_plan(library_dir: &str, docs: &[Document]) -> (r: Vec<PlannedMigration>)
    ensures
        planned(library_dir@, docs@, file_name_targets(docs@), r@),
{
    let mut targets: Vec<String> = Vec::new();
    let n = docs.len();
    for i in 0..n
        invariant
            n == docs@.len(),
            targets@.len() == i,
            forall|k: int| 0 <= k < i ==> #[trigger] targets@[k]@ == docs@[k].file_name@,
    {
        targets.push(docs[i].file_name.clone());
    }
    assert(targets@.map_values(|t: String| t@) =~= file_name_targets(docs@));
    plan_for(library_dir, docs, &targets)
}

/// The documents to move into the folder layout, with their targets and moves.
pub fn layout_migration_plan(library_dir: &str, docs: &[Document], folders: &[Folder]) -> (r: Vec<PlannedMigration>)
    requires
        forall|i: int| 0 <= i < docs@.len() ==> ((#[trigger] docs@[i]).folder_id matches Some(f) ==> walk_ends(folders@, f@)),
    ensures
        planned(library_dir@, docs@, layout_targets(docs@, folders@), r@),
{
    let mut targets: Vec<String> = Vec::new();
    let n = docs.len();
    for i in 0..n
        invariant
            n == docs@.len(),
            forall|i: int| 0 <= i < docs@.len() ==> ((#[trigger] docs@[i]).folder_id matches Some(f) ==> walk_ends(folders@, f@)),
            targets@.len() == i,
            forall|k: int| 0 <= k < i ==> #[trigger] targets@[k]@ == document_rel_path(docs@[k], folders@),
    {
        targets.push(build_document_rel_path(&docs[i], folders));
    }
    assert(targets@.map_values(|t: String| t@) =~= layout_targets(docs@, folders@));
    plan_for(library_dir, docs, &targets)
}

/// What to do for one document of a migration.
#[derive(Debug, PartialEq, Eq)]
pub enum MigrationStep {
    /// Leave the document as it is.
    Skip,
    /// Only point the document's library path at its target.
    Update,
    /// Move the file to its target (creating the target's directory), then update.
    MoveThenUpdate,
}

/// Renaming copies to their source file names: a target held by another file is left
/// alone; an existing source is moved; a lost source only has its record updated.
pub open spec fn filename_step(same_place: bool, dst_exists: bool, src_exists: bool) -> MigrationStep {
    if dst_exists && !same_place {
        MigrationStep::Skip
    } else if src_exists {
        MigrationStep::MoveThenUpdate
    } else {
        MigrationStep::Update
    }
}

/// Moving copies into the folder layout: when the target is held by another file the
/// record is pointed at it without moving; an existing source is moved; a lost source
/// only has its record updated.
pub open spec fn layout_step(same_place: bool, dst_exists: bool, src_exists: bool) -> MigrationStep {
    if dst_exists && !same_place {
        MigrationStep::Update
    } else if src_exists {
        MigrationStep::MoveThenUpdate
    } else {
        MigrationStep::Update
    }
}

/// The migration steps: a target held by another file is never overwritten (renaming
/// to file names skips the document; moving into the folder layout only points the
/// record at the target); otherwise an existing copy is moved and then recorded, and a
/// lost copy only has its record updated.
pub proof fn law_migration_steps(same_place: bool, dst_exists: bool, src_exists: bool)
    ensures
        (dst_exists && !same_place) ==> filename_step(same_place, dst_exists, src_exists) == MigrationStep::Skip,
        (dst_exists && !same_place) ==> layout_step(same_place, dst_exists, src_exists) == MigrationStep::Update,
        (!(dst_exists && !same_place) && src_exists) ==> filename_step(same_place, dst_exists, src_exists) == MigrationStep::MoveThenUpdate
            && layout_step(same_place, dst_exists, src_exists) == MigrationStep::MoveThenUpdate,
        (!(dst_exists && !same_place) && !src_exists) ==> filename_step(same_place, dst_exists, src_exists) == MigrationStep::Update
            && layout_step(same_place, dst_exists, src_exists) == MigrationStep::Update,
{
}

/// The step for one document when renaming copies to their source file names.
pub fn filename_migration_step(same_place: bool, dst_exists: bool, src_exists: bool) -> (r: MigrationStep)
    ensures
        r == filename_step(same_place, dst_exists, src_exists),
{
    if dst_exists && !same_place {
        MigrationStep::Skip
    } else if src_exists {
        MigrationStep::MoveThenUpdate
    } else {
        MigrationStep::Update
    }
}

/// The step for one document when moving copies into the folder layout.
pub fn layout_migration_step(same_place: bool, dst_exists: bool, src_exists: bool) -> (r: MigrationStep)
    ensures
        r == layout_step(same_place, dst_exists, src_exists),
{
    if dst_exists && !same_place {
        MigrationStep::Update
    } else if src_exists {
        MigrationStep::MoveThenUpdate
    } else {
        MigrationStep::Update
    }
}

/// Whether going up from `folder_id` ends within as many steps as there are folders.
/// When it does not, some folder repeats on the way up: the parent links form a cycle
/// and the chain path is undefined.
pub fn chain_ends_within(folder_id: &str, folders: &[Folder]) -> (r: bool)
    ensures
        r == folder_walk(folders@, folder_id@, folders@.len()) is Some,
        r ==> walk_ends(folders@, folder_id@),
{
    let mut current = chars_of(folder_id);
    let mut fuel: usize = folders.len();
    loop
        invariant
            (folder_walk(folders@, folder_id@, folders@.len()) is Some) == (folder_walk(folders@, current@, fuel as nat) is Some),
        decreases fuel,
    {
        match find_folder_exec(folders, &current) {
            None => {
                return true;
            },
            Some(i) => match &folders[i].parent_id {
                None => {
                    return true;
                },
                Some(p) => {
                    if fuel == 0 {
                        return false;
                    }
                    current = chars_of(p.as_str());
                    fuel = fuel - 1;
                },
            },
        }
    }
}

} // verus!
