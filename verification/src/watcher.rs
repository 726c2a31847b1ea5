//! Batching of file-system events: events are gathered until the vault has been quiet
//! for a while, then handed out together.
use vstd::prelude::*;
use crate::text::{chars_of, same_chars};
use crate::vault::{html_path, is_html_path};

verus! {

/// How long the vault must be quiet before gathered events are handed out (ms).
pub const DEBOUNCE_MS: u64 = 500;

/// The kind of a file-system event.
#[derive(Debug)]
pub enum ChangeKind {
    Create,
    Modify,
    Remove,
    Other,
}

/// Events gathered since the last batch: the paths created, modified and removed (each
/// once, in the order first seen) and when the last event came (ms on a monotonic clock).
#[derive(Debug)]
pub struct PendingEvents {
    pub added: Vec<String>,
    pub modified: Vec<String>,
    pub removed: Vec<String>,
    pub last_event: Option<u64>,
}

pub open spec fn views(v: Seq<String>) -> Seq<Seq<char>> {
    v.map_values(|s: String| s@)
}

/// `list` with each of `paths` appended unless already there.
pub open spec fn add_unique(list: Seq<Seq<char>>, paths: Seq<Seq<char>>) -> Seq<Seq<char>>
    decreases paths.len(),
{
    if paths.len() == 0 {
        list
    } else {
        let l = add_unique(list, paths.drop_last());
        if l.contains(paths.last()) {
            l
        } else {
            l.push(paths.last())
        }
    }
}

fn contains_path(list: &Vec<String>, p: &String) -> (r: bool)
    ensures
        r == views(list@).contains(p@),
{
    let pc = chars_of(p.as_str());
    let n = list.len();
    for i in 0..n
        invariant
            n == list@.len(),
            pc@ == p@,
            forall|k: int| 0 <= k < i ==> list@[k]@ != p@,
    {
        if same_chars(&chars_of(list[i].as_str()), &pc) {
            assert(views(list@)[i as int] == p@);
            return true;
        }
    }
    assert forall|k: int| 0 <= k < views(list@).len() implies views(list@)[k] != p@ by {
        assert(views(list@)[k] == list@[k]@);
    }
    false
}

pub(crate) fn add_unique_exec(list: &mut Vec<String>, paths: &Vec<String>)
    ensures
        views(final(list)@) == add_unique(views(old(list)@), views(paths@)),
{
    let n = paths.len();
    let ghost start = views(list@);
    for i in 0..n
        invariant
            n == paths@.len(),
            views(list@) == add_unique(start, views(paths@).take(i as int)),
    {
        let ghost before = views(list@);
        proof {
            assert(views(paths@).take(i + 1).drop_last() =~= views(paths@).take(i as int));
            assert(views(paths@).take(i + 1).last() == paths@[i as int]@);
        }
        if !contains_path(list, &paths[i]) {
            list.push(paths[i].clone());
            assert(views(list@) =~= before.push(paths@[i as int]@));
        }
    }
    assert(views(paths@).take(n as int) =~= views(paths@));
}

impl PendingEvents {
    /// Nothing gathered.
    pub fn new() -> (r: PendingEvents)
        ensures
            r.added@.len() == 0,
            r.modified@.len() == 0,
            r.removed@.len() == 0,
            r.last_event is None,
    {
        PendingEvents { added: Vec::new(), modified: Vec::new(), removed: Vec::new(), last_event: None }
    }

    /// Gathers an event of `kind` about `paths` that came at `now_ms`: the paths join the
    /// list of their kind (those already there are not repeated), and the time is noted
    /// whatever the kind.
    pub fn record(&mut self, kind: ChangeKind, paths: &Vec<String>, now_ms: u64)
        ensures
            views(final(self).added@) == (if kind is Create {
                add_unique(views(old(self).added@), views(paths@))
            } else {
                views(old(self).added@)
            }),
            views(final(self).modified@) == (if kind is Modify {
                add_unique(views(old(self).modified@), views(paths@))
            } else {
                views(old(self).modified@)
            }),
            views(final(self).removed@) == (if kind is Remove {
                add_unique(views(old(self).removed@), views(paths@))
            } else {
                views(old(self).removed@)
            }),
            final(self).last_event == Some(now_ms),
    {
        match kind {
            ChangeKind::Create => add_unique_exec(&mut self.added, paths),
            ChangeKind::Modify => add_unique_exec(&mut self.modified, paths),
            ChangeKind::Remove => add_unique_exec(&mut self.removed, paths),
            ChangeKind::Other => {},
        }
        self.last_event = Some(now_ms);
    }

    /// The vault has been quiet for `DEBOUNCE_MS` since the last event.
    pub open spec fn quiet_at(&self, now_ms: u64) -> bool {
        match self.last_event {
            Some(t) => now_ms >= t && now_ms - t >= DEBOUNCE_MS,
            None => false,
        }
    }

    /// Whether the gathered events are due at `now_ms`.
    pub fn should_flush(&self, now_ms: u64) -> (r: bool)
        ensures
            r == self.quiet_at(now_ms),
    {
        match self.last_event {
            Some(t) => now_ms >= t && now_ms - t >= DEBOUNCE_MS,
            None => false,
        }
    }

    /// Whether no path is gathered.
    pub fn is_empty(&self) -> (r: bool)
        ensures
            r == (self.added@.len() == 0 && self.modified@.len() == 0 && self.removed@.len() == 0),
    {
        self.added.len() == 0 && self.modified.len() == 0 && self.removed.len() == 0
    }

    /// Hands out the gathered paths (added, modified, removed) and forgets them; the
    /// time of the last event is kept.
    pub fn take(&mut self) -> (r: (Vec<String>, Vec<String>, Vec<String>))
        ensures
            r.0@ == old(self).added@,
            r.1@ == old(self).modified@,
            r.2@ == old(self).removed@,
            final(self).added@.len() == 0,
            final(self).modified@.len() == 0,
            final(self).removed@.len() == 0,
            final(self).last_event == old(self).last_event,
    {
        let mut added: Vec<String> = Vec::new();
        let mut modified: Vec<String> = Vec::new();
        let mut removed: Vec<String> = Vec::new();
        std::mem::swap(&mut added, &mut self.added);
        std::mem::swap(&mut modified, &mut self.modified);
        std::mem::swap(&mut removed, &mut self.removed);
        (added, modified, removed)
    }

    /// One tick of the debounce: when the vault has been quiet for `DEBOUNCE_MS` at
    /// `now_ms` and something was gathered, hands out the gathered paths (added,
    /// modified, removed) and forgets them; otherwise hands out nothing and changes
    /// nothing.
    pub fn take_due(&mut self, now_ms: u64) -> (r: Option<(Vec<String>, Vec<String>, Vec<String>)>)
        ensures
            r is Some <==> (old(self).quiet_at(now_ms) && !(old(self).added@.len() == 0 && old(self).modified@.len() == 0 && old(self).removed@.len() == 0)),
            r matches Some(b) ==> {
                &&& b.0@ == old(self).added@
                &&& b.1@ == old(self).modified@
                &&& b.2@ == old(self).removed@
                &&& final(self).added@.len() == 0
                &&& final(self).modified@.len() == 0
                &&& final(self).removed@.len() == 0
                &&& final(self).last_event == old(self).last_event
            },
            r is None ==> *final(self) == *old(self),
    {
        if self.should_flush(now_ms) && !self.is_empty() {
            Some(self.take())
        } else {
            None
        }
    }
}

/// Gathered events are due at `now_ms`: the vault has been quiet long enough and
/// something was gathered (what `take_due` hands out).
pub open spec fn due(p: PendingEvents, now_ms: u64) -> bool {
    p.quiet_at(now_ms) && !(p.added@.len() == 0 && p.modified@.len() == 0 && p.removed@.len() == 0)
}

/// Debouncing: events stay gathered while the vault is not quiet — nothing is due
/// earlier than `DEBOUNCE_MS` after the last event.
pub proof fn law_nothing_due_before_quiet(p: PendingEvents, last: u64, now_ms: u64)
    requires
        p.last_event == Some(last),
        now_ms < last + DEBOUNCE_MS,
    ensures
        !due(p, now_ms),
{
}

/// A batch is handed out once: after `take_due` hands out a batch, nothing more is due
/// at any time until new events are gathered.
pub proof fn law_batch_handed_out_once(after: PendingEvents, later: u64)
    requires
        after.added@.len() == 0,
        after.modified@.len() == 0,
        after.removed@.len() == 0,
    ensures
        !due(after, later),
{
}

proof fn lemma_relevant_witness(paths: Seq<String>, is_dir: Seq<bool>, dirs_count: bool, i: int)
    requires
        0 <= i < paths.len(),
        html_path(paths[i]@) || (dirs_count && i < is_dir.len() && is_dir[i]),
    ensures
        any_relevant(paths, is_dir, dirs_count),
{
    let w = paths[i];
    assert(w@ == paths[i]@);
    assert(0 <= i < paths.len() && (html_path(paths[i]@) || (dirs_count && i < is_dir.len() && is_dir[i])));
    assert(exists|k: int| 0 <= k < paths.len() && (html_path(#[trigger] paths[k]@) || (dirs_count && k < is_dir.len() && is_dir[k])));
}

/// Some path of the list names an HTML file, or (where `is_dir` says so) a directory.
pub open spec fn any_relevant(paths: Seq<String>, is_dir: Seq<bool>, dirs_count: bool) -> bool {
    exists|i: int| 0 <= i < paths.len() && (html_path(#[trigger] paths[i]@) || (dirs_count && i < is_dir.len() && is_dir[i]))
}

fn any_relevant_exec(paths: &Vec<String>, is_dir: &Vec<bool>, dirs_count: bool) -> (r: bool)
    ensures
        r == any_relevant(paths@, is_dir@, dirs_count),
{
    let n = paths.len();
    for i in 0..n
        invariant
            n == paths@.len(),
            forall|k: int| 0 <= k < i ==> !(html_path(#[trigger] paths@[k]@) || (dirs_count && k < is_dir@.len() && is_dir@[k])),
    {
        let d = dirs_count && i < is_dir.len() && is_dir[i];
        if is_html_path(paths[i].as_str()) || d {
            assert(html_path(paths@[i as int]@) || (dirs_count && i < is_dir@.len() && is_dir@[i as int]));
            return true;
        }
    }
    false
}

/// Whether a batch of events concerns the index: an HTML file or a directory added, an
/// HTML file modified, or an HTML file or directory removed.  `added_is_dir` and
/// `removed_is_dir` say, path by path, which paths are directories.
pub fn batch_is_relevant(added: &Vec<String>, added_is_dir: &Vec<bool>, modified: &Vec<String>, removed: &Vec<String>, removed_is_dir: &Vec<bool>) -> (r: bool)
    ensures
        r == (any_relevant(added@, added_is_dir@, true) || any_relevant(modified@, Seq::empty(), false)
            || any_relevant(removed@, removed_is_dir@, true)),
{
    any_relevant_exec(added, added_is_dir, true) || any_relevant_exec(modified, &Vec::new(), false)
        || any_relevant_exec(removed, removed_is_dir, true)
}

/// A batch concerns the index exactly when it adds, changes or removes an HTML file,
/// or adds or removes a directory; a changed directory alone does not.
pub proof fn law_batch_relevance(added: Seq<String>, added_is_dir: Seq<bool>, modified: Seq<String>, removed: Seq<String>, removed_is_dir: Seq<bool>, i: int)
    ensures
        (0 <= i < added.len() && (html_path(added[i]@) || (i < added_is_dir.len() && added_is_dir[i]))) ==> any_relevant(added, added_is_dir, true),
        (0 <= i < modified.len() && html_path(modified[i]@)) ==> any_relevant(modified, Seq::empty(), false),
        (0 <= i < removed.len() && (html_path(removed[i]@) || (i < removed_is_dir.len() && removed_is_dir[i]))) ==> any_relevant(removed, removed_is_dir, true),
        (forall|k: int| 0 <= k < modified.len() ==> !html_path(#[trigger] modified[k]@)) ==> !any_relevant(modified, Seq::empty(), false),
        (forall|k: int| 0 <= k < added.len() ==> !html_path(#[trigger] added[k]@) && !(k < added_is_dir.len() && added_is_dir[k]))
            ==> !any_relevant(added, added_is_dir, true),
{
    if 0 <= i < added.len() && (html_path(added[i]@) || (i < added_is_dir.len() && added_is_dir[i])) {
        lemma_relevant_witness(added, added_is_dir, true, i);
    }
    if 0 <= i < removed.len() && (html_path(removed[i]@) || (i < removed_is_dir.len() && removed_is_dir[i])) {
        lemma_relevant_witness(removed, removed_is_dir, true, i);
    }
    if (forall|k: int| 0 <= k < added.len() ==> !html_path(#[trigger] added[k]@) && !(k < added_is_dir.len() && added_is_dir[k]))
        && any_relevant(added, added_is_dir, true) {
        let k = choose|k: int| 0 <= k < added.len() && (html_path(#[trigger] added[k]@) || (true && k < added_is_dir.len() && added_is_dir[k]));
        assert(!html_path(added[k]@) && !(k < added_is_dir.len() && added_is_dir[k]));
    }
}

/// Gathering never lists a path twice: if no list repeats a path before an event, none
/// does after it.
pub proof fn law_add_unique_keeps_paths_distinct(list: Seq<Seq<char>>, paths: Seq<Seq<char>>)
    requires
        list.no_duplicates(),
    ensures
        add_unique(list, paths).no_duplicates(),
        forall|p: Seq<char>| #[trigger] add_unique(list, paths).contains(p) <==> (list.contains(p) || paths.contains(p)),
    decreases paths.len(),
{
    if paths.len() > 0 {
        law_add_unique_keeps_paths_distinct(list, paths.drop_last());
        let l = add_unique(list, paths.drop_last());
        let x = paths.last();
        assert forall|p: Seq<char>| #[trigger] add_unique(list, paths).contains(p) <==> (list.contains(p) || paths.contains(p)) by {
            if paths.contains(p) && !paths.drop_last().contains(p) {
                let k = choose|k: int| 0 <= k < paths.len() && paths[k] == p;
                if k < paths.len() - 1 {
                    assert(paths.drop_last()[k] == p);
                }
                assert(p == x);
                if !l.contains(x) {
                    assert(l.push(x)[l.len() as int] == x);
                }
            }
            if paths.drop_last().contains(p) {
                let k = choose|k: int| 0 <= k < paths.drop_last().len() && paths.drop_last()[k] == p;
                assert(paths[k] == p);
            }
            if !l.contains(x) && l.push(x).contains(p) {
                let k = choose|k: int| 0 <= k < l.push(x).len() && l.push(x)[k] == p;
                if k < l.len() {
                    assert(l[k] == p);
                }
            }
            if !l.contains(x) && l.contains(p) {
                let k = choose|k: int| 0 <= k < l.len() && l[k] == p;
                assert(l.push(x)[k] == p);
            }
        }
        if !l.contains(x) {
            assert forall|a: int, b: int| 0 <= a < b < l.push(x).len() implies l.push(x)[a] != l.push(x)[b] by {
                if b == l.len() {
                    assert(l[a] != x);
                }
            }
        }
    }
}

} // verus!
