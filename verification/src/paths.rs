//! Paths as text, with `/` as the separator (the Unix reading of `std::path`).
use vstd::prelude::*;
use crate::text::slice_of;

verus! {

/// The pieces of `s` between occurrences of `sep` (`str::split`): `""` gives one
/// empty piece, and every separator adds one.
pub open spec fn split(s: Seq<char>, sep: char) -> Seq<Seq<char>>
    decreases s.len(),
{
    if s.len() == 0 {
        seq![Seq::empty()]
    } else {
        let w = split(s.drop_last(), sep);
        if s.last() == sep {
            w.push(Seq::empty())
        } else {
            w.update(w.len() - 1, w.last().push(s.last()))
        }
    }
}

pub proof fn lemma_split_nonempty(s: Seq<char>, sep: char)
    ensures
        split(s, sep).len() >= 1,
    decreases s.len(),
{
    if s.len() > 0 {
        lemma_split_nonempty(s.drop_last(), sep);
    }
}

/// A text that splits into one piece holds no separator.
pub proof fn lemma_split_single_piece_has_no_sep(s: Seq<char>)
    requires
        split(s, '/').len() == 1,
    ensures
        !s.contains('/'),
    decreases s.len(),
{
    if s.len() > 0 {
        lemma_split_nonempty(s.drop_last(), '/');
        if s.last() != '/' {
            lemma_split_single_piece_has_no_sep(s.drop_last());
            if s.contains('/') {
                let k = choose|k: int| 0 <= k < s.len() && s[k] == '/';
                if k < s.len() - 1 {
                    assert(s.drop_last()[k] == '/');
                }
            }
        }
    }
}

/// A text without the separator is one piece.
pub proof fn lemma_split_single(s: Seq<char>, sep: char)
    requires
        !s.contains(sep),
    ensures
        split(s, sep) == seq![s],
    decreases s.len(),
{
    if s.len() > 0 {
        assert(!s.drop_last().contains(sep)) by {
            if s.drop_last().contains(sep) {
                let k = choose|k: int| 0 <= k < s.drop_last().len() && s.drop_last()[k] == sep;
                assert(s[k] == sep);
            }
        }
        lemma_split_single(s.drop_last(), sep);
        assert(s.last() != sep) by {
            assert(s[s.len() - 1] == s.last());
        }
        assert(s.drop_last().push(s.last()) =~= s);
        let w = split(s.drop_last(), sep);
        assert(w == seq![s.drop_last()]);
        assert(w.update(w.len() - 1, w.last().push(s.last())) =~= seq![s]);
    } else {
        assert(s =~= Seq::<char>::empty());
    }
}

pub fn split_exec(s: &Vec<char>, sep: char) -> (r: Vec<Vec<char>>)
    ensures
        r@.len() == split(s@, sep).len(),
        forall|i: int| 0 <= i < r@.len() ==> #[trigger] r@[i]@ == split(s@, sep)[i],
{
    let mut r: Vec<Vec<char>> = Vec::new();
    let mut cur: Vec<char> = Vec::new();
    let n = s.len();
    for i in 0..n
        invariant
            n == s@.len(),
            r@.len() + 1 == split(s@.take(i as int), sep).len(),
            forall|k: int| 0 <= k < r@.len() ==> #[trigger] r@[k]@ == split(s@.take(i as int), sep)[k],
            cur@ == split(s@.take(i as int), sep).last(),
    {
        let ghost prev = split(s@.take(i as int), sep);
        proof {
            lemma_split_nonempty(s@.take(i as int), sep);
            assert(s@.take(i + 1).drop_last() =~= s@.take(i as int));
        }
        if s[i] == sep {
            let done = cur;
            r.push(done);
            cur = Vec::new();
        } else {
            cur.push(s[i]);
        }
    }
    proof {
        lemma_split_nonempty(s@, sep);
        assert(s@.take(n as int) =~= s@);
    }
    r.push(cur);
    r
}

pub open spec fn dot() -> Seq<char> {
    seq!['.']
}

pub open spec fn dot_dot() -> Seq<char> {
    seq!['.', '.']
}

/// The number of leading pieces left once trailing empty and `.` pieces are dropped.
pub open spec fn name_end(segs: Seq<Seq<char>>, j: int) -> int
    decreases j,
{
    if 0 < j <= segs.len() && (segs[j - 1].len() == 0 || segs[j - 1] == dot()) {
        name_end(segs, j - 1)
    } else {
        j
    }
}

/// The final component of a path when it is a name (`Path::file_name`): `None` for
/// `""`, `"/"`, `"."` and paths that end in `..`.
pub open spec fn file_name(p: Seq<char>) -> Option<Seq<char>> {
    let segs = split(p, '/');
    let j = name_end(segs, segs.len() as int);
    if j <= 0 || segs[j - 1] == dot_dot() {
        None
    } else {
        Some(segs[j - 1])
    }
}

pub fn is_dot(s: &Vec<char>) -> (r: bool)
    ensures
        r == (s@ == dot()),
{
    let r = s.len() == 1 && s[0] == '.';
    proof {
        if r {
            assert(s@ =~= dot());
        }
    }
    r
}

pub fn is_dot_dot(s: &Vec<char>) -> (r: bool)
    ensures
        r == (s@ == dot_dot()),
{
    let r = s.len() == 2 && s[0] == '.' && s[1] == '.';
    proof {
        if r {
            assert(s@ =~= dot_dot());
        }
    }
    r
}

pub fn file_name_of(p: &Vec<char>) -> (r: Option<Vec<char>>)
    ensures
        r matches Some(v) ==> file_name(p@) == Some(v@),
        r is None ==> file_name(p@) is None,
{
    let segs = split_exec(p, '/');
    let ghost sp = split(p@, '/');
    let mut j = segs.len();
    while j > 0 && (segs[j - 1].len() == 0 || is_dot(&segs[j - 1]))
        invariant
            j <= segs@.len() == sp.len(),
            forall|i: int| 0 <= i < segs@.len() ==> #[trigger] segs@[i]@ == sp[i],
            name_end(sp, sp.len() as int) == name_end(sp, j as int),
        decreases j,
    {
        j = j - 1;
    }
    if j == 0 || is_dot_dot(&segs[j - 1]) {
        None
    } else {
        let s = &segs[j - 1];
        Some(slice_of(s, 0, s.len()))
    }
}

/// Index of the last occurrence of `c` in `s`, or -1.
pub open spec fn last_index_of(s: Seq<char>, c: char) -> int
    decreases s.len(),
{
    if s.len() == 0 {
        -1
    } else if s.last() == c {
        s.len() - 1
    } else {
        last_index_of(s.drop_last(), c)
    }
}

pub proof fn lemma_last_index_of(s: Seq<char>, c: char)
    ensures
        -1 <= last_index_of(s, c) < s.len(),
        last_index_of(s, c) >= 0 ==> s[last_index_of(s, c)] == c,
        forall|k: int| last_index_of(s, c) < k < s.len() ==> #[trigger] s[k] != c,
    decreases s.len(),
{
    if s.len() > 0 && s.last() != c {
        lemma_last_index_of(s.drop_last(), c);
        assert forall|k: int| last_index_of(s, c) < k < s.len() implies #[trigger] s[k] != c by {
            if k < s.len() - 1 {
                assert(s[k] == s.drop_last()[k]);
            }
        }
    }
}

/// The last `c` of `a + [c] + b` is the one between them when `b` holds none.
pub proof fn lemma_last_index_of_join(a: Seq<char>, b: Seq<char>, c: char)
    requires
        !b.contains(c),
    ensures
        last_index_of(a + seq![c] + b, c) == a.len(),
{
    let s = a + seq![c] + b;
    lemma_last_index_of(s, c);
    assert(s[a.len() as int] == c);
    let r = last_index_of(s, c);
    if r > a.len() {
        assert(s[r] == b[r - a.len() - 1]);
    }
}

pub fn last_index_of_exec(s: &Vec<char>, c: char) -> (r: Option<usize>)
    ensures
        r matches Some(i) ==> last_index_of(s@, c) == i,
        r is None ==> last_index_of(s@, c) == -1,
{
    let mut j = s.len();
    proof {
        assert(s@.take(s@.len() as int) =~= s@);
    }
    while j > 0 && s[j - 1] != c
        invariant
            j <= s@.len(),
            last_index_of(s@, c) == last_index_of(s@.take(j as int), c),
        decreases j,
    {
        proof {
            assert(s@.take(j as int).drop_last() =~= s@.take(j - 1));
        }
        j = j - 1;
    }
    proof {
        assert(s@.take(s@.len() as int) =~= s@);
    }
    if j == 0 {
        None
    } else {
        Some(j - 1)
    }
}

/// `Path::extension` of a file name: the text after its last `.`, unless the name has
/// no `.` or its only `.` leads it.
pub open spec fn name_extension(name: Seq<char>) -> Option<Seq<char>> {
    let d = last_index_of(name, '.');
    if d <= 0 {
        None
    } else {
        Some(name.subrange(d + 1, name.len() as int))
    }
}

/// `Path::file_stem` of a file name.
pub open spec fn name_stem(name: Seq<char>) -> Seq<char> {
    let d = last_index_of(name, '.');
    if d <= 0 {
        name
    } else {
        name.subrange(0, d)
    }
}

/// `Path::extension`.
pub open spec fn extension(p: Seq<char>) -> Option<Seq<char>> {
    match file_name(p) {
        Some(n) => name_extension(n),
        None => None,
    }
}

pub fn name_extension_of(name: &Vec<char>) -> (r: Option<Vec<char>>)
    ensures
        r matches Some(v) ==> name_extension(name@) == Some(v@),
        r is None ==> name_extension(name@) is None,
{
    proof {
        lemma_last_index_of(name@, '.');
    }
    match last_index_of_exec(name, '.') {
        None => None,
        Some(d) => {
            if d == 0 {
                None
            } else {
                let len = name.len();
                assert(d < len);
                Some(slice_of(name, d + 1, len))
            }
        },
    }
}

pub fn name_stem_of(name: &Vec<char>) -> (r: Vec<char>)
    ensures
        r@ == name_stem(name@),
{
    proof {
        lemma_last_index_of(name@, '.');
    }
    match last_index_of_exec(name, '.') {
        None => slice_of(name, 0, name.len()),
        Some(d) => {
            if d == 0 {
                slice_of(name, 0, name.len())
            } else {
                slice_of(name, 0, d)
            }
        },
    }
}

pub fn extension_of(p: &Vec<char>) -> (r: Option<Vec<char>>)
    ensures
        r matches Some(v) ==> extension(p@) == Some(v@),
        r is None ==> extension(p@) is None,
{
    match file_name_of(p) {
        None => None,
        Some(n) => name_extension_of(&n),
    }
}

/// The pieces joined with `sep`.
pub open spec fn join_with(ws: Seq<Seq<char>>, sep: char) -> Seq<char>
    decreases ws.len(),
{
    if ws.len() == 0 {
        Seq::empty()
    } else if ws.len() == 1 {
        ws[0]
    } else {
        join_with(ws.drop_last(), sep) + seq![sep] + ws.last()
    }
}

/// `Path::parent`: the path without its last component, with the separators and `.`
/// pieces before that component dropped (a leading `/` or `.` stays); `None` for `""`
/// and for paths that are only a root.
pub open spec fn parent(p: Seq<char>) -> Option<Seq<char>> {
    let segs = split(p, '/');
    let j = name_end(segs, segs.len() as int);
    if j <= 0 {
        if p.len() == 0 || p[0] == '/' {
            None
        } else {
            Some(Seq::empty())
        }
    } else {
        let k = name_end(segs, j - 1);
        if k <= 0 {
            if p.len() > 0 && p[0] == '/' {
                Some(seq!['/'])
            } else if segs[0] == dot() {
                Some(dot())
            } else {
                Some(Seq::empty())
            }
        } else {
            Some(join_with(segs.take(k), '/'))
        }
    }
}

fn join_prefix(segs: &Vec<Vec<char>>, k: usize) -> (r: Vec<char>)
    requires
        k <= segs@.len(),
    ensures
        r@ == join_with(segs@.map_values(|v: Vec<char>| v@).take(k as int), '/'),
{
    let ghost s = segs@.map_values(|v: Vec<char>| v@);
    let mut out: Vec<char> = Vec::new();
    let mut i: usize = 0;
    proof {
        assert(s.take(0) =~= Seq::<Seq<char>>::empty());
    }
    while i < k
        invariant
            k <= segs@.len() == s.len(),
            s == segs@.map_values(|v: Vec<char>| v@),
            i <= k,
            out@ == join_with(s.take(i as int), '/'),
        decreases k - i,
    {
        proof {
            assert(s.take(i + 1).drop_last() =~= s.take(i as int));
            assert(s.take(i + 1).last() == segs@[i as int]@);
        }
        if i > 0 {
            out.push('/');
        } else {
            assert(s.take(1) =~= seq![segs@[0]@]);
        }
        crate::text::push_all(&mut out, &segs[i]);
        i = i + 1;
    }
    out
}

pub fn parent_of(p: &Vec<char>) -> (r: Option<Vec<char>>)
    ensures
        match r {
            Some(v) => parent(p@) == Some(v@),
            None => parent(p@) is None,
        },
{
    let segs = split_exec(p, '/');
    let ghost sp = split(p@, '/');
    proof {
        lemma_split_nonempty(p@, '/');
        assert(segs@.map_values(|v: Vec<char>| v@) =~= sp);
    }
    let mut j = segs.len();
    while j > 0 && (segs[j - 1].len() == 0 || is_dot(&segs[j - 1]))
        invariant
            j <= segs@.len() == sp.len(),
            forall|i: int| 0 <= i < segs@.len() ==> #[trigger] segs@[i]@ == sp[i],
            name_end(sp, sp.len() as int) == name_end(sp, j as int),
        decreases j,
    {
        j = j - 1;
    }
    if j == 0 {
        if p.len() == 0 || p[0] == '/' {
            return None;
        }
        return Some(Vec::new());
    }
    let mut k = j - 1;
    proof {
        assert(segs@[j - 1]@ == sp[j - 1]);
    }
    while k > 0 && (segs[k - 1].len() == 0 || is_dot(&segs[k - 1]))
        invariant
            k < j <= segs@.len() == sp.len(),
            forall|i: int| 0 <= i < segs@.len() ==> #[trigger] segs@[i]@ == sp[i],
            name_end(sp, j - 1) == name_end(sp, k as int),
        decreases k,
    {
        k = k - 1;
    }
    if k == 0 {
        if p.len() > 0 && p[0] == '/' {
            let r = vec!['/'];
            assert(r@ =~= seq!['/']);
            return Some(r);
        }
        if is_dot(&segs[0]) {
            let r = vec!['.'];
            assert(r@ =~= dot());
            return Some(r);
        }
        return Some(Vec::new());
    }
    Some(join_prefix(&segs, k))
}

/// `base` joined with `rel` (`Path::join`): an absolute `rel` replaces `base`, and a
/// separator is put between them unless `base` is empty or already ends in one.
pub open spec fn join_path(base: Seq<char>, rel: Seq<char>) -> Seq<char> {
    if rel.len() > 0 && rel[0] == '/' {
        rel
    } else if base.len() == 0 || base.last() == '/' {
        base + rel
    } else {
        base + seq!['/'] + rel
    }
}

pub fn join_path_exec(base: &Vec<char>, rel: &Vec<char>) -> (r: Vec<char>)
    ensures
        r@ == join_path(base@, rel@),
{
    if rel.len() > 0 && rel[0] == '/' {
        return slice_of(rel, 0, rel.len());
    }
    let mut out = slice_of(base, 0, base.len());
    if !(base.len() == 0 || base[base.len() - 1] == '/') {
        out.push('/');
    }
    crate::text::push_all(&mut out, rel);
    out
}

/// The pieces that name something: not empty and not `.`.
pub open spec fn names(segs: Seq<Seq<char>>) -> Seq<Seq<char>>
    decreases segs.len(),
{
    if segs.len() == 0 {
        Seq::empty()
    } else {
        let rest = names(segs.drop_last());
        let s = segs.last();
        if s.len() == 0 || s == dot() {
            rest
        } else {
            rest.push(s)
        }
    }
}

/// `Path::components`, each as text: the root is `"/"`, a leading current-directory
/// component is `"."`, a parent-directory component is `".."`.
pub open spec fn components(p: Seq<char>) -> Seq<Seq<char>> {
    let segs = split(p, '/');
    if p.len() > 0 && p[0] == '/' {
        seq![seq!['/']] + names(segs.drop_first())
    } else if segs[0] == dot() {
        seq![dot()] + names(segs.drop_first())
    } else {
        names(segs)
    }
}

/// `Path::starts_with`: the components of `base` lead those of `p`.
pub open spec fn path_starts_with(p: Seq<char>, base: Seq<char>) -> bool {
    let a = components(p);
    let b = components(base);
    b.len() <= a.len() && a.subrange(0, b.len() as int) == b
}

fn names_exec(segs: &Vec<Vec<char>>, from: usize) -> (r: Vec<Vec<char>>)
    requires
        from <= segs@.len(),
    ensures
        r@.len() == names(segs@.subrange(from as int, segs@.len() as int).map_values(
            |v: Vec<char>| v@,
        )).len(),
        forall|i: int|
            0 <= i < r@.len() ==> #[trigger] r@[i]@ == names(
                segs@.subrange(from as int, segs@.len() as int).map_values(|v: Vec<char>| v@),
            )[i],
{
    let mut r: Vec<Vec<char>> = Vec::new();
    let n = segs.len();
    let mut i = from;
    while i < n
        invariant
            from <= i <= n == segs@.len(),
            r@.len() == names(segs@.subrange(from as int, i as int).map_values(|v: Vec<char>| v@)).len(),
            forall|k: int|
                0 <= k < r@.len() ==> #[trigger] r@[k]@ == names(
                    segs@.subrange(from as int, i as int).map_values(|v: Vec<char>| v@),
                )[k],
        decreases n - i,
    {
        let ghost before = segs@.subrange(from as int, i as int).map_values(|v: Vec<char>| v@);
        let ghost after = segs@.subrange(from as int, i + 1).map_values(|v: Vec<char>| v@);
        proof {
            assert(after.drop_last() =~= before);
            assert(after.last() == segs@[i as int]@);
        }
        let s = &segs[i];
        if !(s.len() == 0 || is_dot(s)) {
            r.push(slice_of(s, 0, s.len()));
        }
        i = i + 1;
    }
    r
}

pub fn components_of(p: &Vec<char>) -> (r: Vec<Vec<char>>)
    ensures
        r@.len() == components(p@).len(),
        forall|i: int| 0 <= i < r@.len() ==> #[trigger] r@[i]@ == components(p@)[i],
{
    let segs = split_exec(p, '/');
    let ghost sv = segs@.map_values(|v: Vec<char>| v@);
    proof {
        lemma_split_nonempty(p@, '/');
        assert(sv =~= split(p@, '/'));
        assert(segs@.subrange(0, segs@.len() as int) =~= segs@);
        assert(segs@.subrange(1, segs@.len() as int).map_values(|v: Vec<char>| v@) =~= sv.drop_first());
    }
    if p.len() > 0 && p[0] == '/' {
        let mut r: Vec<Vec<char>> = Vec::new();
        r.push(vec!['/']);
        let rest = names_exec(&segs, 1);
        let ghost head = r@;
        let mut rest = rest;
        let ghost rv = rest@;
        r.append(&mut rest);
        proof {
            assert(r@ == head + rv);
            assert(head[0]@ =~= seq!['/']);
        }
        r
    } else if is_dot(&segs[0]) {
        let mut r: Vec<Vec<char>> = Vec::new();
        r.push(vec!['.']);
        let rest = names_exec(&segs, 1);
        let ghost head = r@;
        let mut rest = rest;
        let ghost rv = rest@;
        r.append(&mut rest);
        proof {
            assert(r@ == head + rv);
            assert(head[0]@ =~= dot());
        }
        r
    } else {
        names_exec(&segs, 0)
    }
}

pub fn path_starts_with_exec(p: &Vec<char>, base: &Vec<char>) -> (r: bool)
    ensures
        r == path_starts_with(p@, base@),
{
    let a = components_of(p);
    let b = components_of(base);
    if b.len() > a.len() {
        return false;
    }
    let n = b.len();
    for i in 0..n
        invariant
            n == b@.len() <= a@.len(),
            a@.len() == components(p@).len(),
            b@.len() == components(base@).len(),
            forall|k: int| 0 <= k < a@.len() ==> #[trigger] a@[k]@ == components(p@)[k],
            forall|k: int| 0 <= k < b@.len() ==> #[trigger] b@[k]@ == components(base@)[k],
            forall|k: int| 0 <= k < i ==> components(p@)[k] == components(base@)[k],
    {
        if !crate::text::same_chars(&a[i], &b[i]) {
            assert(components(p@).subrange(0, n as int)[i as int] == components(p@)[i as int]);
            return false;
        }
    }
    assert(components(p@).subrange(0, n as int) =~= components(base@));
    true
}

/// The directory part of a clean relative path (all pieces named): the text before
/// its last `/`, or `""`.  For such paths this is `Path::parent`.
pub open spec fn clean_parent(p: Seq<char>) -> Seq<char> {
    let d = last_index_of(p, '/');
    if d < 0 {
        Seq::empty()
    } else {
        p.subrange(0, d)
    }
}

pub fn clean_parent_of(p: &Vec<char>) -> (r: Vec<char>)
    ensures
        r@ == clean_parent(p@),
{
    proof {
        lemma_last_index_of(p@, '/');
    }
    match last_index_of_exec(p, '/') {
        None => Vec::new(),
        Some(d) => slice_of(p, 0, d),
    }
}

/// `c` replaced by `by` throughout.
pub open spec fn replace_char(s: Seq<char>, c: char, by: char) -> Seq<char> {
    Seq::new(s.len(), |i: int| if s[i] == c { by } else { s[i] })
}

pub fn replace_char_exec(s: &Vec<char>, c: char, by: char) -> (r: Vec<char>)
    ensures
        r@ == replace_char(s@, c, by),
{
    let mut r: Vec<char> = Vec::new();
    let n = s.len();
    for i in 0..n
        invariant
            n == s@.len(),
            r@ == replace_char(s@, c, by).take(i as int),
    {
        let x = if s[i] == c { by } else { s[i] };
        r.push(x);
        assert(replace_char(s@, c, by).take(i + 1) =~= replace_char(s@, c, by).take(i as int).push(x));
    }
    assert(replace_char(s@, c, by).take(n as int) =~= replace_char(s@, c, by));
    r
}

} // verus!
