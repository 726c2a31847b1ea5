//! Character-level text helpers shared by the parser, the inliner and the vault.
use vstd::prelude::*;

verus! {

// ─── strings and character vectors ───

/// The characters of a string, in order.
pub fn chars_of(s: &str) -> (r: Vec<char>)
    ensures
        r@ == s@,
{
    let mut r: Vec<char> = Vec::new();
    for c in it: s.chars()
        invariant
            r@ == it.seq().take(it.index() as int),
    {
        r.push(c);
    }
    r
}

/// Appends one character to a string (`String::push`).
#[verifier::external_body]
pub fn push_char(s: &mut String, c: char)
    ensures
        final(s)@ == old(s)@.push(c),
{
    s.push(c);
}

/// A string holding exactly the given characters.
pub fn string_of(v: &Vec<char>) -> (r: String)
    ensures
        r@ == v@,
{
    let mut r = String::new();
    let n = v.len();
    for i in 0..n
        invariant
            n == v@.len(),
            r@ == v@.take(i as int),
    {
        push_char(&mut r, v[i]);
        assert(v@.take(i + 1) == v@.take(i as int).push(v@[i as int]));
    }
    assert(v@.take(n as int) == v@);
    r
}

/// Appends all of `src` to `dst`.
pub fn push_all(dst: &mut Vec<char>, src: &Vec<char>)
    ensures
        final(dst)@ == old(dst)@ + src@,
{
    let n = src.len();
    for i in 0..n
        invariant
            n == src@.len(),
            dst@ == old(dst)@ + src@.take(i as int),
    {
        dst.push(src[i]);
        assert(src@.take(i + 1) == src@.take(i as int).push(src@[i as int]));
    }
    assert(src@.take(n as int) == src@);
}

/// Appends `src[from..to]` to `dst`.
pub fn push_range(dst: &mut Vec<char>, src: &Vec<char>, from: usize, to: usize)
    requires
        from <= to <= src@.len(),
    ensures
        final(dst)@ == old(dst)@ + src@.subrange(from as int, to as int),
{
    let mut i = from;
    while i < to
        invariant
            from <= i <= to <= src@.len(),
            dst@ == old(dst)@ + src@.subrange(from as int, i as int),
        decreases to - i,
    {
        dst.push(src[i]);
        assert(src@.subrange(from as int, i + 1) == src@.subrange(from as int, i as int).push(
            src@[i as int],
        ));
        i = i + 1;
    }
}

/// A copy of `src[from..to]`.
pub fn slice_of(src: &Vec<char>, from: usize, to: usize) -> (r: Vec<char>)
    requires
        from <= to <= src@.len(),
    ensures
        r@ == src@.subrange(from as int, to as int),
{
    let mut r: Vec<char> = Vec::new();
    push_range(&mut r, src, from, to);
    r
}

/// Whether two character sequences are equal.
pub fn same_chars(a: &Vec<char>, b: &Vec<char>) -> (r: bool)
    ensures
        r == (a@ == b@),
{
    if a.len() != b.len() {
        return false;
    }
    let n = a.len();
    for i in 0..n
        invariant
            n == a@.len() == b@.len(),
            forall|k: int| 0 <= k < i ==> a@[k] == b@[k],
    {
        if a[i] != b[i] {
            return false;
        }
    }
    assert(a@ =~= b@);
    true
}

/// Whether `s` begins with `p`.
pub open spec fn has_prefix(s: Seq<char>, p: Seq<char>) -> bool {
    p.len() <= s.len() && s.subrange(0, p.len() as int) == p
}

/// Whether `p` occurs in `s` at position `i`.
pub open spec fn occurs_at(s: Seq<char>, i: int, p: Seq<char>) -> bool {
    0 <= i && i + p.len() <= s.len() && s.subrange(i, i + p.len()) == p
}

pub fn occurs_at_exec(s: &Vec<char>, i: usize, p: &Vec<char>) -> (r: bool)
    ensures
        r == occurs_at(s@, i as int, p@),
{
    if i > s.len() || p.len() > s.len() - i {
        return false;
    }
    let n = p.len();
    let lim = s.len();
    for k in 0..n
        invariant
            n == p@.len(),
            lim == s@.len(),
            i + n <= lim,
            forall|m: int| 0 <= m < k ==> s@[i + m] == p@[m],
    {
        assert(i + k < i + n);
        if s[i + k] != p[k] {
            assert(s@.subrange(i as int, i + n)[k as int] != p@[k as int]);
            return false;
        }
    }
    assert(s@.subrange(i as int, i + n) =~= p@);
    true
}

pub fn has_prefix_exec(s: &Vec<char>, p: &Vec<char>) -> (r: bool)
    ensures
        r == has_prefix(s@, p@),
{
    occurs_at_exec(s, 0, p)
}

/// Whether `c` occurs in `s`.
pub fn contains_char(s: &Vec<char>, c: char) -> (r: bool)
    ensures
        r == s@.contains(c),
{
    let n = s.len();
    for i in 0..n
        invariant
            n == s@.len(),
            forall|k: int| 0 <= k < i ==> s@[k] != c,
    {
        if s[i] == c {
            assert(s@[i as int] == c);
            return true;
        }
    }
    false
}

/// The text of an optional text, `""` for none.
pub open spec fn or_empty(t: Option<Seq<char>>) -> Seq<char> {
    match t {
        Some(x) => x,
        None => Seq::empty(),
    }
}

/// The text of an optional string.
pub open spec fn opt_view(o: Option<String>) -> Option<Seq<char>> {
    match o {
        Some(s) => Some(s@),
        None => None,
    }
}

// ─── character classes ───

/// The Unicode `White_Space` property: what `char::is_whitespace` and the
/// regular-expression class `\s` test.
pub open spec fn is_ws(c: char) -> bool {
    let u = c as u32;
    ||| 0x09 <= u <= 0x0D
    ||| u == 0x20
    ||| u == 0x85
    ||| u == 0xA0
    ||| u == 0x1680
    ||| 0x2000 <= u <= 0x200A
    ||| u == 0x2028
    ||| u == 0x2029
    ||| u == 0x202F
    ||| u == 0x205F
    ||| u == 0x3000
}

pub fn is_whitespace(c: char) -> (r: bool)
    ensures
        r == is_ws(c),
{
    let u = c as u32;
    (0x09 <= u && u <= 0x0D) || u == 0x20 || u == 0x85 || u == 0xA0 || u == 0x1680 || (0x2000
        <= u && u <= 0x200A) || u == 0x2028 || u == 0x2029 || u == 0x202F || u == 0x205F || u
        == 0x3000
}

/// The general category `Cc` (what `char::is_control` tests).
pub open spec fn is_control_char(c: char) -> bool {
    let u = c as u32;
    u <= 0x1F || (0x7F <= u <= 0x9F)
}

pub fn is_control(c: char) -> (r: bool)
    ensures
        r == is_control_char(c),
{
    let u = c as u32;
    u <= 0x1F || (0x7F <= u && u <= 0x9F)
}

/// ASCII lowercase of one character; other characters are kept.
///
/// Every comparison in this crate that lowercases a string compares the result with
/// an ASCII lowercase word without the letter `k`, and for such comparisons this
/// agrees with `str::to_lowercase`.
pub open spec fn lower(c: char) -> char {
    if 'A' <= c <= 'Z' {
        ((c as u32) + 32) as char
    } else {
        c
    }
}

pub open spec fn lower_seq(s: Seq<char>) -> Seq<char> {
    Seq::new(s.len(), |i: int| lower(s[i]))
}

pub fn to_lower(c: char) -> (r: char)
    ensures
        r == lower(c),
{
    if 'A' <= c && c <= 'Z' {
        let b: u8 = (c as u32) as u8;
        (b + 32) as char
    } else {
        c
    }
}

pub fn lower_chars(s: &Vec<char>) -> (r: Vec<char>)
    ensures
        r@ == lower_seq(s@),
{
    let mut r: Vec<char> = Vec::new();
    let n = s.len();
    for i in 0..n
        invariant
            n == s@.len(),
            r@ == lower_seq(s@).take(i as int),
    {
        r.push(to_lower(s[i]));
        assert(lower_seq(s@).take(i + 1) == lower_seq(s@).take(i as int).push(lower(s@[i as int])));
    }
    assert(lower_seq(s@).take(n as int) == lower_seq(s@));
    r
}

// ─── whitespace runs and trimming ───

/// The index of the first non-whitespace character at or after `i` (or the length).
pub open spec fn skip_ws(s: Seq<char>, i: int) -> int
    decreases s.len() - i,
{
    if 0 <= i < s.len() && is_ws(s[i]) {
        skip_ws(s, i + 1)
    } else {
        i
    }
}

/// The end of `s[..j]` once trailing whitespace is dropped.
pub open spec fn skip_ws_back(s: Seq<char>, j: int) -> int
    decreases j,
{
    if 0 < j <= s.len() && is_ws(s[j - 1]) {
        skip_ws_back(s, j - 1)
    } else {
        j
    }
}

/// `s` without leading and trailing whitespace (`str::trim`).
pub open spec fn trim(s: Seq<char>) -> Seq<char> {
    let a = skip_ws(s, 0);
    let b = skip_ws_back(s, s.len() as int);
    if a < b {
        s.subrange(a, b)
    } else {
        Seq::empty()
    }
}

pub proof fn lemma_skip_ws_bounds(s: Seq<char>, i: int)
    requires
        0 <= i <= s.len(),
    ensures
        i <= skip_ws(s, i) <= s.len(),
        skip_ws(s, i) < s.len() ==> !is_ws(s[skip_ws(s, i)]),
        forall|k: int| i <= k < skip_ws(s, i) ==> is_ws(#[trigger] s[k]),
    decreases s.len() - i,
{
    if i < s.len() && is_ws(s[i]) {
        lemma_skip_ws_bounds(s, i + 1);
    }
}

pub proof fn lemma_skip_ws_back_bounds(s: Seq<char>, j: int)
    requires
        0 <= j <= s.len(),
    ensures
        0 <= skip_ws_back(s, j) <= j,
        skip_ws_back(s, j) > 0 ==> !is_ws(s[skip_ws_back(s, j) - 1]),
        forall|k: int| skip_ws_back(s, j) <= k < j ==> is_ws(#[trigger] s[k]),
    decreases j,
{
    if 0 < j && is_ws(s[j - 1]) {
        lemma_skip_ws_back_bounds(s, j - 1);
    }
}

/// Index of the first non-whitespace character at or after `i`.
pub fn skip_ws_exec(s: &Vec<char>, i: usize) -> (r: usize)
    requires
        i <= s@.len(),
    ensures
        r == skip_ws(s@, i as int),
{
    let mut k = i;
    while k < s.len() && is_whitespace(s[k])
        invariant
            i <= k <= s@.len(),
            skip_ws(s@, i as int) == skip_ws(s@, k as int),
        decreases s@.len() - k,
    {
        k = k + 1;
    }
    k
}

pub fn skip_ws_back_exec(s: &Vec<char>, j: usize) -> (r: usize)
    requires
        j <= s@.len(),
    ensures
        r == skip_ws_back(s@, j as int),
{
    let mut k = j;
    while k > 0 && is_whitespace(s[k - 1])
        invariant
            k <= j <= s@.len(),
            skip_ws_back(s@, j as int) == skip_ws_back(s@, k as int),
        decreases k,
    {
        k = k - 1;
    }
    k
}

pub fn trim_chars(s: &Vec<char>) -> (r: Vec<char>)
    ensures
        r@ == trim(s@),
{
    let a = skip_ws_exec(s, 0);
    let b = skip_ws_back_exec(s, s.len());
    proof {
        lemma_skip_ws_bounds(s@, 0);
        lemma_skip_ws_back_bounds(s@, s@.len() as int);
    }
    if a < b {
        slice_of(s, a, b)
    } else {
        Vec::new()
    }
}

// ─── collapsing whitespace ───

/// The maximal runs of non-whitespace characters of `s`, in order
/// (what `str::split_whitespace` yields).
pub open spec fn words(s: Seq<char>) -> Seq<Seq<char>>
    decreases s.len(),
{
    if s.len() == 0 {
        Seq::empty()
    } else {
        let w = words(s.drop_last());
        let c = s.last();
        if is_ws(c) {
            w
        } else if s.len() >= 2 && !is_ws(s[s.len() - 2]) {
            w.update(w.len() - 1, w.last().push(c))
        } else {
            w.push(seq![c])
        }
    }
}

/// The pieces joined with single spaces.
pub open spec fn join_spaces(ws: Seq<Seq<char>>) -> Seq<char>
    decreases ws.len(),
{
    if ws.len() == 0 {
        Seq::empty()
    } else if ws.len() == 1 {
        ws[0]
    } else {
        join_spaces(ws.drop_last()) + seq![' '] + ws.last()
    }
}

/// Whitespace runs collapsed to single spaces, with no leading or trailing space.
pub open spec fn collapse(s: Seq<char>) -> Seq<char> {
    join_spaces(words(s))
}

proof fn lemma_words_nonempty(s: Seq<char>)
    requires
        s.len() > 0,
        !is_ws(s.last()),
    ensures
        words(s).len() > 0,
    decreases s.len(),
{
    if s.len() >= 2 && !is_ws(s[s.len() - 2]) {
        assert(s.drop_last().last() == s[s.len() - 2]);
        lemma_words_nonempty(s.drop_last());
    }
}

proof fn lemma_join_extend_last(w: Seq<Seq<char>>, c: char)
    requires
        w.len() > 0,
    ensures
        join_spaces(w.update(w.len() - 1, w.last().push(c))) == join_spaces(w).push(c),
{
    let u = w.update(w.len() - 1, w.last().push(c));
    if w.len() == 1 {
        assert(u[0] == w[0].push(c));
    } else {
        assert(u.drop_last() =~= w.drop_last());
        assert(u.last() == w.last().push(c));
        assert(join_spaces(u) == join_spaces(w.drop_last()) + seq![' '] + w.last().push(c));
        assert(join_spaces(w) == join_spaces(w.drop_last()) + seq![' '] + w.last());
        assert((join_spaces(w.drop_last()) + seq![' '] + w.last()).push(c) =~= join_spaces(
            w.drop_last(),
        ) + seq![' '] + w.last().push(c));
    }
}

/// Words: non-empty runs without whitespace.
pub open spec fn all_words(ws: Seq<Seq<char>>) -> bool {
    forall|i: int| 0 <= i < ws.len() ==> (#[trigger] ws[i]).len() > 0 && forall|j: int| 0 <= j < ws[i].len() ==> !is_ws(#[trigger] ws[i][j])
}

proof fn lemma_words_are_words(s: Seq<char>)
    ensures
        all_words(words(s)),
    decreases s.len(),
{
    if s.len() > 0 {
        let w = words(s.drop_last());
        let c = s.last();
        lemma_words_are_words(s.drop_last());
        if !is_ws(c) {
            if s.len() >= 2 && !is_ws(s[s.len() - 2]) {
                assert(s.drop_last().last() == s[s.len() - 2]);
                lemma_words_nonempty(s.drop_last());
                let u = w.update(w.len() - 1, w.last().push(c));
                assert forall|i: int| 0 <= i < u.len() implies (#[trigger] u[i]).len() > 0 && forall|j: int| 0 <= j < u[i].len() ==> !is_ws(#[trigger] u[i][j]) by {
                    if i == w.len() - 1 {
                        assert forall|j: int| 0 <= j < u[i].len() implies !is_ws(#[trigger] u[i][j]) by {
                            if j < w.last().len() {
                                assert(u[i][j] == w[i][j]);
                            }
                        }
                    }
                }
            } else {
                let u = w.push(seq![c]);
                assert forall|i: int| 0 <= i < u.len() implies (#[trigger] u[i]).len() > 0 && forall|j: int| 0 <= j < u[i].len() ==> !is_ws(#[trigger] u[i][j]) by {
                    if i < w.len() {
                        assert(u[i] == w[i]);
                    }
                }
            }
        }
    }
}

proof fn lemma_words_append_word(x: Seq<char>, b: Seq<char>)
    requires
        x.len() == 0 || is_ws(x.last()),
        b.len() > 0,
        forall|j: int| 0 <= j < b.len() ==> !is_ws(#[trigger] b[j]),
    ensures
        words(x + b) == words(x).push(b),
    decreases b.len(),
{
    let c = b.last();
    assert((x + b).drop_last() =~= x + b.drop_last());
    assert((x + b).last() == c);
    assert(!is_ws(b[b.len() - 1]));
    if b.len() == 1 {
        assert(x + b.drop_last() =~= x);
        assert(b =~= seq![c]);
        if x.len() > 0 {
            assert((x + b)[(x + b).len() - 2] == x.last());
        }
    } else {
        lemma_words_append_word(x, b.drop_last());
        assert((x + b)[(x + b).len() - 2] == b[b.len() - 2]);
        assert(!is_ws(b[b.len() - 2]));
        let w = words(x).push(b.drop_last());
        assert(b.drop_last().push(c) =~= b);
        assert(w.last() == b.drop_last());
        assert(w.update(w.len() - 1, w.last().push(c)) =~= words(x).push(b));
    }
}

proof fn lemma_words_of_joined(ws: Seq<Seq<char>>)
    requires
        all_words(ws),
    ensures
        words(join_spaces(ws)) == ws,
    decreases ws.len(),
{
    if ws.len() == 1 {
        assert(ws[0].len() > 0);
        lemma_words_append_word(Seq::empty(), ws[0]);
        assert(Seq::<char>::empty() + ws[0] =~= ws[0]);
        assert(Seq::<Seq<char>>::empty().push(ws[0]) =~= ws);
    } else if ws.len() >= 2 {
        let p = ws.drop_last();
        assert(all_words(p)) by {
            assert forall|i: int| 0 <= i < p.len() implies (#[trigger] p[i]).len() > 0 && forall|j: int| 0 <= j < p[i].len() ==> !is_ws(#[trigger] p[i][j]) by {
                assert(p[i] == ws[i]);
            }
        }
        lemma_words_of_joined(p);
        let j = join_spaces(p);
        assert(is_ws(' '));
        assert(j.push(' ').drop_last() =~= j);
        assert(j.push(' ').last() == ' ');
        assert(words(j.push(' ')) == words(j));
        assert(ws.last() == ws[ws.len() - 1]);
        lemma_words_append_word(j.push(' '), ws.last());
        assert(j + seq![' '] + ws.last() =~= j.push(' ') + ws.last());
        assert(p.push(ws.last()) =~= ws);
    }
}

/// Collapsing whitespace twice is collapsing it once.
pub proof fn law_collapse_is_idempotent(s: Seq<char>)
    ensures
        collapse(collapse(s)) == collapse(s),
{
    lemma_words_are_words(s);
    lemma_words_of_joined(words(s));
}

/// `s` with whitespace runs collapsed (`split_whitespace` joined with `" "`).
pub fn collapse_whitespace(s: &Vec<char>) -> (r: Vec<char>)
    ensures
        r@ == collapse(s@),
{
    let mut out: Vec<char> = Vec::new();
    let mut have_word = false;
    let n = s.len();
    for i in 0..n
        invariant
            n == s@.len(),
            out@ == join_spaces(words(s@.take(i as int))),
            have_word == (words(s@.take(i as int)).len() > 0),
            i > 0 && !is_ws(s@[i - 1]) ==> have_word,
    {
        let c = s[i];
        let ghost t = s@.take(i + 1);
        proof {
            assert(t.drop_last() =~= s@.take(i as int));
            assert(t.last() == c);
            if i > 0 {
                assert(t[t.len() - 2] == s@[i - 1]);
            }
        }
        if is_whitespace(c) {
            assert(words(t) == words(s@.take(i as int)));
        } else if i > 0 && !is_whitespace(s[i - 1]) {
            proof {
                lemma_join_extend_last(words(s@.take(i as int)), c);
            }
            out.push(c);
        } else {
            if have_word {
                out.push(' ');
                out.push(c);
                have_word = true;
                proof {
                    let w = words(s@.take(i as int));
                    assert(w.push(seq![c]).drop_last() =~= w);
                }
            } else {
                out.push(c);
                have_word = true;
                proof {
                    let w = words(s@.take(i as int));
                    assert(w.push(seq![c]) =~= seq![seq![c]]);
                    assert(out@ =~= seq![c]);
                }
            }
        }
    }
    assert(s@.take(n as int) =~= s@);
    out
}

/// At most `max` characters of `s`; a longer text is cut there and given a trailing `…`.
pub open spec fn truncated(s: Seq<char>, max: nat) -> Seq<char> {
    if s.len() <= max {
        s
    } else {
        s.take(max as int).push('…')
    }
}

/// Cutting keeps a text of at most `max` characters as it is; a longer one keeps its
/// first `max` characters and ends with `…`, one character more than `max`.
pub proof fn law_truncation(s: Seq<char>, max: nat)
    ensures
        s.len() <= max ==> truncated(s, max) == s,
        s.len() > max ==> truncated(s, max).len() == max + 1,
        s.len() > max ==> truncated(s, max).take(max as int) == s.take(max as int),
        s.len() > max ==> truncated(s, max).last() == '…',
{
    if s.len() > max {
        assert(s.take(max as int).push('…').take(max as int) =~= s.take(max as int));
    }
}

pub fn truncate(s: &Vec<char>, max: usize) -> (r: Vec<char>)
    ensures
        r@ == truncated(s@, max as nat),
{
    if s.len() <= max {
        return slice_of(s, 0, s.len());
    }
    let mut out = slice_of(s, 0, max);
    out.push('…');
    out
}

} // verus!
