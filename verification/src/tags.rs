//! Recognisers for the tag and `url(…)` shapes the inliner rewrites.
//!
//! Each shape is a pattern in the syntax of regular expressions; the spec functions
//! below state which text each one matches under leftmost-first matching, and which
//! parts it captures.
//!
//! - stylesheet link: `(?is)<link\b[^>]*?\bhref\s*=\s*("([^"]*)"|'([^']*)')[^>]*?/?>`
//! - image:           `(?is)<img\b[^>]*?\bsrc\s*=\s*("([^"]*)"|'([^']*)')[^>]*?/?>`
//! - script:          `(?is)<script\b([^>]*)>\s*</script>`
//! - CSS url:         `url\(\s*(['"]?)([^'")]+)(['"]?)\s*\)`
//! - attribute:       `(?i)\b{name}\s*=\s*("([^"]*)"|'([^']*)')`
use vstd::prelude::*;
use crate::text::{is_ws, skip_ws, skip_ws_exec, lemma_skip_ws_bounds, slice_of, occurs_at, occurs_at_exec};

verus! {

// ─── characters ───

/// Case-insensitive equality with a pattern character, under the simple case folding
/// of regular expressions: an ASCII lowercase letter also matches its capital, and
/// `k` and `s` also match KELVIN SIGN and LATIN SMALL LETTER LONG S.
pub open spec fn ci_char(c: char, l: char) -> bool {
    if 'a' <= l <= 'z' {
        ||| c == l
        ||| (c as u32) + 32 == (l as u32)
        ||| (l == 'k' && c == '\u{212A}')
        ||| (l == 's' && c == '\u{17F}')
    } else {
        c == l
    }
}

pub fn ci_char_exec(c: char, l: char) -> (r: bool)
    ensures
        r == ci_char(c, l),
{
    if 'a' <= l && l <= 'z' {
        c == l || (c as u32) + 32 == (l as u32) || (l == 'k' && c == '\u{212A}') || (l == 's'
            && c == '\u{17F}')
    } else {
        c == l
    }
}

/// `lit` occurs at `i`, case-insensitively.
pub open spec fn ci_at(t: Seq<char>, i: int, lit: Seq<char>) -> bool {
    &&& 0 <= i
    &&& i + lit.len() <= t.len()
    &&& forall|k: int| 0 <= k < lit.len() ==> ci_char(t[i + k], #[trigger] lit[k])
}

pub fn ci_at_exec(t: &Vec<char>, i: usize, lit: &Vec<char>) -> (r: bool)
    ensures
        r == ci_at(t@, i as int, lit@),
{
    if i > t.len() || lit.len() > t.len() - i {
        return false;
    }
    let n = lit.len();
    let lim = t.len();
    for k in 0..n
        invariant
            n == lit@.len(),
            lim == t@.len(),
            i + n <= lim,
            forall|m: int| 0 <= m < k ==> ci_char(t@[i + m], #[trigger] lit@[m]),
    {
        assert(i + k < i + n);
        if !ci_char_exec(t[i + k], lit[k]) {
            assert(!ci_char(t@[i + k], lit@[k as int]));
            return false;
        }
    }
    true
}

/// Membership in the Unicode word class `\w` that the boundary `\b` is built on.
pub uninterp spec fn unicode_word_char(c: char) -> bool;

pub open spec fn ascii_word(c: char) -> bool {
    ('0' <= c <= '9') || ('A' <= c <= 'Z') || ('a' <= c <= 'z') || c == '_'
}

/// `regex_syntax::is_word_character`: whether `c` is a Unicode word character
/// (UTS#18 Annex C); the claim is that it computes `unicode_word_char`, and that on
/// ASCII it is the class `[0-9A-Za-z_]`.
#[verifier::external_body]
fn is_word_char(c: char) -> (r: bool)
    ensures
        r == unicode_word_char(c),
        (c as u32) < 128 ==> (r == ascii_word(c)),
{
    regex_syntax::is_word_character(c)
}

/// Membership in `\w`: `[0-9A-Za-z_]` on ASCII, the Unicode word class elsewhere.
pub open spec fn word_char(c: char) -> bool {
    if (c as u32) < 128 {
        ascii_word(c)
    } else {
        unicode_word_char(c)
    }
}

pub open spec fn word_before(t: Seq<char>, i: int) -> bool {
    0 < i <= t.len() && word_char(t[i - 1])
}

pub open spec fn word_after(t: Seq<char>, i: int) -> bool {
    0 <= i < t.len() && word_char(t[i])
}

/// The word boundary `\b` at position `i`.
pub open spec fn boundary(t: Seq<char>, i: int) -> bool {
    word_before(t, i) != word_after(t, i)
}

pub fn boundary_exec(t: &Vec<char>, i: usize) -> (r: bool)
    ensures
        r == boundary(t@, i as int),
{
    let before = if 0 < i && i <= t.len() {
        is_word_char(t[i - 1])
    } else {
        false
    };
    let after = if i < t.len() {
        is_word_char(t[i])
    } else {
        false
    };
    before != after
}

// ─── finding characters and quoted values ───

/// The first index at or after `i` holding `c`.
pub open spec fn find_char(t: Seq<char>, i: int, c: char) -> Option<int>
    decreases t.len() - i,
{
    if 0 <= i < t.len() {
        if t[i] == c {
            Some(i)
        } else {
            find_char(t, i + 1, c)
        }
    } else {
        None
    }
}

pub proof fn lemma_find_char(t: Seq<char>, i: int, c: char)
    ensures
        find_char(t, i, c) matches Some(j) ==> i <= j < t.len() && t[j] == c,
        find_char(t, i, c) matches Some(j) ==> forall|k: int| i <= k < j ==> #[trigger] t[k] != c,
        (find_char(t, i, c) is None && 0 <= i) ==> forall|k: int| i <= k < t.len() ==> #[trigger] t[k] != c,
    decreases t.len() - i,
{
    if 0 <= i < t.len() && t[i] != c {
        lemma_find_char(t, i + 1, c);
    }
}

pub fn find_char_exec(t: &Vec<char>, i: usize, c: char) -> (r: Option<usize>)
    ensures
        r matches Some(j) ==> find_char(t@, i as int, c) == Some(j as int),
        r is None ==> find_char(t@, i as int, c) is None,
{
    let mut k = i;
    while k < t.len()
        invariant
            i <= k,
            find_char(t@, i as int, c) == find_char(t@, k as int, c),
        decreases t@.len() - k,
    {
        if t[k] == c {
            return Some(k);
        }
        k = k + 1;
    }
    None
}

pub open spec fn is_quote(c: char) -> bool {
    c == '"' || c == '\''
}

/// A value in double or single quotes starting at `i`: the index after its closing
/// quote, and the text between the quotes.
pub open spec fn quoted_at(t: Seq<char>, i: int) -> Option<(int, Seq<char>)> {
    if 0 <= i < t.len() && is_quote(t[i]) {
        match find_char(t, i + 1, t[i]) {
            Some(j) => Some((j + 1, t.subrange(i + 1, j))),
            None => None,
        }
    } else {
        None
    }
}

pub fn quoted_at_exec(t: &Vec<char>, i: usize) -> (r: Option<(usize, Vec<char>)>)
    ensures
        r matches Some((e, v)) ==> quoted_at(t@, i as int) == Some((e as int, v@)),
        r is None ==> quoted_at(t@, i as int) is None,
{
    if i < t.len() && (t[i] == '"' || t[i] == '\'') {
        proof {
            lemma_find_char(t@, i + 1, t@[i as int]);
        }
        match find_char_exec(t, i + 1, t[i]) {
            Some(j) => Some((j + 1, slice_of(t, i + 1, j))),
            None => None,
        }
    } else {
        None
    }
}

// ─── attributes ───

/// `\b{name}\s*=\s*` followed by a quoted value, at `p`: the end of the value and its text.
pub open spec fn attr_at(t: Seq<char>, p: int, name: Seq<char>) -> Option<(int, Seq<char>)> {
    if boundary(t, p) && ci_at(t, p, name) {
        let q = skip_ws(t, p + name.len());
        if q < t.len() && t[q] == '=' {
            quoted_at(t, skip_ws(t, q + 1))
        } else {
            None
        }
    } else {
        None
    }
}

pub proof fn lemma_attr_at(t: Seq<char>, p: int, name: Seq<char>)
    ensures
        attr_at(t, p, name) matches Some((e, v)) ==> p < e <= t.len(),
        attr_at(t, p, name) matches Some((e, v)) ==> p < e - 1 - v.len() && t.subrange(e - 1 - v.len(), e - 1) == v,
{
    if boundary(t, p) && ci_at(t, p, name) {
        lemma_skip_ws_bounds(t, p + name.len());
        let q = skip_ws(t, p + name.len());
        if q < t.len() && t[q] == '=' {
            lemma_skip_ws_bounds(t, q + 1);
            let r = skip_ws(t, q + 1);
            if 0 <= r < t.len() && is_quote(t[r]) {
                lemma_find_char(t, r + 1, t[r]);
            }
        }
    }
}

pub fn attr_at_exec(t: &Vec<char>, p: usize, name: &Vec<char>) -> (r: Option<(usize, Vec<char>)>)
    ensures
        r matches Some((e, v)) ==> attr_at(t@, p as int, name@) == Some((e as int, v@)),
        r is None ==> attr_at(t@, p as int, name@) is None,
{
    let tl = t.len();
    if boundary_exec(t, p) && ci_at_exec(t, p, name) {
        assert(p + name@.len() <= tl);
        let q = skip_ws_exec(t, p + name.len());
        if q < t.len() && t[q] == '=' {
            proof {
                lemma_skip_ws_bounds(t@, q + 1);
            }
            let r = skip_ws_exec(t, q + 1);
            quoted_at_exec(t, r)
        } else {
            None
        }
    } else {
        None
    }
}

/// The value of the leftmost `name="…"` or `name='…'` attribute at or after `p`
/// (names compared case-insensitively).
pub open spec fn attr_from(t: Seq<char>, p: int, name: Seq<char>) -> Option<Seq<char>>
    decreases t.len() - p,
{
    if 0 <= p <= t.len() {
        match attr_at(t, p, name) {
            Some((_, v)) => Some(v),
            None => if p < t.len() {
                attr_from(t, p + 1, name)
            } else {
                None
            },
        }
    } else {
        None
    }
}

/// The value of the attribute `name` in a run of attributes: the quoted text of its
/// leftmost `name="…"` or `name='…'` (a word boundary before the name, whitespace
/// allowed around `=`, the name in any case).
pub open spec fn attr_of(t: Seq<char>, name: Seq<char>) -> Option<Seq<char>> {
    attr_from(t, 0, name)
}

pub fn attr_value_exec(t: &Vec<char>, name: &Vec<char>) -> (r: Option<Vec<char>>)
    ensures
        r matches Some(v) ==> attr_of(t@, name@) == Some(v@),
        r is None ==> attr_of(t@, name@) is None,
{
    let mut p: usize = 0;
    loop
        invariant
            p <= t@.len(),
            attr_of(t@, name@) == attr_from(t@, p as int, name@),
        decreases t@.len() - p,
    {
        match attr_at_exec(t, p, name) {
            Some((_, v)) => {
                return Some(v);
            },
            None => {
                if p < t.len() {
                    p = p + 1;
                } else {
                    return None;
                }
            },
        }
    }
}

/// The leftmost `name="…"` or `name='…'` attribute at or after `p`: where it starts,
/// where it ends (just past the closing quote), and its value.
pub open spec fn attr_match_from(t: Seq<char>, p: int, name: Seq<char>) -> Option<(int, int, Seq<char>)>
    decreases t.len() - p,
{
    if 0 <= p <= t.len() {
        match attr_at(t, p, name) {
            Some((e, v)) => Some((p, e, v)),
            None => if p < t.len() {
                attr_match_from(t, p + 1, name)
            } else {
                None
            },
        }
    } else {
        None
    }
}

/// The leftmost attribute `name` in a run of attributes (the one whose value
/// `attr_of` gives): start, end, value.
pub open spec fn attr_match(t: Seq<char>, name: Seq<char>) -> Option<(int, int, Seq<char>)> {
    attr_match_from(t, 0, name)
}

pub proof fn lemma_attr_match_from(t: Seq<char>, p: int, name: Seq<char>)
    requires
        0 <= p,
    ensures
        attr_match_from(t, p, name) matches Some((s, e, v)) ==> {
            &&& p <= s < e - 1 - v.len()
            &&& e <= t.len()
            &&& t.subrange(e - 1 - v.len(), e - 1) == v
            &&& attr_at(t, s, name) == Some((e, v))
        },
        match attr_match_from(t, p, name) {
            Some((_, _, v)) => attr_from(t, p, name) == Some(v),
            None => attr_from(t, p, name) is None,
        },
    decreases t.len() - p,
{
    if p <= t.len() {
        lemma_attr_at(t, p, name);
        if attr_at(t, p, name) is None && p < t.len() {
            lemma_attr_match_from(t, p + 1, name);
        }
    }
}

pub fn attr_match_exec(t: &Vec<char>, name: &Vec<char>) -> (r: Option<(usize, usize, Vec<char>)>)
    ensures
        match r {
            Some((s, e, v)) => attr_match(t@, name@) == Some((s as int, e as int, v@)),
            None => attr_match(t@, name@) is None,
        },
{
    let mut p: usize = 0;
    loop
        invariant
            p <= t@.len(),
            attr_match(t@, name@) == attr_match_from(t@, p as int, name@),
        decreases t@.len() - p,
    {
        match attr_at_exec(t, p, name) {
            Some((e, v)) => {
                return Some((p, e, v));
            },
            None => {
                if p < t.len() {
                    p = p + 1;
                } else {
                    return None;
                }
            },
        }
    }
}

// ─── link and image tags ───

/// A match found by one of the patterns: where it ends and what it captured.
pub struct Hit {
    pub end: usize,
    pub g1: Vec<char>,
    pub g2: Vec<char>,
    pub g3: Vec<char>,
}

/// The part of a link or image tag after its name, from `p`: `[^>]*?` up to the
/// first place where `name="…"` (or `'…'`) starts and a `>` follows the value.
/// Gives the end of the tag (just past that `>`) and the value.
pub open spec fn attr_tail(t: Seq<char>, p: int, name: Seq<char>) -> Option<(int, Seq<char>)>
    decreases t.len() - p,
{
    if 0 <= p < t.len() {
        match attr_at(t, p, name) {
            Some((e, v)) if find_char(t, e, '>') is Some => Some((find_char(t, e, '>')->0 + 1, v)),
            _ => if t[p] == '>' {
                None
            } else {
                attr_tail(t, p + 1, name)
            },
        }
    } else {
        None
    }
}

/// `(?is)<{tag}\b[^>]*?\b{name}\s*=\s*("([^"]*)"|'([^']*)')[^>]*?/?>` at `s`, where
/// `open` is `<` followed by the tag name.
pub open spec fn tag_attr_at(t: Seq<char>, s: int, open: Seq<char>, name: Seq<char>) -> Option<(int, Seq<char>)> {
    if ci_at(t, s, open) && boundary(t, s + open.len()) {
        attr_tail(t, s + open.len(), name)
    } else {
        None
    }
}

pub proof fn lemma_attr_tail(t: Seq<char>, p: int, name: Seq<char>)
    ensures
        attr_tail(t, p, name) matches Some((e, v)) ==> p < e <= t.len(),
    decreases t.len() - p,
{
    if 0 <= p < t.len() {
        lemma_attr_at(t, p, name);
        match attr_at(t, p, name) {
            Some((e, v)) => {
                lemma_find_char(t, e, '>');
            },
            None => {},
        }
        lemma_attr_tail(t, p + 1, name);
    }
}

pub fn attr_tail_exec(t: &Vec<char>, p: usize, name: &Vec<char>) -> (r: Option<(usize, Vec<char>)>)
    ensures
        r matches Some((e, v)) ==> attr_tail(t@, p as int, name@) == Some((e as int, v@)),
        r is None ==> attr_tail(t@, p as int, name@) is None,
{
    let mut k = p;
    while k < t.len()
        invariant
            p <= k,
            attr_tail(t@, p as int, name@) == attr_tail(t@, k as int, name@),
        decreases t@.len() - k,
    {
        match attr_at_exec(t, k, name) {
            Some((e, v)) => {
                proof {
                    lemma_attr_at(t@, k as int, name@);
                    lemma_find_char(t@, e as int, '>');
                }
                match find_char_exec(t, e, '>') {
                    Some(g) => {
                        return Some((g + 1, v));
                    },
                    None => {},
                }
            },
            None => {},
        }
        if t[k] == '>' {
            return None;
        }
        k = k + 1;
    }
    None
}

pub fn tag_attr_at_exec(t: &Vec<char>, s: usize, open: &Vec<char>, name: &Vec<char>) -> (r: Option<(usize, Vec<char>)>)
    ensures
        r matches Some((e, v)) ==> tag_attr_at(t@, s as int, open@, name@) == Some((e as int, v@)),
        r is None ==> tag_attr_at(t@, s as int, open@, name@) is None,
{
    let tl = t.len();
    if ci_at_exec(t, s, open) && {
        assert(s + open@.len() <= tl);
        boundary_exec(t, s + open.len())
    } {
        attr_tail_exec(t, s + open.len(), name)
    } else {
        None
    }
}

// ─── script tags ───

/// `(?is)<script\b([^>]*)>\s*</script>` at `s`: the end of the match and the
/// attribute text between the tag name and the first `>`.
pub open spec fn script_at(t: Seq<char>, s: int) -> Option<(int, Seq<char>)> {
    let open = "<script"@;
    let close = "</script>"@;
    if ci_at(t, s, open) && boundary(t, s + open.len()) {
        match find_char(t, s + open.len(), '>') {
            Some(f) => {
                let k = skip_ws(t, f + 1);
                if ci_at(t, k, close) {
                    Some((k + close.len(), t.subrange(s + open.len(), f)))
                } else {
                    None
                }
            },
            None => None,
        }
    } else {
        None
    }
}

pub proof fn lemma_script_at(t: Seq<char>, s: int)
    ensures
        script_at(t, s) matches Some((e, a)) ==> s < e <= t.len(),
{
    let open = "<script"@;
    if ci_at(t, s, open) && boundary(t, s + open.len()) {
        lemma_find_char(t, s + open.len(), '>');
        match find_char(t, s + open.len(), '>') {
            Some(f) => {
                lemma_skip_ws_bounds(t, f + 1);
            },
            None => {},
        }
    }
}

pub fn script_at_exec(t: &Vec<char>, s: usize, open: &Vec<char>, close: &Vec<char>) -> (r: Option<(usize, Vec<char>)>)
    requires
        open@ == "<script"@,
        close@ == "</script>"@,
    ensures
        r matches Some((e, a)) ==> script_at(t@, s as int) == Some((e as int, a@)),
        r is None ==> script_at(t@, s as int) is None,
{
    let tl = t.len();
    if ci_at_exec(t, s, open) && {
        assert(s + open@.len() <= tl);
        boundary_exec(t, s + open.len())
    } {
        let a = s + open.len();
        proof {
            lemma_find_char(t@, a as int, '>');
        }
        match find_char_exec(t, a, '>') {
            Some(f) => {
                let k = skip_ws_exec(t, f + 1);
                if ci_at_exec(t, k, close) {
                    Some((k + close.len(), slice_of(t, a, f)))
                } else {
                    None
                }
            },
            None => None,
        }
    } else {
        None
    }
}

// ─── CSS url(…) ───

pub open spec fn is_url_stop(c: char) -> bool {
    c == '\'' || c == '"' || c == ')'
}

/// The end of the run of `[^'")]` characters starting at `b`.
pub open spec fn url_stop(t: Seq<char>, b: int) -> int
    decreases t.len() - b,
{
    if 0 <= b < t.len() && !is_url_stop(t[b]) {
        url_stop(t, b + 1)
    } else {
        b
    }
}

pub proof fn lemma_url_stop(t: Seq<char>, b: int)
    requires
        0 <= b <= t.len(),
    ensures
        b <= url_stop(t, b) <= t.len(),
        url_stop(t, b) < t.len() ==> is_url_stop(t[url_stop(t, b)]),
    decreases t.len() - b,
{
    if b < t.len() && !is_url_stop(t[b]) {
        lemma_url_stop(t, b + 1);
    }
}

/// `([^'")]+)(['"]?)\s*\)` from `b`: the end of the match, the path, and the closing
/// quote (empty when there is none).
pub open spec fn url_rest(t: Seq<char>, b: int) -> Option<(int, Seq<char>, Seq<char>)> {
    let e = url_stop(t, b);
    if e <= b || e >= t.len() {
        None
    } else if t[e] == ')' {
        Some((e + 1, t.subrange(b, e), Seq::empty()))
    } else {
        let k = skip_ws(t, e + 1);
        if k < t.len() && t[k] == ')' {
            Some((k + 1, t.subrange(b, e), seq![t[e]]))
        } else {
            None
        }
    }
}

/// `url\(\s*(['"]?)([^'")]+)(['"]?)\s*\)` at `s`: the end of the match, the opening
/// quote, the path and the closing quote.  After `url(` and its spaces, an opening
/// quote is taken when there is one; when nothing matches that way and spaces were
/// skipped, the path starts at the last of those spaces instead.
pub open spec fn url_at(t: Seq<char>, s: int) -> Option<(int, Seq<char>, Seq<char>, Seq<char>)> {
    if occurs_at(t, s, "url("@) {
        let a = s + "url("@.len();
        let q = skip_ws(t, a);
        let first = if q < t.len() && is_quote(t[q]) {
            match url_rest(t, q + 1) {
                Some((e, raw, close)) => Some((e, seq![t[q]], raw, close)),
                None => None,
            }
        } else {
            match url_rest(t, q) {
                Some((e, raw, close)) => Some((e, Seq::<char>::empty(), raw, close)),
                None => None,
            }
        };
        if first is Some {
            first
        } else if q > a {
            match url_rest(t, q - 1) {
                Some((e, raw, close)) => Some((e, Seq::<char>::empty(), raw, close)),
                None => None,
            }
        } else {
            None
        }
    } else {
        None
    }
}

pub proof fn lemma_url_rest(t: Seq<char>, b: int)
    requires
        0 <= b <= t.len(),
    ensures
        url_rest(t, b) matches Some((e, raw, close)) ==> b < e <= t.len(),
{
    lemma_url_stop(t, b);
    let e = url_stop(t, b);
    if b < e < t.len() && t[e] != ')' {
        lemma_skip_ws_bounds(t, e + 1);
    }
}

pub proof fn lemma_url_at(t: Seq<char>, s: int)
    ensures
        url_at(t, s) matches Some((e, o, raw, c)) ==> s < e <= t.len(),
{
    if occurs_at(t, s, "url("@) {
        let a = s + "url("@.len();
        lemma_skip_ws_bounds(t, a);
        let q = skip_ws(t, a);
        if q < t.len() {
            lemma_url_rest(t, q + 1);
        }
        lemma_url_rest(t, q);
        if q > a {
            lemma_url_rest(t, q - 1);
        }
    }
}

pub fn url_rest_exec(t: &Vec<char>, b: usize) -> (r: Option<(usize, Vec<char>, Vec<char>)>)
    requires
        b <= t@.len(),
    ensures
        r matches Some((e, raw, close)) ==> url_rest(t@, b as int) == Some((e as int, raw@, close@)),
        r is None ==> url_rest(t@, b as int) is None,
{
    let mut e = b;
    while e < t.len() && !(t[e] == '\'' || t[e] == '"' || t[e] == ')')
        invariant
            b <= e <= t@.len(),
            url_stop(t@, b as int) == url_stop(t@, e as int),
        decreases t@.len() - e,
    {
        e = e + 1;
    }
    if e <= b || e >= t.len() {
        None
    } else if t[e] == ')' {
        Some((e + 1, slice_of(t, b, e), Vec::new()))
    } else {
        let k = skip_ws_exec(t, e + 1);
        if k < t.len() && t[k] == ')' {
            let mut close: Vec<char> = Vec::new();
            close.push(t[e]);
            proof {
                assert(close@ =~= seq![t@[e as int]]);
            }
            Some((k + 1, slice_of(t, b, e), close))
        } else {
            None
        }
    }
}

pub fn url_at_exec(t: &Vec<char>, s: usize, open: &Vec<char>) -> (r: Option<Hit>)
    requires
        open@ == "url("@,
    ensures
        r matches Some(h) ==> url_at(t@, s as int) == Some((h.end as int, h.g1@, h.g2@, h.g3@)),
        r is None ==> url_at(t@, s as int) is None,
{
    let tl = t.len();
    if !occurs_at_exec(t, s, open) {
        return None;
    }
    assert(s + open@.len() <= tl);
    let a = s + open.len();
    proof {
        lemma_skip_ws_bounds(t@, a as int);
    }
    let q = skip_ws_exec(t, a);
    let first: Option<Hit> = if q < t.len() && (t[q] == '"' || t[q] == '\'') {
        match url_rest_exec(t, q + 1) {
            Some((e, raw, close)) => {
                let mut o: Vec<char> = Vec::new();
                o.push(t[q]);
                proof {
                    assert(o@ =~= seq![t@[q as int]]);
                }
                Some(Hit { end: e, g1: o, g2: raw, g3: close })
            },
            None => None,
        }
    } else {
        match url_rest_exec(t, q) {
            Some((e, raw, close)) => Some(Hit { end: e, g1: Vec::new(), g2: raw, g3: close }),
            None => None,
        }
    };
    if first.is_some() {
        first
    } else if q > a {
        match url_rest_exec(t, q - 1) {
            Some((e, raw, close)) => Some(Hit { end: e, g1: Vec::new(), g2: raw, g3: close }),
            None => None,
        }
    } else {
        None
    }
}

} // verus!
