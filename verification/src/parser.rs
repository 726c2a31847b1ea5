//! Title and summary of an HTML document.
use vstd::prelude::*;
use crate::text::{or_empty, opt_view, chars_of, string_of, trim, trim_chars, collapse, collapse_whitespace, truncated, truncate};

verus! {

/// What is drawn from an HTML document.
#[derive(Debug)]
pub struct ParsedHtml {
    pub title: Option<String>,
    pub summary: String,
}

/// The number of characters a summary keeps.
pub const SUMMARY_LEN: usize = 160;

/// The text of the first element that `scraper` selects with the CSS selector
/// `selector` in the document `content` parses to (the element's text nodes joined),
/// or `None` when no element matches.
pub uninterp spec fn element_text(content: Seq<char>, selector: Seq<char>) -> Option<Seq<char>>;

/// `scraper`: parses `content` as a document (`Html::parse_document`), selects with
/// `Selector::parse(selector)` and joins the text of the first match.  The claim is
/// that this computes `element_text`; what HTML parsing makes of a document is not
/// stated.
#[verifier::external_body]
fn first_element_text(content: &str, selector: &str) -> (r: Option<String>)
    ensures
        match r {
            Some(t) => element_text(content@, selector@) == Some(t@),
            None => element_text(content@, selector@) is None,
        },
{
    let document = scraper::Html::parse_document(content);
    let sel = scraper::Selector::parse(selector).ok()?;
    let first = document.select(&sel).next()?;
    Some(first.text().collect::<String>())
}


/// The title: the trimmed `<title>` text, else the first `<h1>`, else the first `<h2>`
/// (their whitespace collapsed), each only when not empty.
pub open spec fn title_from(title: Option<Seq<char>>, h1: Option<Seq<char>>, h2: Option<Seq<char>>) -> Option<Seq<char>> {
    let t = trim(or_empty(title));
    let a = collapse(or_empty(h1));
    let b = collapse(or_empty(h2));
    if t.len() > 0 {
        Some(t)
    } else if a.len() > 0 {
        Some(a)
    } else if b.len() > 0 {
        Some(b)
    } else {
        None
    }
}

/// The summary: the body text with whitespace collapsed, cut to `SUMMARY_LEN`
/// characters; empty without a body.
pub open spec fn summary_from(body: Option<Seq<char>>) -> Seq<char> {
    match body {
        Some(x) => truncated(collapse(x), SUMMARY_LEN as nat),
        None => Seq::empty(),
    }
}

/// Title priority: the trimmed `<title>` text when it is not empty; otherwise the
/// first `<h1>` with its whitespace collapsed when that is not empty; otherwise the
/// first `<h2>` likewise; otherwise no title.
pub proof fn law_title_priority(title: Option<Seq<char>>, h1: Option<Seq<char>>, h2: Option<Seq<char>>)
    ensures
        (title matches Some(t) && trim(t).len() > 0) ==> title_from(title, h1, h2) == Some(trim(title->0)),
        (trim(or_empty(title)).len() == 0 && h1 is Some && collapse(h1->0).len() > 0) ==> title_from(title, h1, h2) == Some(collapse(h1->0)),
        (trim(or_empty(title)).len() == 0 && collapse(or_empty(h1)).len() == 0 && h2 is Some && collapse(h2->0).len() > 0)
            ==> title_from(title, h1, h2) == Some(collapse(h2->0)),
        (trim(or_empty(title)).len() == 0 && collapse(or_empty(h1)).len() == 0 && collapse(or_empty(h2)).len() == 0)
            ==> title_from(title, h1, h2) is None,
{
    assert(trim(Seq::<char>::empty()).len() == 0) by {
        reveal_with_fuel(crate::text::skip_ws, 2);
    }
}

/// The summary is the body text with whitespace collapsed, cut to `SUMMARY_LEN`
/// characters (one more, `…`, when cut); without a body it is empty.
pub proof fn law_summary(body: Option<Seq<char>>)
    ensures
        body is None ==> summary_from(body).len() == 0,
        (body is Some && collapse(body->0).len() <= SUMMARY_LEN) ==> summary_from(body) == collapse(body->0),
        (body is Some && collapse(body->0).len() > SUMMARY_LEN) ==> {
            &&& summary_from(body).len() == SUMMARY_LEN + 1
            &&& summary_from(body).take(SUMMARY_LEN as int) == collapse(body->0).take(SUMMARY_LEN as int)
            &&& summary_from(body).last() == '…'
        },
{
    if let Some(x) = body {
        crate::text::law_truncation(collapse(x), SUMMARY_LEN as nat);
    }
}

fn text_or_empty(t: &Option<String>) -> (r: Vec<char>)
    ensures
        r@ == or_empty(opt_view(*t)),
{
    match t {
        Some(s) => chars_of(s.as_str()),
        None => Vec::new(),
    }
}

/// The title, given the texts of the first `<title>`, `<h1>` and `<h2>` elements.
pub fn extract_title(title: &Option<String>, h1: &Option<String>, h2: &Option<String>) -> (r: Option<String>)
    ensures
        opt_view(r) == title_from(opt_view(*title), opt_view(*h1), opt_view(*h2)),
{
    let t = trim_chars(&text_or_empty(title));
    if t.len() > 0 {
        return Some(string_of(&t));
    }
    let a = collapse_whitespace(&text_or_empty(h1));
    if a.len() > 0 {
        return Some(string_of(&a));
    }
    let b = collapse_whitespace(&text_or_empty(h2));
    if b.len() > 0 {
        return Some(string_of(&b));
    }
    None
}

/// The summary, given the text of the `<body>` element.
pub fn extract_summary(body: &Option<String>) -> (r: String)
    ensures
        r@ == summary_from(opt_view(*body)),
{
    match body {
        Some(s) => {
            let c = collapse_whitespace(&chars_of(s.as_str()));
            string_of(&truncate(&c, SUMMARY_LEN))
        },
        None => String::new(),
    }
}

/// Title and summary of an HTML document: the title from `<title>`, `<h1>` or `<h2>`,
/// the summary from the body text.
pub fn parse(content: &str) -> (r: ParsedHtml)
    ensures
        opt_view(r.title) == title_from(
            element_text(content@, "title"@),
            element_text(content@, "h1"@),
            element_text(content@, "h2"@),
        ),
        r.summary@ == summary_from(element_text(content@, "body"@)),
{
    let title = first_element_text(content, "title");
    let h1 = first_element_text(content, "h1");
    let h2 = first_element_text(content, "h2");
    let body = first_element_text(content, "body");
    ParsedHtml { title: extract_title(&title, &h1, &h2), summary: extract_summary(&body) }
}

} // verus!
