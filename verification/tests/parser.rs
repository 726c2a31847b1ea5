use leaf::parser::{extract_summary, extract_title, parse};

#[test]
fn title_prefers_title_element() {
    let p = parse("<html><head><title>  Hello  </title></head><body><h1>Big   Title</h1><p>Some\n\ntext</p></body></html>");
    assert_eq!(p.title.as_deref(), Some("Hello"));
    assert_eq!(p.summary, "Big TitleSome text");
}

#[test]
fn title_falls_back_to_h1_then_h2() {
    let p = parse("<body><h2>Second</h2><h1>  A \n B </h1></body>");
    assert_eq!(p.title.as_deref(), Some("A B"));
    let p = parse("<title>   </title><body><h2> Only\tsub </h2></body>");
    assert_eq!(p.title.as_deref(), Some("Only sub"));
    let p = parse("<body><p>plain</p></body>");
    assert_eq!(p.title, None);
    assert_eq!(p.summary, "plain");
}

#[test]
fn summary_is_cut_at_160_characters() {
    let body = format!("<body>{}</body>", "字".repeat(200));
    let p = parse(&body);
    let expected = format!("{}…", "字".repeat(160));
    assert_eq!(p.summary, expected);
    let exact = format!("<body>{}</body>", "x".repeat(160));
    assert_eq!(parse(&exact).summary, "x".repeat(160));
}

#[test]
fn extraction_from_texts() {
    assert_eq!(
        extract_title(&Some(" t ".to_string()), &Some("h".to_string()), &None),
        Some("t".to_string())
    );
    assert_eq!(extract_title(&Some(" \n ".to_string()), &None, &Some(" x  y ".to_string())), Some("x y".to_string()));
    assert_eq!(extract_title(&None, &Some("   ".to_string()), &Some("".to_string())), None);
    assert_eq!(extract_summary(&None), "");
    assert_eq!(extract_summary(&Some("  a\u{3000}\u{a0}b  ".to_string())), "a b");
}

#[test]
fn collapsing_twice_is_collapsing_once() {
    let once: Vec<char> = leaf::text::collapse_whitespace(&"  a \n\t b\u{3000}c  ".chars().collect());
    assert_eq!(once.iter().collect::<String>(), "a b c");
    assert_eq!(leaf::text::collapse_whitespace(&once), once);
    assert!(leaf::text::collapse_whitespace(&" \n ".chars().collect()).is_empty());
}
