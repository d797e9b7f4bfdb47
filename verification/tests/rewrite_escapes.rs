use wc_pages::link;
use wc_pages::rewrite;

fn org() -> link::Loc {
    link::url_join("http://h/a/b.html", "").expect("origin must parse")
}

#[test]
fn escaped_tag_is_not_rewritten() {
    let content = "keep \\<a href=\"b.html#sec\"> as text";
    assert_eq!(rewrite::rewrite_content(content, &org()), content);
}

#[test]
fn double_backslash_is_rewritten() {
    let content = "real \\\\<a href=\"b.html#sec\">link</a>";
    let out = rewrite::rewrite_content(content, &org());
    assert_eq!(out, "real \\\\<a href=\"#sec\">link</a>");
}

#[test]
fn plain_link_is_rewritten() {
    let out = rewrite::rewrite_content("x <a href=\"b.html#s\">y</a>", &org());
    assert_eq!(out, "x <a href=\"#s\">y</a>");
}

#[test]
fn single_quotes_are_normalized() {
    let out = rewrite::rewrite_content("<a href='b.html#s'>y</a>", &org());
    assert_eq!(out, "<a href=\"#s\">y</a>");
}

#[test]
fn spaced_assignment_is_tolerated() {
    let out = rewrite::rewrite_content("<a class=\"z\" HREF = \"b.html#s\">y</a>", &org());
    assert_eq!(out, "<a class=\"z\" href=\"#s\">y</a>");
}

#[test]
fn escaped_quote_is_skipped_by_the_scan() {
    // in ab\"cd"e the first quote is escaped, so the first unescaped
    // quote stands behind cd
    let s: Vec<char> = "ab\\\"cd\"e".chars().collect();
    let pat: Vec<char> = vec!['"'];
    let (start, end) = rewrite::pos_not_escaped(&s, 0, &pat).unwrap();
    assert_eq!((start, end), (6, 7));
}

#[test]
fn even_backslashes_before_quote_do_not_escape_it() {
    let s: Vec<char> = "ab\\\\\"cd".chars().collect();
    let pat: Vec<char> = vec!['"'];
    let (start, _end) = rewrite::pos_not_escaped(&s, 0, &pat).unwrap();
    assert_eq!(start, 4);
}

#[test]
fn malformed_attribute_scan_continues() {
    let out = rewrite::rewrite_content("<a href=> <a href=\"b.html#s\">", &org());
    assert_eq!(out, "<a href=> <a href=\"#s\">");
}

#[test]
fn unrelated_text_untouched() {
    let content = "no links here, just text with href words and a < b";
    assert_eq!(rewrite::rewrite_content(content, &org()), content);
}

#[test]
fn unicode_whitespace_around_the_assignment() {
    // no-break spaces between the attribute name, the equals sign and the
    // value are tolerated, as any Unicode whitespace is
    let content = "<a href\u{a0}=\u{a0}\"b.html#s\">y</a>";
    let out = rewrite::rewrite_content(content, &org());
    assert_eq!(out, "<a href=\"#s\">y</a>");
}
