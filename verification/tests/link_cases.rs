use wc_pages::link;

fn org() -> link::Loc {
    link::url_join("http://h/a/b.html", "").expect("origin must parse")
}

#[test]
fn same_page_fragment() {
    let (href, child) = link::href_move(&org(), "#frag").unwrap();
    assert_eq!(href, "#frag");
    assert!(!child);
}

#[test]
fn child_relative() {
    let (href, child) = link::href_move(&org(), "c.html").unwrap();
    assert_eq!(href, "c.html");
    assert!(child);
}

#[test]
fn deeper_child_keeps_fragment() {
    let (href, child) = link::href_move(&org(), "sub/d.html#sec").unwrap();
    assert_eq!(href, "sub/d.html#sec");
    assert!(child);
}

#[test]
fn cross_host_unchanged() {
    let (href, child) = link::href_move(&org(), "https://other.example/z").unwrap();
    assert_eq!(href, "https://other.example/z");
    assert!(!child);
}

#[test]
fn outside_directory_absolute() {
    let (href, child) = link::href_move(&org(), "/q/r.html").unwrap();
    assert_eq!(href, "/q/r.html");
    assert!(!child);
}

#[test]
fn same_page_without_fragment_is_left_alone() {
    assert!(link::href_move(&org(), "b.html").is_none());
}

#[test]
fn make_relative_and_back() {
    let rel = link::url_make_relative("http://h/a/b.html", "http://h/a/c.html").unwrap();
    assert_eq!(rel, "c.html");
    assert!(link::url_make_relative("http://h/a/b.html", "https://other/y").is_none());
}
