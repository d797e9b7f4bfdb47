use wc_pages::doc::{Document, NaviEntry};
use wc_pages::embed;
use wc_pages::errors::WcError;
use wc_pages::ops;
use wc_pages::store::Store;

const ROOT: &str = "/stor";

fn put_page(store: &mut Store, path: &str, d: &Document) {
    let text = embed::source_from_document(d);
    let fp = wc_pages::file_path(ROOT, path);
    store.insert(fp.as_str(), text);
}

fn read_doc(store: &Store, path: &str) -> Document {
    let text = ops::get_bytes(store, ROOT, path).expect("page file exists");
    embed::document_from_source(text.as_str()).expect("page file parses")
}

#[test]
fn get_bytes_round_trip() {
    let mut store = Store::new();
    let d = Document::new();
    put_page(&mut store, "/a.html", &d);
    let text = ops::get_bytes(&store, ROOT, "/a.html").unwrap();
    assert_eq!(text, embed::source_from_document(&d));
    assert!(ops::get_bytes(&store, ROOT, "/missing.html").is_none());
}

#[test]
fn save_document_advances_the_revision() {
    let mut store = Store::new();
    put_page(&mut store, "/a.html", &Document::new());
    let mut cand = Document::new();
    cand.title = "first edit".to_string();
    assert_eq!(ops::save_document(&mut store, ROOT, "/a.html", cand), Ok(2));
    let d1 = read_doc(&store, "/a.html");
    assert_eq!(d1.rev, 2);
    assert_eq!(d1.title, "first edit");
    // the backup for the new revision holds the new text
    let backup = ops::get_bytes(&store, ROOT, "/a.html.2").expect("backup written");
    assert_eq!(backup, ops::get_bytes(&store, ROOT, "/a.html").unwrap());
    // a second and third successful save: revision grows by one each time
    let mut c2 = Document::new();
    c2.rev = 2;
    assert_eq!(ops::save_document(&mut store, ROOT, "/a.html", c2), Ok(3));
    let mut c3 = Document::new();
    c3.rev = 3;
    assert_eq!(ops::save_document(&mut store, ROOT, "/a.html", c3), Ok(4));
    assert_eq!(read_doc(&store, "/a.html").rev, 4);
}

#[test]
fn stale_revision_is_refused_without_mutation() {
    let mut store = Store::new();
    put_page(&mut store, "/a.html", &Document::new());
    let mut cand = Document::new();
    cand.title = "good".to_string();
    assert_eq!(ops::save_document(&mut store, ROOT, "/a.html", cand), Ok(2));
    let before = ops::get_bytes(&store, ROOT, "/a.html").unwrap();
    let mut stale = Document::new();
    stale.title = "stale".to_string();
    assert_eq!(stale.rev, 1);
    assert_eq!(
        ops::save_document(&mut store, ROOT, "/a.html", stale),
        Err(WcError::RevisionConflict)
    );
    assert_eq!(ops::get_bytes(&store, ROOT, "/a.html").unwrap(), before);
}

#[test]
fn save_document_on_missing_or_corrupt_file() {
    let mut store = Store::new();
    assert_eq!(
        ops::save_document(&mut store, ROOT, "/no.html", Document::new()),
        Err(WcError::NotFound)
    );
    store.insert("/stor/bad.html", "not a page".to_string());
    assert_eq!(
        ops::save_document(&mut store, ROOT, "/bad.html", Document::new()),
        Err(WcError::Corrupt)
    );
}

#[test]
fn create_child_builds_the_breadcrumb() {
    let mut store = Store::new();
    let mut parent = Document::new();
    parent.title = "Parent".to_string();
    parent.navi.push(NaviEntry { title: "Parent".to_string(), href: "".to_string() });
    put_page(&mut store, "/a/parent.html", &parent);
    let path = ops::create_child(
        &mut store,
        ROOT,
        "http://h/a/parent.html",
        " Child ",
        " kids/c.html ",
    )
    .expect("child created");
    assert_eq!(path, "/a/kids/c.html");
    let d = read_doc(&store, "/a/kids/c.html");
    assert_eq!(d.title, "Child");
    assert_eq!(d.rev, 1);
    assert_eq!(d.navi.len(), 2);
    assert_eq!(d.navi[0].title, "Parent");
    assert_eq!(d.navi[0].href, "../parent.html");
    assert_eq!(d.navi[1].title, "Child");
    assert_eq!(d.navi[1].href, "");
    // the new page's backup exists too
    assert!(ops::get_bytes(&store, ROOT, "/a/kids/c.html.1").is_some());
}

#[test]
fn create_child_guards() {
    let mut store = Store::new();
    put_page(&mut store, "/a/parent.html", &Document::new());
    assert_eq!(
        ops::create_child(&mut store, ROOT, "http://h/a/parent.html", "  ", "c.html"),
        Err(WcError::InvalidInput)
    );
    assert_eq!(
        ops::create_child(&mut store, ROOT, "http://h/a/parent.html", "T", "#frag"),
        Err(WcError::InvalidInput)
    );
    assert_eq!(
        ops::create_child(&mut store, ROOT, "http://h/a/parent.html", "T", "   "),
        Err(WcError::InvalidInput)
    );
    assert!(ops::create_child(&mut store, ROOT, "http://h/a/parent.html", "T", "c.html").is_ok());
    assert_eq!(
        ops::create_child(&mut store, ROOT, "http://h/a/parent.html", "T", "c.html"),
        Err(WcError::AlreadyExists)
    );
    assert_eq!(
        ops::create_child(&mut store, ROOT, "http://h/missing.html", "T", "c.html"),
        Err(WcError::NotFound)
    );
}

#[test]
fn trim_removes_edges_only() {
    assert_eq!(ops::trim("  a b \t\n"), "a b");
    assert_eq!(ops::trim(""), "");
    assert_eq!(ops::trim(" \t "), "");
    assert_eq!(ops::trim("x"), "x");
}
