use wc_pages::doc::{ContentPiece, Document, NaviEntry};
use wc_pages::embed;
use wc_pages::errors::WcError;
use wc_pages::mover;
use wc_pages::ops;
use wc_pages::store::Store;

const ROOT: &str = "/stor";

fn put_page(store: &mut Store, path: &str, d: &Document) {
    let text = embed::source_from_document(d);
    let fp = wc_pages::file_path(ROOT, path);
    store.insert(fp.as_str(), text);
}

fn read_doc(store: &Store, path: &str) -> Document {
    let text = ops::get_bytes(store, ROOT, path).expect("page file exists");
    embed::document_from_source(text.as_str()).expect("page file parses")
}

fn page_with_child_link(title: &str, child_href: &str) -> Document {
    let mut d = Document::new();
    d.title = title.to_string();
    d.navi.push(NaviEntry { title: title.to_string(), href: "".to_string() });
    d.subsection_new(0).expect("new subsection");
    d.subs[1].title = title.to_string();
    d.subs[1].href = child_href.to_string();
    d.subs[1].content.push(ContentPiece {
        kind: "text".to_string(),
        value: format!("see <a href=\"{}\">link</a> but not \\<a href=\"z.html\">", child_href),
    });
    d
}

fn leaf_page(title: &str) -> Document {
    let mut d = Document::new();
    d.title = title.to_string();
    d.navi.push(NaviEntry { title: title.to_string(), href: "".to_string() });
    d
}

#[test]
fn move_relocates_the_whole_subtree() {
    let mut store = Store::new();
    put_page(&mut store, "/a/b.html", &page_with_child_link("B", "c.html"));
    put_page(&mut store, "/a/c.html", &leaf_page("C"));
    let r = mover::page_move(&mut store, ROOT, "http://h/a/b.html", "http://h/x/b.html", None);
    assert_eq!(r, Ok(()));
    // the destination page exists, with the child link kept relative
    let db = read_doc(&store, "/x/b.html");
    assert_eq!(db.title, "B");
    assert_eq!(db.subs[1].href, "c.html");
    assert_eq!(
        db.subs[1].content[0].value,
        "see <a href=\"c.html\">link</a> but not \\<a href=\"z.html\">"
    );
    // the child page was staged and written under the destination too
    let dc = read_doc(&store, "/x/c.html");
    assert_eq!(dc.title, "C");
    // both origins are marked moved, with a revision bump and a retitled
    // last breadcrumb entry
    let ob = read_doc(&store, "/a/b.html");
    assert_eq!(ob.moved_to, "http://h/x/b.html");
    assert_eq!(ob.rev, 2);
    assert_eq!(ob.navi.last().unwrap().title, "Moved(B) to http://h/x/b.html");
    let oc = read_doc(&store, "/a/c.html");
    assert_eq!(oc.moved_to, "http://h/x/c.html");
    // destination backups exist
    assert!(ops::get_bytes(&store, ROOT, "/x/b.html.1").is_some());
    assert!(ops::get_bytes(&store, ROOT, "/x/c.html.1").is_some());
}

#[test]
fn second_move_is_refused_and_changes_nothing() {
    let mut store = Store::new();
    put_page(&mut store, "/a/b.html", &leaf_page("B"));
    assert_eq!(
        mover::page_move(&mut store, ROOT, "http://h/a/b.html", "http://h/x/b.html", None),
        Ok(())
    );
    let org_after = ops::get_bytes(&store, ROOT, "/a/b.html").unwrap();
    let dest_after = ops::get_bytes(&store, ROOT, "/x/b.html").unwrap();
    assert_eq!(
        mover::page_move(&mut store, ROOT, "http://h/a/b.html", "http://h/y/b.html", None),
        Err(WcError::AlreadyMoved)
    );
    assert_eq!(ops::get_bytes(&store, ROOT, "/a/b.html").unwrap(), org_after);
    assert_eq!(ops::get_bytes(&store, ROOT, "/x/b.html").unwrap(), dest_after);
    assert!(ops::get_bytes(&store, ROOT, "/y/b.html").is_none());
}

#[test]
fn cycle_is_detected_instead_of_looping() {
    let mut store = Store::new();
    put_page(&mut store, "/c/a.html", &page_with_child_link("A", "b.html"));
    put_page(&mut store, "/c/b.html", &page_with_child_link("B", "a.html"));
    assert_eq!(
        mover::page_move(&mut store, ROOT, "http://h/c/a.html", "http://h/d/a.html", None),
        Err(WcError::CycleDetected)
    );
}

#[test]
fn occupied_destination_is_refused() {
    let mut store = Store::new();
    put_page(&mut store, "/a/b.html", &leaf_page("B"));
    put_page(&mut store, "/q/full.html", &page_with_child_link("Full", "x.html"));
    assert_eq!(
        mover::page_move(&mut store, ROOT, "http://h/a/b.html", "http://h/q/full.html", None),
        Err(WcError::DestinationOccupied)
    );
    // the origin is untouched
    assert_eq!(read_doc(&store, "/a/b.html").moved_to, "");
}

#[test]
fn missing_origin_is_not_found() {
    let mut store = Store::new();
    assert_eq!(
        mover::page_move(&mut store, ROOT, "http://h/a/no.html", "http://h/x/no.html", None),
        Err(WcError::NotFound)
    );
}

#[test]
fn backup_shaped_origin_is_refused() {
    let mut store = Store::new();
    put_page(&mut store, "/a/b.html.3", &leaf_page("B"));
    assert_eq!(
        mover::page_move(&mut store, ROOT, "http://h/a/b.html.3", "http://h/x/b.html", None),
        Err(WcError::InvalidInput)
    );
}

#[test]
fn move_under_a_parent_builds_the_breadcrumb() {
    let mut store = Store::new();
    put_page(&mut store, "/a/b.html", &leaf_page("B"));
    let mut parent = leaf_page("P");
    parent.navi[0].href = "".to_string();
    put_page(&mut store, "/x/p.html", &parent);
    assert_eq!(
        mover::page_move(
            &mut store,
            ROOT,
            "http://h/a/b.html",
            "http://h/x/b.html",
            Some("http://h/x/p.html"),
        ),
        Ok(())
    );
    let db = read_doc(&store, "/x/b.html");
    assert_eq!(db.navi.len(), 2);
    assert_eq!(db.navi[0].title, "P");
    assert_eq!(db.navi[0].href, "/x/p.html");
    assert_eq!(db.navi[1].title, "B");
    assert_eq!(db.navi[1].href, "");
}

#[test]
fn page_paths_and_backup_names() {
    let p = wc_pages::page::Page::new(ROOT, "/a/b.html");
    assert_eq!(p.file_path(), "/stor/a/b.html");
    assert_eq!(p.path_rev_form(12), "/stor/a/b.html.12");
    assert!(!p.is_end_with_rev());
    let q = wc_pages::page::Page::new(ROOT, "/a/b.html.12");
    assert!(q.is_end_with_rev());
}

#[test]
fn missing_child_is_skipped_not_fatal() {
    let mut store = Store::new();
    // the page links a child that does not exist on disk
    put_page(&mut store, "/a/b.html", &page_with_child_link("B", "ghost.html"));
    assert_eq!(
        mover::page_move(&mut store, ROOT, "http://h/a/b.html", "http://h/x/b.html", None),
        Ok(())
    );
    // the page itself moved and was marked; the missing child was skipped
    assert_eq!(read_doc(&store, "/a/b.html").moved_to, "http://h/x/b.html");
    assert_eq!(read_doc(&store, "/x/b.html").title, "B");
    assert!(ops::get_bytes(&store, ROOT, "/x/ghost.html").is_none());
}

#[test]
fn corrupt_origin_is_reported() {
    let mut store = Store::new();
    store.insert("/stor/a/bad.html", "not a page at all".to_string());
    assert_eq!(
        mover::page_move(&mut store, ROOT, "http://h/a/bad.html", "http://h/x/bad.html", None),
        Err(WcError::Corrupt)
    );
    assert_eq!(
        ops::get_bytes(&store, ROOT, "/a/bad.html").unwrap(),
        "not a page at all"
    );
}
