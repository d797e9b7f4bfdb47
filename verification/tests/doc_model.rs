use wc_pages::doc::Document;
use wc_pages::errors::WcError;

#[test]
fn fresh_document_has_no_real_content() {
    let d = Document::new();
    assert!(!d.subsections_data_exists());
    assert_eq!(d.rev(), 1);
    assert_eq!(d.subsection_id_next(), 1);
    assert!(d.moved_to().is_none());
    assert!(!d.may_changed());
}

#[test]
fn content_appears_with_the_first_real_subsection() {
    let mut d = Document::new();
    let id = d.subsection_new(0).expect("root subsection exists");
    assert_eq!(id, 1);
    assert!(d.subsections_data_exists());
    assert!(d.may_changed());
    // the new id is recorded among the parent's children
    let root = d.subsection(0).unwrap();
    assert_eq!(root.children, vec![1]);
}

#[test]
fn subsection_ids_are_never_reused() {
    let mut d = Document::new();
    assert_eq!(d.subsection_new(0), Some(1));
    assert_eq!(d.subsection_new(1), Some(2));
    assert_eq!(d.subsection_id_next(), 3);
    // a missing parent fails, but the allocator has already advanced:
    // ids are handed out once and never again
    assert_eq!(d.subsection_new(99), None);
    assert_eq!(d.subsection_id_next(), 4);
}

#[test]
fn subsection_lookup_by_href() {
    let mut d = Document::new();
    let id = d.subsection_new(0).unwrap();
    let subs = &mut d.subs;
    subs[1].href_set("one/one.html");
    subs[1].title_set("One");
    assert_eq!(id, subs[1].id());
    let found = d.subsection_by_name("one/one.html").expect("href is there");
    assert_eq!(found.id, 1);
    assert_eq!(found.title, "One");
    assert!(d.subsection_by_name("nowhere.html").is_none());
}

#[test]
fn mark_moved_is_one_way() {
    let mut d = Document::new();
    assert!(d.mark_moved("http://h/x/y.html").is_ok());
    assert_eq!(d.moved_to().unwrap(), "http://h/x/y.html");
    assert_eq!(d.mark_moved("http://h/z.html"), Err(WcError::AlreadyMoved));
    assert_eq!(d.moved_to().unwrap(), "http://h/x/y.html");
}

#[test]
fn revision_stepping() {
    let mut d = Document::new();
    assert_eq!(d.rev_plus_one(), Some(2));
    assert!(d.rev_replace_one_up().is_ok());
    assert_eq!(d.rev(), 2);
    d.rev = u64::MAX;
    assert_eq!(d.rev_plus_one(), None);
    assert!(d.rev_replace_one_up().is_err());
    assert_eq!(d.rev(), u64::MAX);
}

#[test]
fn dirty_flag_is_conservative() {
    let mut d = Document::new();
    let _ = d.subsection_by_name("x");
    assert!(!d.may_changed());
    let _ = d.subsection_id_new();
    assert!(d.may_changed());
    d.may_changed_clear();
    assert!(!d.may_changed());
}
