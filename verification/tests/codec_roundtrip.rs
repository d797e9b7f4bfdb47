use wc_pages::codec;
use wc_pages::doc::{ContentPiece, Document, NaviEntry, Subsection};
use wc_pages::embed;
use wc_pages::text;

fn rich_doc() -> Document {
    let mut d = Document::new();
    d.title = "A <&> \"quoted\" \\ title\nsecond line\t™".to_string();
    d.rev = 41;
    d.rev_speculation = 7;
    d.group_top = true;
    d.moved_to = "http://h/x/y.html".to_string();
    d.navi.push(NaviEntry { title: "Top".to_string(), href: "/top.html".to_string() });
    d.navi.push(NaviEntry { title: "Here".to_string(), href: "".to_string() });
    d.id_next = 3;
    d.subs.push(Subsection {
        parent: 0,
        id: 1,
        title: "One".to_string(),
        href: "one/one.html".to_string(),
        content: vec![
            ContentPiece { kind: "text".to_string(), value: "plain".to_string() },
            ContentPiece {
                kind: "text".to_string(),
                value: "a \\<a href=\"z\"> escaped </span> &lt; tricky".to_string(),
            },
        ],
        children: vec![2],
    });
    d.subs.push(Subsection {
        parent: 1,
        id: 2,
        title: "Two".to_string(),
        href: "#frag".to_string(),
        content: vec![],
        children: vec![],
    });
    d
}

#[test]
fn round_trip_plain_document() {
    let d = Document::new();
    let page = embed::source_from_document(&d);
    let back = embed::document_from_source(page.as_str()).expect("plain page must parse");
    assert_eq!(back, d);
}

#[test]
fn round_trip_rich_document() {
    let d = rich_doc();
    let page = embed::source_from_document(&d);
    let back = embed::document_from_source(page.as_str()).expect("rich page must parse");
    assert_eq!(back, d);
}

#[test]
fn round_trip_bare_json() {
    let d = rich_doc();
    let mut out: Vec<char> = Vec::new();
    codec::push_doc(&mut out, &d);
    let json = text::chars_to_string(&out);
    let back = codec::document_from_json_text(json.as_str()).expect("document json must parse");
    assert_eq!(back, d);
}

#[test]
fn serialized_json_shape() {
    let d = Document::new();
    let mut out: Vec<char> = Vec::new();
    codec::push_doc(&mut out, &d);
    let json: String = text::chars_to_string(&out);
    assert_eq!(
        json,
        "{\"system\":{\"version\":\"0.0.4\"},\"data\":{\"page\":{\"title\":\"\",\"rev\":1,\
         \"rev_speculation\":0,\"group_top\":false,\"moved_to\":\"\"},\"navi\":[],\
         \"subsection\":{\"id\":{\"id_next\":1,\"id_notinuse\":[]},\"data\":{\"0\":\
         {\"parent\":0,\"id\":0,\"title\":\"\",\"href\":\"\",\"content\":[],\"child\":[]}}}}}"
            .replace(" ", "")
            .replace("\n", "")
    );
}

#[test]
fn plain_shell_holds_marker() {
    let shell = embed::page_html_plain();
    assert!(shell.contains("<span id=\"page_json_str\" style=\"display: none\">"));
    assert!(shell.starts_with("<!DOCTYPE html>"));
    assert!(shell.ends_with("</span></body></html>\n"));
}

#[test]
fn garbage_does_not_parse() {
    assert!(embed::document_from_source("hello world").is_none());
    assert!(embed::document_from_source("").is_none());
    assert!(codec::document_from_json_text("{\"system\":oops").is_none());
}

#[test]
fn flat_object_members() {
    let l = codec::parse_flat_object("{\"href\":\"a b\",\"dest_url\":\"http://h/x\"}").unwrap();
    assert_eq!(l.len(), 2);
    assert_eq!(l[0].0, "href");
    assert_eq!(l[0].1, "a b");
    assert_eq!(l[1].0, "dest_url");
    assert_eq!(l[1].1, "http://h/x");
    assert_eq!(codec::parse_flat_object("{}").unwrap().len(), 0);
    assert!(codec::parse_flat_object("{\"a\":1}").is_none());
    assert!(codec::parse_flat_object("nope").is_none());
}
