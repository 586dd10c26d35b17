use quick_xml::events::Event;
use quick_xml::reader::Reader;
use wikilytics::error::ParseError;
use wikilytics::network_generator::wiki_xml_dump::{
    names_base, tag_of, BaseScanner, BaseStep, PageScanner, PageStep, Tag, WikiPage, XmlEvent,
};

fn start(name: &str) -> XmlEvent {
    XmlEvent::Start(name.to_string())
}

fn end(name: &str) -> XmlEvent {
    XmlEvent::End(name.to_string())
}

fn text(content: &str) -> XmlEvent {
    XmlEvent::Text(content.to_string())
}

fn convert(event: Event) -> XmlEvent {
    match event {
        Event::Start(e) => XmlEvent::Start(String::from_utf8_lossy(e.name().as_ref()).into_owned()),
        Event::End(e) => XmlEvent::End(String::from_utf8_lossy(e.name().as_ref()).into_owned()),
        Event::Text(e) => match std::str::from_utf8(&e) {
            Ok(raw) => XmlEvent::Text(raw.to_string()),
            Err(_) => XmlEvent::Undecoded,
        },
        Event::Eof => XmlEvent::Eof,
        _ => XmlEvent::Other,
    }
}

fn pages_of(xml: &str) -> Result<(Vec<WikiPage>, usize), ParseError> {
    pages_of_bytes(xml.as_bytes())
}

fn pages_of_bytes(xml: &[u8]) -> Result<(Vec<WikiPage>, usize), ParseError> {
    let mut reader = Reader::from_reader(xml);
    reader.check_end_names(false);
    let mut scanner = PageScanner::new();
    let mut pages = Vec::new();
    let mut skipped = 0;
    loop {
        let event = convert(reader.read_event().unwrap());
        match scanner.step(event)? {
            PageStep::Continue => {}
            PageStep::Page(page) => pages.push(page),
            PageStep::Skipped => skipped += 1,
            PageStep::Finished => return Ok((pages, skipped)),
        }
    }
}

fn is_page(step: PageStep, title: &str, text: Option<&str>, namespace_id: i16) -> bool {
    match step {
        PageStep::Page(page) => {
            page.title == title
                && page.text == text.map(|t| t.to_string())
                && page.namespace_id == namespace_id
        }
        _ => false,
    }
}

#[test]
fn names_are_classified_exactly() {
    assert_eq!(tag_of("title"), Tag::Title);
    assert_eq!(tag_of("text"), Tag::Text);
    assert_eq!(tag_of("ns"), Tag::Namespace);
    assert_eq!(tag_of("page"), Tag::Page);
    assert_eq!(tag_of("Title"), Tag::Other);
    assert_eq!(tag_of("titles"), Tag::Other);
    assert_eq!(tag_of("tex"), Tag::Other);
    assert_eq!(tag_of(""), Tag::Other);
    assert_eq!(tag_of("revision"), Tag::Other);
    assert!(names_base("base"));
    assert!(!names_base("bases"));
    assert!(!names_base("page"));
}

#[test]
fn page_is_assembled_from_its_events() {
    let mut s = PageScanner::new();
    assert!(matches!(s.advance(start("page")), PageStep::Continue));
    assert!(matches!(s.advance(start("title")), PageStep::Continue));
    assert!(matches!(s.advance(text("Apple")), PageStep::Continue));
    assert!(matches!(s.advance(end("title")), PageStep::Continue));
    assert!(matches!(s.advance(start("ns")), PageStep::Continue));
    assert!(matches!(s.advance(text("0")), PageStep::Continue));
    assert!(matches!(s.advance(end("ns")), PageStep::Continue));
    assert!(matches!(s.advance(text("ignored")), PageStep::Continue));
    assert!(matches!(s.advance(start("text")), PageStep::Continue));
    assert!(matches!(s.advance(text("[[Pear]]")), PageStep::Continue));
    assert!(matches!(s.advance(end("text")), PageStep::Continue));
    assert!(is_page(s.advance(end("page")), "Apple", Some("[[Pear]]"), 0));
    assert!(s.title.is_none() && s.text.is_none() && s.namespace_id.is_none());
    assert!(!s.in_title && !s.in_text && !s.in_namespace);
}

#[test]
fn page_without_text_is_still_a_page() {
    let mut s = PageScanner::new();
    s.advance(start("title"));
    s.advance(text("T"));
    s.advance(end("title"));
    s.advance(start("ns"));
    s.advance(text("-2"));
    s.advance(end("ns"));
    assert!(is_page(s.advance(end("page")), "T", None, -2));
}

#[test]
fn page_without_title_or_namespace_is_skipped() {
    let mut s = PageScanner::new();
    s.advance(start("ns"));
    s.advance(text("0"));
    s.advance(end("ns"));
    assert!(matches!(s.advance(end("page")), PageStep::Skipped));
    s.advance(start("title"));
    s.advance(text("T"));
    s.advance(end("title"));
    assert!(matches!(s.advance(end("page")), PageStep::Skipped));
    s.advance(start("title"));
    s.advance(text("T"));
    s.advance(end("title"));
    s.advance(start("ns"));
    s.advance(text("zero"));
    s.advance(end("ns"));
    assert!(matches!(s.advance(end("page")), PageStep::Skipped));
}

#[test]
fn later_text_node_replaces_the_earlier() {
    let mut s = PageScanner::new();
    s.advance(start("title"));
    s.advance(text("First"));
    s.advance(text("Second"));
    s.advance(end("title"));
    s.advance(start("ns"));
    s.advance(text("4"));
    s.advance(text("x"));
    s.advance(text("5"));
    s.advance(end("ns"));
    assert!(is_page(s.advance(end("page")), "Second", None, 5));
}

#[test]
fn nested_elements_all_take_the_text() {
    let mut s = PageScanner::new();
    s.advance(start("title"));
    s.advance(start("text"));
    s.advance(start("ns"));
    s.advance(text("7"));
    s.advance(end("ns"));
    s.advance(end("text"));
    s.advance(end("title"));
    assert!(is_page(s.advance(end("page")), "7", Some("7"), 7));
}

#[test]
fn end_of_input_drops_the_open_page() {
    let mut s = PageScanner::new();
    s.advance(start("title"));
    s.advance(text("T"));
    assert!(matches!(s.advance(XmlEvent::Eof), PageStep::Finished));
    assert!(s.title.is_none());
    assert!(!s.in_title);
    assert!(matches!(s.advance(XmlEvent::Eof), PageStep::Finished));
}

#[test]
fn references_are_resolved_in_read_text() {
    let mut s = PageScanner::new();
    s.step(start("title")).unwrap();
    s.step(text("Q &amp; A &lt;1&gt; &#65;&#x42;")).unwrap();
    s.step(end("title")).unwrap();
    s.step(start("ns")).unwrap();
    s.step(text("0")).unwrap();
    s.step(end("ns")).unwrap();
    assert!(is_page(s.step(end("page")).unwrap(), "Q & A <1> AB", None, 0));
}

#[test]
fn bad_reference_in_read_text_is_an_error_and_changes_nothing() {
    let mut s = PageScanner::new();
    s.step(start("title")).unwrap();
    s.step(text("Good")).unwrap();
    assert_eq!(s.step(text("bad &nosuch; entity")).unwrap_err(), ParseError::BadEntity);
    assert_eq!(s.step(text("open & end")).unwrap_err(), ParseError::BadEntity);
    assert_eq!(s.title, Some("Good".to_string()));
    assert!(s.in_title);
}

#[test]
fn bad_reference_outside_the_elements_is_not_read() {
    let mut s = PageScanner::new();
    assert!(matches!(s.step(text("bad &nosuch; entity")).unwrap(), PageStep::Continue));
    assert!(s.title.is_none() && s.text.is_none());
}

#[test]
fn pages_come_out_of_a_parsed_document() {
    let xml = "<mediawiki><siteinfo><base>https://example.org/wiki</base></siteinfo>\n\
        <page>\n<title>A &amp; B</title>\n<ns>0</ns>\n<id>1</id>\n\
        <revision><id>5</id><text bytes=\"5\">[[X]] &lt;b&gt;</text></revision>\n</page>\n\
        <page><title>Talk:A</title><ns>1</ns><revision><text/></revision></page>\n\
        <page><ns>0</ns></page>\n\
        <page><title>Last</title><ns>0</ns><text>t</text></page>\n\
        </mediawiki>";
    let (pages, skipped) = pages_of(xml).unwrap();
    assert_eq!(skipped, 1);
    assert_eq!(pages.len(), 3);
    assert_eq!(pages[0].title, "A & B");
    assert_eq!(pages[0].namespace_id, 0);
    assert_eq!(pages[0].text, Some("[[X]] <b>".to_string()));
    assert_eq!(pages[1].title, "Talk:A");
    assert_eq!(pages[1].namespace_id, 1);
    assert_eq!(pages[1].text, None);
    assert_eq!(pages[2].title, "Last");
    assert_eq!(pages[2].text, Some("t".to_string()));
}

#[test]
fn document_with_a_bad_reference_fails() {
    let xml = "<page><title>A &bogus; B</title><ns>0</ns></page>";
    assert_eq!(pages_of(xml).unwrap_err(), ParseError::BadEntity);
}

#[test]
fn text_that_is_not_utf8_is_a_fault_only_where_it_is_read() {
    let mut s = PageScanner::new();
    assert!(matches!(s.step(XmlEvent::Undecoded).unwrap(), PageStep::Continue));
    assert!(matches!(s.advance(XmlEvent::Undecoded), PageStep::Continue));
    s.step(start("title")).unwrap();
    s.step(text("Good")).unwrap();
    assert_eq!(s.step(XmlEvent::Undecoded).unwrap_err(), ParseError::BadEncoding);
    assert_eq!(s.title, Some("Good".to_string()));
    let mut b = BaseScanner::new();
    assert_eq!(b.step(XmlEvent::Undecoded).unwrap(), BaseStep::Continue);
    b.step(start("base")).unwrap();
    assert_eq!(b.step(XmlEvent::Undecoded).unwrap_err(), ParseError::BadEncoding);
}

#[test]
fn document_with_bad_bytes_fails_only_inside_the_elements() {
    let outside = b"<page><id>\xff\xfe</id><title>T</title><ns>0</ns></page>";
    let (pages, _) = pages_of_bytes(outside).unwrap();
    assert_eq!(pages.len(), 1);
    assert_eq!(pages[0].title, "T");
    let inside = b"<page><title>T\xff</title><ns>0</ns></page>";
    assert_eq!(pages_of_bytes(inside).unwrap_err(), ParseError::BadEncoding);
}

#[test]
fn base_is_the_text_behind_the_opening_of_base() {
    let mut s = BaseScanner::new();
    assert_eq!(s.advance(text("before")), BaseStep::Continue);
    assert_eq!(s.advance(start("siteinfo")), BaseStep::Continue);
    assert_eq!(s.advance(text("x")), BaseStep::Continue);
    assert_eq!(s.advance(start("base")), BaseStep::Continue);
    assert!(s.found_base);
    assert_eq!(s.advance(XmlEvent::Other), BaseStep::Continue);
    assert_eq!(s.advance(text("https://a/b")), BaseStep::Base("https://a/b".to_string()));
}

#[test]
fn another_opening_ends_the_wait_for_the_base() {
    let mut s = BaseScanner::new();
    s.advance(start("base"));
    s.advance(start("other"));
    assert!(!s.found_base);
    assert_eq!(s.advance(text("x")), BaseStep::Continue);
    s.advance(start("base"));
    s.advance(end("base"));
    assert_eq!(s.advance(text("after")), BaseStep::Base("after".to_string()));
    assert_eq!(BaseScanner::new().advance(XmlEvent::Eof), BaseStep::Finished);
}

#[test]
fn base_has_its_references_resolved() {
    let mut s = BaseScanner::new();
    s.step(start("base")).unwrap();
    assert_eq!(s.step(text("a&amp;b")).unwrap(), BaseStep::Base("a&b".to_string()));
    let mut s = BaseScanner::new();
    assert_eq!(s.step(text("&bad;")).unwrap(), BaseStep::Continue);
    s.step(start("base")).unwrap();
    assert_eq!(s.step(text("&bad;")).unwrap_err(), ParseError::BadEntity);
    assert!(s.found_base);
}
