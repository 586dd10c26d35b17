use wikilytics::network::{adjacency_line, redirect_line};
use wikilytics::network_generator::wiki_xml_dump::WikiPage;
use wikilytics::network_generator::{canonicalize_link, page_record, replace_first, PageRecord};
use wikilytics::records::{AdjacencyRecord, RedirectRecord};
use wikilytics::resolve::page_redirects;
use wikilytics::wikitext::shown_text;

fn page(title: &str, text: Option<&str>, namespace_id: i16) -> WikiPage {
    WikiPage { title: title.to_string(), text: text.map(|t| t.to_string()), namespace_id }
}

fn strings(items: &[&str]) -> Vec<String> {
    items.iter().map(|s| s.to_string()).collect()
}

fn adjacency(title: &str, links: &[&str]) -> PageRecord {
    PageRecord::Adjacency(AdjacencyRecord { title: title.to_string(), links: strings(links) })
}

fn redirect(title: &str, target: &str) -> PageRecord {
    PageRecord::Redirect(RedirectRecord { title: title.to_string(), target: target.to_string() })
}

fn canonical(link: &str) -> Option<String> {
    canonicalize_link(&link.to_string())
}

#[test]
fn empty_title_has_no_canonical_form() {
    assert_eq!(canonical(""), None);
}

#[test]
fn first_letter_is_capitalised() {
    assert_eq!(canonical("apple"), Some("Apple".to_string()));
    assert_eq!(canonical("Apple"), Some("Apple".to_string()));
    assert_eq!(canonical("a"), Some("A".to_string()));
    assert_eq!(canonical("aPPLE pie"), Some("APPLE pie".to_string()));
    assert_eq!(canonical("1st"), Some("1st".to_string()));
    assert_eq!(canonical(" x"), Some(" x".to_string()));
}

#[test]
fn only_the_first_character_of_a_non_ascii_title_is_mapped() {
    assert_eq!(canonical("\u{e9}cole \u{e9}t\u{e9}"), Some("\u{c9}cole \u{e9}t\u{e9}".to_string()));
    assert_eq!(canonical("\u{f6}l"), Some("\u{d6}l".to_string()));
    assert_eq!(canonical("\u{43f}\u{440}\u{438}"), Some("\u{41f}\u{440}\u{438}".to_string()));
    assert_eq!(canonical("\u{65e5}\u{672c}"), Some("\u{65e5}\u{672c}".to_string()));
}

#[test]
fn uppercase_of_another_length_leaves_the_rest_intact() {
    assert_eq!(canonical("\u{df}a\u{df}"), Some("SSa\u{df}".to_string()));
    assert_eq!(canonical("\u{fb01}n"), Some("FIn".to_string()));
    assert_eq!(canonical("\u{149}x"), Some("\u{2bc}Nx".to_string()));
    assert_eq!(canonical("\u{250}\u{250}"), Some("\u{2c6f}\u{250}".to_string()));
}

#[test]
fn replace_first_swaps_one_character() {
    assert_eq!(replace_first("apple", "A".to_string()), "Apple");
    assert_eq!(replace_first("\u{df}x", "SS".to_string()), "SSx");
    assert_eq!(replace_first("x", "".to_string()), "");
    assert_eq!(replace_first("", "Q".to_string()), "Q");
}

#[test]
fn content_page_gives_its_canonical_links() {
    let record = page_record(page("A", Some("see [[b]] and [[C|c]], [[b]] again [[|x]]"), 0));
    assert_eq!(record, adjacency("A", &["B", "C", "B"]));
}

#[test]
fn page_without_links_is_a_node_without_edges() {
    assert_eq!(page_record(page("A", Some("plain"), 0)), adjacency("A", &[]));
    assert_eq!(page_record(page("A", Some(""), 0)), adjacency("A", &[]));
}

#[test]
fn redirect_page_gives_its_first_target() {
    let record = page_record(page("C", Some("#REDIRECT [[a]]\n#REDIRECT [[b]] [[x]]"), 0));
    assert_eq!(record, redirect("C", "A"));
    let record = page_record(page("C", Some("[[x]] #redirect [[\u{e4}b|y]]"), 0));
    assert_eq!(record, redirect("C", "\u{c4}b"));
}

#[test]
fn keyword_without_a_link_makes_no_redirect_page() {
    assert_eq!(page_record(page("C", Some("#REDIRECT foo"), 0)), adjacency("C", &[]));
    assert_eq!(page_record(page("C", Some("#REDIRECT foo [[b]]"), 0)), adjacency("C", &["B"]));
}

#[test]
fn redirect_to_the_empty_title_gives_nothing() {
    assert_eq!(page_record(page("C", Some("#REDIRECT [[]] [[x]]"), 0)), PageRecord::Nothing);
}

#[test]
fn only_content_pages_with_text_contribute() {
    assert_eq!(page_record(page("Talk:A", Some("[[b]]"), 1)), PageRecord::Nothing);
    assert_eq!(page_record(page("A", Some("[[b]]"), -1)), PageRecord::Nothing);
    assert_eq!(page_record(page("A", None, 0)), PageRecord::Nothing);
}

#[test]
fn adjacency_line_has_title_links_and_line_feed() {
    let record = AdjacencyRecord { title: "A".to_string(), links: strings(&["B", "C d", "B"]) };
    assert_eq!(adjacency_line(&record), "A; B; C d; B\n");
    let record = AdjacencyRecord { title: "A".to_string(), links: vec![] };
    assert_eq!(adjacency_line(&record), "A\n");
    let record = AdjacencyRecord { title: "\u{c4}".to_string(), links: strings(&["\u{d6}"]) };
    assert_eq!(adjacency_line(&record), "\u{c4}; \u{d6}\n");
}

#[test]
fn redirect_line_has_title_target_and_line_feed() {
    let record = RedirectRecord { title: "C".to_string(), target: "A b".to_string() };
    assert_eq!(redirect_line(&record), "C;A b\n");
    let record = RedirectRecord { title: "".to_string(), target: "".to_string() };
    assert_eq!(redirect_line(&record), ";\n");
}

#[test]
fn all_redirects_of_a_page_are_listed_as_written() {
    let p = page("C", Some("#REDIRECT [[a]]\n[[x]] #redirect [[b|c]]"), 3);
    assert_eq!(page_redirects(&p), strings(&["a", "b"]));
    assert_eq!(page_redirects(&page("C", Some("[[x]]"), 0)), Vec::<String>::new());
    assert_eq!(page_redirects(&page("C", None, 0)), Vec::<String>::new());
}

#[test]
fn page_without_text_shows_a_note() {
    assert_eq!(shown_text(page("A", Some("body"), 0)), "body");
    assert_eq!(shown_text(page("A", Some(""), 0)), "");
    assert_eq!(shown_text(page("A", None, 0)), "No wikitext!");
}
