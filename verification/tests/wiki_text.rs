use wikilytics::network_generator::wiki_text::{
    is_redirect, linked_articles, parse_text, redirects_to, LinkOrRedirect,
};
use wikilytics::network_generator::wiki_xml_dump::WikiPage;

#[test]
fn test_parse_empty_page() {
    let test_page = WikiPage {
        namespace_id: 1,
        text: None,
        title: "Test".to_string(),
    };

    let parse_result = parse_text(&test_page);

    assert_eq!(parse_result, None);
}

#[test]
fn test_parse_page_without_text() {
    let test_page = WikiPage {
        namespace_id: 1,
        text: Some("".to_string()),
        title: "Test".to_string(),
    };

    let parse_result = parse_text(&test_page);

    assert_eq!(parse_result, Some(vec![]));
}

#[test]
fn test_parse_page_without_links() {
    let test_page = WikiPage {
        namespace_id: 1,
        text: Some("April, April".to_string()),
        title: "Test".to_string(),
    };

    let parse_result = parse_text(&test_page);

    assert_eq!(parse_result, Some(vec![]));
}

#[test]
fn test_parse_page_with_link() {
    let test_page = WikiPage {
        namespace_id: 1,
        text: Some("[[Link]]".to_string()),
        title: "Test".to_string(),
    };

    let parse_result = parse_text(&test_page);

    assert_eq!(parse_result, Some(vec![LinkOrRedirect::Link("Link".to_string())]));
}

#[test]
fn test_parse_page_with_renamed_link() {
    let test_page = WikiPage {
        namespace_id: 1,
        text: Some("[[Link|Other text]]".to_string()),
        title: "Test".to_string(),
    };

    let parse_result = parse_text(&test_page);

    assert_eq!(parse_result, Some(vec![LinkOrRedirect::Link("Link".to_string())]));
}

#[test]
fn test_parse_page_with_redirect() {
    let test_page = WikiPage {
        namespace_id: 1,
        text: Some("#REDIRECT [[Link]]".to_string()),
        title: "Test".to_string(),
    };

    let parse_result = parse_text(&test_page);

    assert_eq!(parse_result, Some(vec![LinkOrRedirect::Redirect("Link".to_string())]));
}

#[test]
fn test_parse_page_with_redirect_lowercase() {
    let test_page = WikiPage {
        namespace_id: 1,
        text: Some("#redirect [[Link]]".to_string()),
        title: "Test".to_string(),
    };

    let parse_result = parse_text(&test_page);

    assert_eq!(parse_result, Some(vec![LinkOrRedirect::Redirect("Link".to_string())]));
}

#[test]
fn test_parse_page_with_two_redirect() {
    let test_page = WikiPage {
        namespace_id: 1,
        text: Some("#REDIRECT [[Link1]]\n#REDIRECT [[Link2]]".to_string()),
        title: "Test".to_string(),
    };

    let parse_result = parse_text(&test_page);

    assert_eq!(
        parse_result,
        Some(vec![
            LinkOrRedirect::Redirect("Link1".to_string()),
            LinkOrRedirect::Redirect("Link2".to_string())
        ])
    );
}

#[test]
fn test_parse_page_with_renamed_redirect() {
    let test_page = WikiPage {
        namespace_id: 1,
        text: Some("#REDIRECT [[Link|Another name]]".to_string()),
        title: "Test".to_string(),
    };

    let parse_result = parse_text(&test_page);

    assert_eq!(parse_result, Some(vec![LinkOrRedirect::Redirect("Link".to_string())]));
}

#[test]
fn test_parse_page_with_unclosed_brackets() {
    let test_page = WikiPage {
        namespace_id: 1,
        text: Some("[[ ".to_string()),
        title: "Test".to_string(),
    };

    let parse_result = parse_text(&test_page);

    assert_eq!(parse_result, Some(vec![LinkOrRedirect::Link("".to_string())]));
}

#[test]
fn test_parse_page_with_broken_redirect() {
    let test_page = WikiPage {
        namespace_id: 1,
        text: Some("#REDIRECT".to_string()),
        title: "Test".to_string(),
    };

    let parse_result = parse_text(&test_page);

    assert_eq!(parse_result, Some(vec![]));
}

fn parse(text: &str) -> Vec<LinkOrRedirect> {
    let page = WikiPage { namespace_id: 0, text: Some(text.to_string()), title: "T".to_string() };
    parse_text(&page).unwrap()
}

fn link(target: &str) -> LinkOrRedirect {
    LinkOrRedirect::Link(target.to_string())
}

fn redirect(target: &str) -> LinkOrRedirect {
    LinkOrRedirect::Redirect(target.to_string())
}

#[test]
fn links_come_in_order_of_appearance() {
    assert_eq!(
        parse("a [[One]] b [[Two|2]] c [[One]]"),
        vec![link("One"), link("Two"), link("One")]
    );
}

#[test]
fn brackets_at_the_very_end_open_no_link() {
    assert_eq!(parse("[["), vec![]);
    assert_eq!(parse("text [["), vec![]);
}

#[test]
fn unterminated_link_loses_its_last_character() {
    assert_eq!(parse("[[abc"), vec![link("ab")]);
    assert_eq!(parse("[[a|bc"), vec![link("a")]);
    assert_eq!(parse("[[a]"), vec![link("a")]);
}

#[test]
fn bar_before_the_close_cuts_the_target() {
    assert_eq!(parse("[[|x]]"), vec![link("")]);
    assert_eq!(parse("[[a|b|c]] [[d]]"), vec![link("a"), link("d")]);
}

#[test]
fn close_inside_the_text_ends_the_link_there() {
    assert_eq!(parse("[[a]]]]"), vec![link("a")]);
    assert_eq!(parse("[[[[a]]"), vec![link("[[a")]);
}

#[test]
fn redirect_keyword_is_all_capitals_or_all_small() {
    assert_eq!(parse("#Redirect [[A]]"), vec![link("A")]);
    assert_eq!(parse("#REDIRECt [[A]]"), vec![link("A")]);
    assert_eq!(parse("#redirect [[A]]"), vec![redirect("A")]);
}

#[test]
fn redirect_needs_a_link_behind_the_keyword() {
    assert_eq!(parse("#REDIRECT[[A]]"), vec![redirect("A")]);
    assert_eq!(parse("#REDIRECT [[A]]"), vec![redirect("A")]);
    assert_eq!(parse("#REDIRECT:[[A|b]]"), vec![redirect("A")]);
    assert_eq!(parse("#REDIRECT[[[A]]"), vec![redirect("[A")]);
    assert_eq!(parse("#REDIRECT foo"), vec![]);
    assert_eq!(parse("#REDIRECT:  Target]]"), vec![]);
}

#[test]
fn keyword_without_a_link_is_passed_over() {
    assert_eq!(parse("#REDIRECT  [[A]]"), vec![link("A")]);
    assert_eq!(parse("#REDIRECT x [[A]]"), vec![link("A")]);
    assert_eq!(parse("#REDIRECT #redirect [[A]] [[B]]"), vec![redirect("A"), link("B")]);
}

#[test]
fn redirect_cut_short_is_none_or_has_a_partial_target() {
    assert_eq!(parse("#REDIRECT "), vec![]);
    assert_eq!(parse("#REDIRECT ["), vec![]);
    assert_eq!(parse("#REDIRECT [["), vec![]);
    assert_eq!(parse("#REDIRECT[["), vec![]);
    assert_eq!(parse("#REDIRECT [[A"), vec![redirect("")]);
    assert_eq!(parse("#REDIRECT [[AB"), vec![redirect("A")]);
    assert_eq!(parse("#REDIRECT[[AB"), vec![redirect("A")]);
}

#[test]
fn text_of_many_bytes_per_character_is_scanned_by_character() {
    assert_eq!(
        parse("\u{e4}\u{f6} [[\u{dc}ber|x]] \u{65e5}\u{672c}"),
        vec![link("\u{dc}ber")]
    );
}

#[test]
fn token_accessors_tell_the_kinds_apart() {
    let l = link("A");
    let r = redirect("B");
    assert!(l.is_link());
    assert!(!l.is_redirect());
    assert!(r.is_redirect());
    assert!(!r.is_link());
    assert_eq!(l.link_text(), Some(&"A".to_string()));
    assert_eq!(l.redirect_text(), None);
    assert_eq!(r.redirect_text(), Some(&"B".to_string()));
    assert_eq!(r.link_text(), None);
}

#[test]
fn redirect_page_is_classified_by_its_token() {
    let tokens = parse("#REDIRECT [[Target]]");
    assert_eq!(tokens, vec![redirect("Target")]);
    assert!(is_redirect(&tokens));
    assert_eq!(redirects_to(&tokens), Some(&"Target".to_string()));
    assert_eq!(linked_articles(&tokens), Vec::<&String>::new());
    assert_eq!(parse("[[Link|Other]]"), vec![link("Link")]);
}

#[test]
fn first_redirect_wins() {
    let tokens = parse("#REDIRECT [[A]]\n#REDIRECT [[B]]");
    assert_eq!(tokens, vec![redirect("A"), redirect("B")]);
    assert!(is_redirect(&tokens));
    assert_eq!(redirects_to(&tokens), Some(&"A".to_string()));
}

#[test]
fn redirect_behind_links_is_still_found() {
    let tokens = parse("[[X]] #redirect [[Target]] [[Y]]");
    assert!(is_redirect(&tokens));
    assert_eq!(redirects_to(&tokens), Some(&"Target".to_string()));
    assert_eq!(linked_articles(&tokens), vec![&"X".to_string(), &"Y".to_string()]);
}

#[test]
fn page_of_links_is_no_redirect() {
    let tokens = parse("[[X]] [[Y]]");
    assert!(!is_redirect(&tokens));
    assert_eq!(redirects_to(&tokens), None);
    assert!(!is_redirect(&parse("")));
}
