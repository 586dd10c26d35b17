//! Showing where a page redirects to.

use crate::network_generator::wiki_text::{parse_text, token_views, tokens, Token};
use crate::network_generator::wiki_xml_dump::{PageView, WikiPage};
use crate::text::views;
use vstd::prelude::*;

verus! {

/// The redirect targets among `tokens`, in order.
pub open spec fn redirect_targets(tokens: Seq<Token>) -> Seq<Seq<char>>
    decreases tokens.len(),
{
    if tokens.len() == 0 {
        Seq::empty()
    } else {
        match tokens.last() {
            Token::Redirect(target) => redirect_targets(tokens.drop_last()).push(target),
            Token::Link(_) => redirect_targets(tokens.drop_last()),
        }
    }
}

/// The redirect targets of a page, none for a page without text.
pub open spec fn redirects_of_page(page: PageView) -> Seq<Seq<char>> {
    match page.text {
        Some(text) => redirect_targets(tokens(text)),
        None => Seq::empty(),
    }
}

/// The targets of all redirects in the text of a page, in the order of
/// their appearance and as they are written.
pub fn page_redirects(page: &WikiPage) -> (targets: Vec<String>)
    ensures
        views(targets@) == redirects_of_page(page@),
{
    let mut targets: Vec<String> = Vec::new();
    assert(views(targets@) =~= Seq::<Seq<char>>::empty());
    match parse_text(page) {
        Some(found) => {
            let mut i: usize = 0;
            assert(token_views(found@).take(0) == Seq::<Token>::empty());
            while i < found.len()
                invariant
                    i <= found.len(),
                    views(targets@) == redirect_targets(token_views(found@).take(i as int)),
                decreases found.len() - i,
            {
                let ghost before = targets@;
                assert(token_views(found@).take(i + 1).drop_last() == token_views(found@).take(
                    i as int,
                ));
                match found[i].redirect_text() {
                    Some(target) => {
                        targets.push(target.clone());
                        assert(views(targets@) =~= views(before).push(target@));
                    },
                    None => {},
                }
                i += 1;
            }
            assert(token_views(found@).take(i as int) == token_views(found@));
        },
        None => {},
    }
    targets
}

} // verus!
