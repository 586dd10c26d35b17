//! Showing the text of one page.

use crate::network_generator::wiki_xml_dump::{WikiIndex, WikiIndexEntry, WikiPage};
use vstd::prelude::*;

verus! {

/// The first entry of the index whose title is exactly `title`.
pub fn find_entry<'a>(index: &'a WikiIndex, title: &String) -> (found: Option<&'a WikiIndexEntry>)
    ensures
        match found {
            Some(entry) => exists|i: int|
                {
                    &&& 0 <= i < index.len()
                    &&& #[trigger] index[i] == *entry
                    &&& entry.title@ == title@
                    &&& forall|j: int| 0 <= j < i ==> (#[trigger] index[j]).title@ != title@
                },
            None => forall|j: int| 0 <= j < index.len() ==> (#[trigger] index[j]).title@ != title@,
        },
{
    let mut i: usize = 0;
    while i < index.len()
        invariant
            i <= index.len(),
            forall|j: int| 0 <= j < i ==> (#[trigger] index[j]).title@ != title@,
        decreases index.len() - i,
    {
        if index[i].title == *title {
            return Some(&index[i]);
        }
        i += 1;
    }
    None
}

/// What is shown in place of the text of a page that has none.
pub open spec fn no_text() -> Seq<char> {
    "No wikitext!"@
}

/// The text to show for a page: its text, or a note that it has none.
pub fn shown_text(page: WikiPage) -> (text: String)
    ensures
        text@ == match page@.text {
            Some(t) => t,
            None => no_text(),
        },
{
    match page.text {
        Some(text) => text,
        None => "No wikitext!".to_owned(),
    }
}

} // verus!
