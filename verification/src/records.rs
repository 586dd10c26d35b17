//! The two kinds of record that extraction yields for a page.

use crate::text::views;
use vstd::prelude::*;

verus! {

/// A page and the canonical targets of its links, in the order of their
/// appearance in the page's text; a target may occur more than once.
#[derive(Debug, PartialEq, Eq)]
pub struct AdjacencyRecord {
    pub title: String,
    pub links: Vec<String>,
}

/// An adjacency record as mathematical data.
pub struct AdjacencyView {
    pub title: Seq<char>,
    pub links: Seq<Seq<char>>,
}

impl View for AdjacencyRecord {
    type V = AdjacencyView;

    open spec fn view(&self) -> AdjacencyView {
        AdjacencyView { title: self.title@, links: views(self.links@) }
    }
}

/// A page that stands for another, and the title it points to.
#[derive(Debug, PartialEq, Eq)]
pub struct RedirectRecord {
    pub title: String,
    pub target: String,
}

/// A redirect record as mathematical data.
pub struct RedirectView {
    pub title: Seq<char>,
    pub target: Seq<char>,
}

impl View for RedirectRecord {
    type V = RedirectView;

    open spec fn view(&self) -> RedirectView {
        RedirectView { title: self.title@, target: self.target@ }
    }
}

impl RedirectRecord {
    /// A second record of the same title and target.
    pub fn duplicate(&self) -> (copy: RedirectRecord)
        ensures
            copy@ == self@,
    {
        RedirectRecord { title: self.title.clone(), target: self.target.clone() }
    }
}

/// The views of a sequence of redirect records, element by element.
pub open spec fn redirect_views(records: Seq<RedirectRecord>) -> Seq<RedirectView> {
    records.map_values(|r: RedirectRecord| r@)
}

} // verus!
