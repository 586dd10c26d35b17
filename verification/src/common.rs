//! Finding pages in the index.

use crate::network_generator::wiki_xml_dump::{IndexEntryView, WikiIndex, WikiIndexEntry};
use vstd::prelude::*;

verus! {

/// The views of a sequence of index entries, element by element.
pub open spec fn entry_views(index: Seq<WikiIndexEntry>) -> Seq<IndexEntryView> {
    index.map_values(|entry: WikiIndexEntry| entry@)
}

/// The entries whose title is `title`, in order.
pub open spec fn entries_titled(index: Seq<IndexEntryView>, title: Seq<char>) -> Seq<
    IndexEntryView,
>
    decreases index.len(),
{
    if index.len() == 0 {
        Seq::empty()
    } else if index.last().title == title {
        entries_titled(index.drop_last(), title).push(index.last())
    } else {
        entries_titled(index.drop_last(), title)
    }
}

/// All entries of the index whose title is exactly `title`, in the order of
/// the index.
pub fn find_entries(index: WikiIndex, title: &String) -> (entries: Vec<WikiIndexEntry>)
    ensures
        entry_views(entries@) == entries_titled(entry_views(index@), title@),
{
    let mut entries: Vec<WikiIndexEntry> = Vec::new();
    let ghost all = entry_views(index@);
    assert(all.take(0) == Seq::<IndexEntryView>::empty());
    assert(entry_views(entries@) =~= Seq::<IndexEntryView>::empty());
    for entry in it: index
        invariant
            entry_views(it.seq()) == all,
            entry_views(entries@) == entries_titled(all.take(it.index()), title@),
    {
        let ghost before = entries@;
        assert(all.take(it.index() + 1).drop_last() == all.take(it.index()));
        assert(all.take(it.index() + 1).last() == entry@);
        if entry.title == *title {
            entries.push(entry);
            assert(entry_views(entries@) =~= entry_views(before).push(entry@));
        }
    }
    assert(all.take(all.len() as int) == all);
    entries
}

} // verus!
