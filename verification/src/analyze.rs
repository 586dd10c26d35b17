//! Reading a finished graph back from its adjacency artifact.

use crate::network::{adjacency_separator, joined_links};
use crate::network_generator::{links_model, Network};
use crate::text::{first_word, lemma_first_word_from, split_word, split_word_spec, views, word_at};
use crate::title_map::{Assoc, TitleMap};
use vstd::prelude::*;

verus! {

/// The graph that the lines of an adjacency artifact denote. The first
/// field of a line is a node and the fields behind it are its links; a later
/// line of one node replaces an earlier one.
pub open spec fn loaded(lines: Seq<Seq<char>>) -> Assoc<Seq<Seq<char>>>
    decreases lines.len(),
{
    if lines.len() == 0 {
        Assoc::empty()
    } else {
        let fields = split_word_spec(lines.last(), adjacency_separator());
        loaded(lines.drop_last()).put(fields[0], fields.skip(1))
    }
}

/// Reads a graph from the lines of its adjacency artifact, each without its
/// line feed.
pub fn load_network(lines: &Vec<String>) -> (network: Network)
    ensures
        network.wf(),
        links_model(&network) == loaded(views(lines@)),
{
    let mut network: Network = TitleMap::new();
    let mut i: usize = 0;
    proof {
        assert(views(lines@).take(0) == Seq::<Seq<char>>::empty());
        assert(links_model(&network).titles =~= Seq::<Seq<char>>::empty());
        assert(links_model(&network).values =~= Seq::<Seq<Seq<char>>>::empty());
    }
    while i < lines.len()
        invariant
            i <= lines.len(),
            network.wf(),
            links_model(&network) == loaded(views(lines@).take(i as int)),
        decreases lines.len() - i,
    {
        let mut fields = split_word(lines[i].as_str(), "; ");
        proof {
            reveal_strlit("; ");
            assert("; "@ =~= adjacency_separator());
            assert(views(lines@).take(i + 1).drop_last() == views(lines@).take(i as int));
            assert(views(lines@).take(i + 1).last() == lines@[i as int]@);
            lemma_split_word_nonempty(lines@[i as int]@, adjacency_separator());
        }
        let ghost all = views(fields@);
        let node = fields.remove(0);
        proof {
            assert(node@ == all[0]);
            assert(views(fields@) =~= all.skip(1));
            network.model().lemma_put_map_values(
                node@,
                fields,
                |links: Vec<String>| views(links@),
            );
        }
        network.insert(node, fields);
        i += 1;
    }
    assert(views(lines@).take(i as int) == views(lines@));
    network
}

/// Whether the separator of adjacency lines stands nowhere in `s`.
pub open spec fn free_of_separator(s: Seq<char>) -> bool {
    forall|j: int| !word_at(s, adjacency_separator(), j)
}

/// The links of a line with one more link in front.
pub proof fn lemma_joined_front(first: Seq<char>, rest: Seq<Seq<char>>)
    ensures
        joined_links(seq![first] + rest) == adjacency_separator() + first + joined_links(rest),
    decreases rest.len(),
{
    let all = seq![first] + rest;
    if rest.len() == 0 {
        assert(all.drop_last() == Seq::<Seq<char>>::empty());
        assert(all.last() == first);
        assert(joined_links(all) =~= adjacency_separator() + first + joined_links(rest));
    } else {
        let sep = adjacency_separator();
        let inner = joined_links(rest.drop_last());
        assert(all.drop_last() == seq![first] + rest.drop_last());
        assert(all.last() == rest.last());
        lemma_joined_front(first, rest.drop_last());
        assert(joined_links(all) == joined_links(all.drop_last()) + sep + all.last());
        assert(joined_links(rest) == inner + sep + rest.last());
        assert((sep + first + inner) + sep + rest.last() =~= sep + first + (inner + sep
            + rest.last()));
    }
}

/// A text without the separator is its own single field.
pub proof fn lemma_split_single(field: Seq<char>)
    requires
        free_of_separator(field),
    ensures
        split_word_spec(field, adjacency_separator()) == seq![field],
{
    lemma_first_word_from(field, adjacency_separator(), 0, field.len() as int);
}

/// A text without the separator, the separator and a tail split into the
/// text and the fields of the tail.
pub proof fn lemma_split_front(field: Seq<char>, tail: Seq<char>)
    requires
        free_of_separator(field),
    ensures
        split_word_spec(field + adjacency_separator() + tail, adjacency_separator()) == seq![field]
            + split_word_spec(tail, adjacency_separator()),
{
    let sep = adjacency_separator();
    let s = field + sep + tail;
    let n = field.len() as int;
    assert forall|j: int| 0 <= j < n implies !word_at(s, sep, j) by {
        if word_at(s, sep, j) {
            let found = s.subrange(j, j + 2);
            assert(found[0] == sep[0] && found[1] == sep[1]);
            if j + 2 <= n {
                assert(field.subrange(j, j + 2) =~= found);
                assert(word_at(field, sep, j));
            } else {
                assert(s[j + 1] == sep[0]);
            }
        }
    }
    lemma_first_word_from(s, sep, 0, n);
    assert(s.subrange(n, n + 2) =~= sep);
    assert(first_word(s, sep, n) == n);
    assert(s.take(n) =~= field);
    assert(s.skip(n + 2) =~= tail);
}

/// A title and links that are free of the separator are the fields of
/// their line.
pub proof fn lemma_fields_of_line(title: Seq<char>, links: Seq<Seq<char>>)
    requires
        free_of_separator(title),
        forall|i: int| 0 <= i < links.len() ==> free_of_separator(#[trigger] links[i]),
    ensures
        split_word_spec(title + joined_links(links), adjacency_separator()) == seq![title] + links,
    decreases links.len(),
{
    if links.len() == 0 {
        assert(title + joined_links(links) =~= title);
        lemma_split_single(title);
        assert(seq![title] + links =~= seq![title]);
    } else {
        let first = links[0];
        let rest = links.skip(1);
        assert(seq![first] + rest =~= links);
        lemma_joined_front(first, rest);
        let tail = first + joined_links(rest);
        assert(title + joined_links(links) =~= title + adjacency_separator() + tail);
        lemma_split_front(title, tail);
        assert forall|i: int| 0 <= i < rest.len() implies free_of_separator(
            #[trigger] rest[i],
        ) by {
            assert(rest[i] == links[i + 1]);
        }
        lemma_fields_of_line(first, rest);
        assert(seq![title] + (seq![first] + rest) =~= seq![title] + links);
    }
}

/// A node whose title and links are free of the separator is read back from
/// its line, without the line feed, as it was written.
pub proof fn lemma_line_read_back(title: Seq<char>, links: Seq<Seq<char>>)
    requires
        free_of_separator(title),
        forall|i: int| 0 <= i < links.len() ==> free_of_separator(#[trigger] links[i]),
    ensures
        loaded(seq![title + joined_links(links)]) == Assoc::<Seq<Seq<char>>>::empty().put(
            title,
            links,
        ),
{
    let line = title + joined_links(links);
    let fields = split_word_spec(line, adjacency_separator());
    lemma_fields_of_line(title, links);
    assert(seq![line].drop_last() == Seq::<Seq<char>>::empty());
    assert(seq![line].last() == line);
    assert(fields[0] == title);
    assert(fields.skip(1) =~= links);
    assert(loaded(Seq::<Seq<char>>::empty()) == Assoc::<Seq<Seq<char>>>::empty());
    assert(loaded(seq![line]) == loaded(seq![line].drop_last()).put(fields[0], fields.skip(1)));
}

/// Splitting always yields at least one field.
pub proof fn lemma_split_word_nonempty(s: Seq<char>, word: Seq<char>)
    ensures
        split_word_spec(s, word).len() >= 1,
{
}

} // verus!
