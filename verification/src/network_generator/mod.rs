//! From pages to a link graph held in memory: what a page contributes, and
//! how redirects are closed and folded into the links.

pub mod wiki_text;
pub mod wiki_xml_dump;

use crate::records::{AdjacencyRecord, AdjacencyView, RedirectRecord, RedirectView};
use crate::text::{append_between, chars_of, holds, views};
use crate::title_map::{Assoc, TitleMap};
use vstd::prelude::*;
use wiki_text::{
    borrowed_views, first_redirect, is_redirect, lemma_first_redirect_exists, link_targets,
    linked_articles, parse_text, redirects_to, token_views, tokens,
};
use wiki_xml_dump::{PageView, WikiPage};

verus! {

/// The uppercase mapping of a character under the Unicode case tables.
pub uninterp spec fn uppercase(c: char) -> Seq<char>;

/// The uppercase mapping of a character.
///
/// Trusted: the body is `char::to_uppercase`, whose result std documents as
/// the uppercase mapping of the character, which may be more than one
/// character, and the character itself where it has none. The mapping
/// depends on the character alone. The contract only names that result; it
/// says nothing of what the result is.
#[verifier::external_body]
fn to_uppercase(c: char) -> (upper: String)
    ensures
        upper@ == uppercase(c),
{
    c.to_uppercase().collect()
}

/// `link` with `first` in place of its first character; `first` alone where
/// `link` is empty.
pub open spec fn first_replaced(link: Seq<char>, first: Seq<char>) -> Seq<char> {
    if link.len() == 0 {
        first
    } else {
        first + link.skip(1)
    }
}

/// The canonical form of a title: its first character in uppercase and the
/// rest as it stands. The empty title has none.
pub open spec fn canonical(title: Seq<char>) -> Option<Seq<char>> {
    if title.len() == 0 {
        None
    } else {
        Some(first_replaced(title, uppercase(title[0])))
    }
}

/// Canonicalisation touches the first character only: behind the uppercase
/// mapping of that character stands the rest of the title as it was.
pub proof fn lemma_canonical_keeps_rest(title: Seq<char>)
    requires
        title.len() > 0,
    ensures
        canonical(title) matches Some(result) && result.take(uppercase(title[0]).len() as int)
            == uppercase(title[0]) && result.skip(uppercase(title[0]).len() as int) == title.skip(
            1,
        ),
{
    let upper = uppercase(title[0]);
    let result = upper + title.skip(1);
    assert(result.take(upper.len() as int) == upper);
    assert(result.skip(upper.len() as int) == title.skip(1));
}

/// Puts `first` in place of the first character of `link`.
pub fn replace_first(link: &str, first: String) -> (replaced: String)
    ensures
        replaced@ == first_replaced(link@, first@),
{
    let chars = chars_of(link);
    let mut replaced = first;
    if chars.len() > 0 {
        append_between(&mut replaced, &chars, 1, chars.len());
    }
    replaced
}

/// The canonical form of a link target.
pub fn canonicalize_link(link: &String) -> (result: Option<String>)
    ensures
        match result {
            Some(title) => canonical(link@) == Some(title@),
            None => canonical(link@) is None,
        },
{
    let chars = chars_of(link.as_str());
    if chars.len() == 0 {
        return None;
    }
    let upper = to_uppercase(chars[0]);
    Some(replace_first(link.as_str(), upper))
}

/// What a page contributes to the graph.
#[derive(Debug, PartialEq, Eq)]
pub enum PageRecord {
    /// Nothing: the page is no content page, has no text, or redirects to
    /// the empty title.
    Nothing,
    /// The page's links.
    Adjacency(AdjacencyRecord),
    /// The page's redirect.
    Redirect(RedirectRecord),
}

/// A page's contribution as mathematical data.
pub enum PageRecordView {
    Nothing,
    Adjacency(AdjacencyView),
    Redirect(RedirectView),
}

impl View for PageRecord {
    type V = PageRecordView;

    open spec fn view(&self) -> PageRecordView {
        match *self {
            PageRecord::Nothing => PageRecordView::Nothing,
            PageRecord::Adjacency(record) => PageRecordView::Adjacency(record@),
            PageRecord::Redirect(record) => PageRecordView::Redirect(record@),
        }
    }
}

/// The canonical forms of `targets`, in order; a target without one is left out.
pub open spec fn canonical_links(targets: Seq<Seq<char>>) -> Seq<Seq<char>>
    decreases targets.len(),
{
    if targets.len() == 0 {
        Seq::empty()
    } else {
        match canonical(targets.last()) {
            Some(title) => canonical_links(targets.drop_last()).push(title),
            None => canonical_links(targets.drop_last()),
        }
    }
}

/// What a page contributes. Only a page of namespace 0 with a text
/// contributes at all. Where its text holds a redirect, the page is a
/// redirect to the canonical target of the first one; otherwise it is a node
/// with the canonical targets of its links.
pub open spec fn record_of(page: PageView) -> PageRecordView {
    if page.namespace_id != 0 {
        PageRecordView::Nothing
    } else {
        match page.text {
            None => PageRecordView::Nothing,
            Some(text) => match first_redirect(tokens(text)) {
                Some(target) => match canonical(target) {
                    Some(title) => PageRecordView::Redirect(
                        RedirectView { title: page.title, target: title },
                    ),
                    None => PageRecordView::Nothing,
                },
                None => PageRecordView::Adjacency(
                    AdjacencyView {
                        title: page.title,
                        links: canonical_links(link_targets(tokens(text))),
                    },
                ),
            },
        }
    }
}

/// The canonical forms of the given targets.
fn canonicalize_all(targets: &Vec<&String>) -> (links: Vec<String>)
    ensures
        views(links@) == canonical_links(borrowed_views(targets@)),
{
    let mut links: Vec<String> = Vec::new();
    let mut i: usize = 0;
    assert(borrowed_views(targets@).take(0) == Seq::<Seq<char>>::empty());
    while i < targets.len()
        invariant
            i <= targets.len(),
            views(links@) == canonical_links(borrowed_views(targets@).take(i as int)),
        decreases targets.len() - i,
    {
        let ghost before = links@;
        assert(borrowed_views(targets@).take(i + 1).drop_last() == borrowed_views(targets@).take(
            i as int,
        ));
        match canonicalize_link(targets[i]) {
            Some(title) => {
                links.push(title);
                assert(views(links@) == views(before).push(title@));
            },
            None => {},
        }
        i += 1;
    }
    assert(borrowed_views(targets@).take(i as int) == borrowed_views(targets@));
    links
}

/// Extracts what a page contributes to the graph.
pub fn page_record(page: WikiPage) -> (record: PageRecord)
    ensures
        record@ == record_of(page@),
{
    if page.namespace_id != 0 {
        return PageRecord::Nothing;
    }
    let found = match parse_text(&page) {
        Some(found) => found,
        None => { return PageRecord::Nothing; },
    };
    proof {
        lemma_first_redirect_exists(token_views(found@));
    }
    if !is_redirect(&found) {
        let targets = linked_articles(&found);
        let links = canonicalize_all(&targets);
        PageRecord::Adjacency(AdjacencyRecord { title: page.title, links })
    } else {
        match redirects_to(&found) {
            Some(target) => match canonicalize_link(target) {
                Some(title) => PageRecord::Redirect(
                    RedirectRecord { title: page.title, target: title },
                ),
                None => PageRecord::Nothing,
            },
            None => PageRecord::Nothing,
        }
    }
}

/// The graph under construction: every node with the list of its links.
pub type Network = TitleMap<Vec<String>>;

/// The redirects under construction: every redirecting title with its target.
pub type Redirects = TitleMap<String>;

/// A network as titles and lists of titles.
pub open spec fn links_model(network: &Network) -> Assoc<Seq<Seq<char>>> {
    network.model().map_values(|links: Vec<String>| views(links@))
}

/// Redirects as titles and titles.
pub open spec fn targets_model(redirects: &Redirects) -> Assoc<Seq<char>> {
    redirects.model().map_values(|target: String| target@)
}

/// Files a page's contribution: a node replaces an earlier node of the same
/// title, and a redirect an earlier redirect of the same title.
pub fn process_page(network: &mut Network, redirects: &mut Redirects, page: WikiPage)
    requires
        old(network).wf(),
        old(redirects).wf(),
    ensures
        final(network).wf(),
        final(redirects).wf(),
        links_model(final(network)) == match record_of(page@) {
            PageRecordView::Adjacency(record) => links_model(old(network)).put(
                record.title,
                record.links,
            ),
            _ => links_model(old(network)),
        },
        targets_model(final(redirects)) == match record_of(page@) {
            PageRecordView::Redirect(record) => targets_model(old(redirects)).put(
                record.title,
                record.target,
            ),
            _ => targets_model(old(redirects)),
        },
{
    match page_record(page) {
        PageRecord::Adjacency(record) => {
            proof {
                network.model().lemma_put_map_values(
                    record.title@,
                    record.links,
                    |links: Vec<String>| views(links@),
                );
            }
            network.insert(record.title, record.links);
        },
        PageRecord::Redirect(record) => {
            proof {
                redirects.model().lemma_put_map_values(
                    record.title@,
                    record.target,
                    |target: String| target@,
                );
            }
            redirects.insert(record.title, record.target);
        },
        PageRecord::Nothing => {},
    }
}

/// The titles that a walk along redirects can still reach: those that some
/// title of `table` points to and that are not on `path`.
pub open spec fn unvisited(table: Map<Seq<char>, Seq<char>>, path: Seq<Seq<char>>) -> Set<
    Seq<char>,
> {
    table.values().difference(path.to_set())
}

/// A step onto a title that is not on the path leaves fewer titles to reach.
pub proof fn lemma_unvisited_shrinks(
    table: Map<Seq<char>, Seq<char>>,
    path: Seq<Seq<char>>,
    target: Seq<char>,
)
    requires
        table.dom().finite(),
        table.contains_key(target),
        !path.contains(table[target]),
    ensures
        unvisited(table, path).finite(),
        unvisited(table, path.push(table[target])).len() < unvisited(table, path).len(),
{
    let next = table[target];
    vstd::map_lib::lemma_values_finite(table);
    assert(table.values().contains(next));
    assert(unvisited(table, path).contains(next));
    assert forall|t: Seq<char>| path.push(next).contains(t) <==> (path.contains(t) || t == next) by {
        if path.contains(t) {
            let i = choose|i: int| 0 <= i < path.len() && path[i] == t;
            assert(path.push(next)[i] == t);
        }
        if t == next {
            assert(path.push(next)[path.len() as int] == t);
        }
    }
    assert(unvisited(table, path.push(next)) =~= unvisited(table, path).remove(next));
}

/// Where the redirects of `table` lead from `target`, given the titles
/// already stepped onto. The walk moves on while the title it stands on
/// points to another title. It fails where that title is already on the
/// path: the redirects run in a cycle. It ends at a title that points
/// nowhere or to itself.
pub open spec fn chase(
    table: Map<Seq<char>, Seq<char>>,
    target: Seq<char>,
    path: Seq<Seq<char>>,
) -> Option<Seq<char>>
    decreases unvisited(table, path).len(),
    when table.dom().finite()
    via chase_decreases
{
    if table.contains_key(target) && table[target] != target {
        if path.contains(table[target]) {
            None
        } else {
            chase(table, table[target], path.push(table[target]))
        }
    } else {
        Some(target)
    }
}

#[via_fn]
proof fn chase_decreases(
    table: Map<Seq<char>, Seq<char>>,
    target: Seq<char>,
    path: Seq<Seq<char>>,
) {
    if table.contains_key(target) && !path.contains(table[target]) {
        lemma_unvisited_shrinks(table, path, target);
    }
}

/// The terminal title that `target` resolves to in `table`, or nothing where
/// its redirects run in a cycle.
pub open spec fn terminal(table: Map<Seq<char>, Seq<char>>, target: Seq<char>) -> Option<
    Seq<char>,
> {
    chase(table, target, Seq::empty())
}

/// The redirects of the first `n` entries of `redirects`, each with the
/// terminal title of its target in the whole of `redirects`; an entry whose
/// redirects run in a cycle is left out.
pub open spec fn closed_prefix(redirects: Assoc<Seq<char>>, n: int) -> Assoc<Seq<char>>
    decreases n,
{
    if n <= 0 {
        Assoc::empty()
    } else {
        match terminal(redirects.as_map(), redirects.values[n - 1]) {
            Some(title) => closed_prefix(redirects, n - 1).put(redirects.titles[n - 1], title),
            None => closed_prefix(redirects, n - 1),
        }
    }
}

/// The closure of `redirects`: every entry points at a terminal title, and
/// the entries of a cycle are gone.
pub open spec fn closed(redirects: Assoc<Seq<char>>) -> Assoc<Seq<char>> {
    closed_prefix(redirects, redirects.titles.len() as int)
}

/// A closure holds no title twice.
pub proof fn lemma_closed_prefix_wf(redirects: Assoc<Seq<char>>, n: int)
    ensures
        closed_prefix(redirects, n).wf(),
    decreases n,
{
    if n > 0 {
        lemma_closed_prefix_wf(redirects, n - 1);
        match terminal(redirects.as_map(), redirects.values[n - 1]) {
            Some(title) => {
                closed_prefix(redirects, n - 1).lemma_put(redirects.titles[n - 1], title);
            },
            None => {},
        }
    }
}

/// The redirects as a map from title to title agree with the map from title
/// to string.
pub proof fn lemma_targets_map(redirects: &Redirects)
    requires
        redirects.wf(),
    ensures
        targets_model(redirects).as_map().dom() == redirects@.dom(),
        targets_model(redirects).as_map().dom().finite(),
        forall|t: Seq<char>| #[trigger]
            redirects@.contains_key(t) ==> targets_model(redirects).as_map()[t] == redirects@[t]@,
{
    let m = targets_model(redirects);
    m.lemma_finite();
    assert(m.as_map().dom() =~= redirects@.dom());
    assert forall|t: Seq<char>| #[trigger] redirects@.contains_key(t) implies m.as_map()[t]
        == redirects@[t]@ by {
        let i = redirects.titles().index_of(t);
        assert(0 <= i < redirects.titles().len());
    }
}

/// Walks the redirects from `target` to its terminal title.
pub fn follow(redirects: &Redirects, target: &String) -> (end: Option<String>)
    requires
        redirects.wf(),
    ensures
        match end {
            Some(title) => terminal(targets_model(redirects).as_map(), target@) == Some(title@),
            None => terminal(targets_model(redirects).as_map(), target@) is None,
        },
{
    let ghost table = targets_model(redirects).as_map();
    let mut current: &String = target;
    let mut path: Vec<String> = Vec::new();
    proof {
        lemma_targets_map(redirects);
        assert(views(path@) == Seq::<Seq<char>>::empty());
    }
    loop
        invariant
            redirects.wf(),
            table == targets_model(redirects).as_map(),
            table.dom().finite(),
            table.dom() == redirects@.dom(),
            forall|t: Seq<char>| #[trigger] redirects@.contains_key(t) ==> table[t] == redirects@[t]@,
            terminal(table, target@) == chase(table, current@, views(path@)),
        decreases unvisited(table, views(path@)).len(),
    {
        match redirects.get(current.as_str()) {
            Some(next) => {
                assert(table.contains_key(current@));
                assert(table[current@] == next@);
                if *next == *current {
                    return Some(current.clone());
                }
                if holds(&path, next) {
                    return None;
                }
                proof {
                    lemma_unvisited_shrinks(table, views(path@), current@);
                }
                let ghost before = path@;
                path.push(next.clone());
                assert(views(path@) == views(before).push(next@));
                current = next;
            },
            None => {
                return Some(current.clone());
            },
        }
    }
}

/// Closes the redirects: every entry whose redirects end gets the title at
/// which they end, and every entry of a cycle is dropped.
pub fn close_redirects(redirects: Redirects) -> (resolved: Redirects)
    requires
        redirects.wf(),
    ensures
        resolved.wf(),
        targets_model(&resolved) == closed(targets_model(&redirects)),
{
    let mut resolved: Redirects = TitleMap::new();
    let mut i: usize = 0;
    assert(targets_model(&resolved).titles =~= Seq::<Seq<char>>::empty());
    assert(targets_model(&resolved).values =~= Seq::<Seq<char>>::empty());
    let n = redirects.len();
    while i < n
        invariant
            i <= n,
            n == redirects.titles().len(),
            redirects.wf(),
            resolved.wf(),
            targets_model(&resolved) == closed_prefix(targets_model(&redirects), i as int),
        decreases n - i,
    {
        match follow(&redirects, redirects.value_at(i)) {
            Some(title) => {
                proof {
                    resolved.model().lemma_put_map_values(
                        redirects.titles()[i as int],
                        title,
                        |target: String| target@,
                    );
                }
                resolved.insert(redirects.title_at(i).clone(), title);
            },
            None => {},
        }
        i += 1;
    }
    resolved
}

/// `link`, or the title that `redirects` gives it.
pub open spec fn redirected(redirects: Map<Seq<char>, Seq<char>>, link: Seq<char>) -> Seq<char> {
    if redirects.contains_key(link) {
        redirects[link]
    } else {
        link
    }
}

/// Every link of every node, redirected.
pub open spec fn with_redirects(
    links: Assoc<Seq<Seq<char>>>,
    redirects: Map<Seq<char>, Seq<char>>,
) -> Assoc<Seq<Seq<char>>> {
    links.map_values(
        |list: Seq<Seq<char>>| list.map_values(|link: Seq<char>| redirected(redirects, link)),
    )
}

/// The links of one node, redirected.
fn redirect_links(links: &Vec<String>, redirects: &Redirects) -> (replaced: Vec<String>)
    requires
        redirects.wf(),
    ensures
        views(replaced@) == views(links@).map_values(
            |link: Seq<char>| redirected(targets_model(redirects).as_map(), link),
        ),
{
    let mut replaced: Vec<String> = Vec::new();
    let mut j: usize = 0;
    proof {
        lemma_targets_map(redirects);
    }
    while j < links.len()
        invariant
            j <= links.len(),
            redirects.wf(),
            replaced.len() == j,
            forall|k: int|
                0 <= k < j ==> (#[trigger] replaced@[k])@ == redirected(
                    targets_model(redirects).as_map(),
                    links@[k]@,
                ),
        decreases links.len() - j,
    {
        match redirects.get(links[j].as_str()) {
            Some(target) => {
                replaced.push(target.clone());
            },
            None => {
                replaced.push(links[j].clone());
            },
        }
        j += 1;
    }
    assert(views(replaced@) =~= views(links@).map_values(
        |link: Seq<char>| redirected(targets_model(redirects).as_map(), link),
    ));
    replaced
}

/// Replaces every link that is a redirecting title by the title that
/// `redirects` gives it.
pub fn resolve_redirects(network: &mut Network, redirects: Redirects)
    requires
        old(network).wf(),
        redirects.wf(),
    ensures
        final(network).wf(),
        links_model(final(network)) == with_redirects(
            links_model(old(network)),
            targets_model(&redirects).as_map(),
        ),
{
    let n = network.len();
    let mut i: usize = 0;
    let ghost table = targets_model(&redirects).as_map();
    while i < n
        invariant
            i <= n,
            n == network.titles().len(),
            network.wf(),
            redirects.wf(),
            table == targets_model(&redirects).as_map(),
            network.titles() == old(network).titles(),
            forall|k: int|
                0 <= k < i ==> views((#[trigger] network.values()[k])@) == views(
                    old(network).values()[k]@,
                ).map_values(|link: Seq<char>| redirected(table, link)),
            forall|k: int| i <= k < n ==> #[trigger] network.values()[k] == old(network).values()[k],
        decreases n - i,
    {
        let replaced = redirect_links(network.value_at(i), &redirects);
        network.set_value(i, replaced);
        i += 1;
    }
    assert(links_model(network).values =~= with_redirects(links_model(old(network)), table).values);
}

/// The links among `links` that are titles of `titles`, in order.
pub open spec fn kept(links: Seq<Seq<char>>, titles: Seq<Seq<char>>) -> Seq<Seq<char>>
    decreases links.len(),
{
    if links.len() == 0 {
        Seq::empty()
    } else if titles.contains(links.last()) {
        kept(links.drop_last(), titles).push(links.last())
    } else {
        kept(links.drop_last(), titles)
    }
}

/// The network without the links that point to no node.
pub open spec fn pruned(links: Assoc<Seq<Seq<char>>>) -> Assoc<Seq<Seq<char>>> {
    links.map_values(|list: Seq<Seq<char>>| kept(list, links.titles))
}

/// The links of one node that are nodes of `network`.
fn keep_links(links: &Vec<String>, network: &Network) -> (remaining: Vec<String>)
    requires
        network.wf(),
    ensures
        views(remaining@) == kept(views(links@), network.titles()),
{
    let mut remaining: Vec<String> = Vec::new();
    let mut j: usize = 0;
    assert(views(links@).take(0) == Seq::<Seq<char>>::empty());
    while j < links.len()
        invariant
            j <= links.len(),
            network.wf(),
            views(remaining@) == kept(views(links@).take(j as int), network.titles()),
        decreases links.len() - j,
    {
        let ghost before = remaining@;
        assert(views(links@).take(j + 1).drop_last() == views(links@).take(j as int));
        if network.contains_key(links[j].as_str()) {
            remaining.push(links[j].clone());
            assert(views(remaining@) == views(before).push(links@[j as int]@));
        }
        j += 1;
    }
    assert(views(links@).take(j as int) == views(links@));
    remaining
}

/// Drops every link that points to no node of the network.
pub fn remove_dangling_links(network: Network) -> (result: Network)
    requires
        network.wf(),
    ensures
        result.wf(),
        links_model(&result) == pruned(links_model(&network)),
{
    let n = network.len();
    let mut result: Network = TitleMap::new();
    let mut i: usize = 0;
    while i < n
        invariant
            i <= n,
            n == network.titles().len(),
            network.wf(),
            result.wf(),
            result.titles() == network.titles().take(i as int),
            result.values().len() == i,
            forall|k: int|
                0 <= k < i ==> views((#[trigger] result.values()[k])@) == kept(
                    views(network.values()[k]@),
                    network.titles(),
                ),
        decreases n - i,
    {
        let remaining = keep_links(network.value_at(i), &network);
        let title = network.title_at(i).clone();
        proof {
            let t = network.titles()[i as int];
            if result.titles().contains(t) {
                let k = choose|k: int| 0 <= k < result.titles().len() && result.titles()[k] == t;
                assert(network.titles()[k] == t);
            }
            assert(network.titles().take(i as int).push(t) == network.titles().take(i + 1));
        }
        result.insert(title, remaining);
        i += 1;
    }
    assert(network.titles().take(n as int) == network.titles());
    assert(links_model(&result).values =~= pruned(links_model(&network)).values);
    result
}

/// The graph that the collected nodes and redirects give: redirects closed
/// and folded into the links, links to no node dropped.
pub fn remove_redirects(network: Network, redirects: Redirects) -> (result: Network)
    requires
        network.wf(),
        redirects.wf(),
    ensures
        result.wf(),
        links_model(&result) == pruned(
            with_redirects(links_model(&network), closed(targets_model(&redirects)).as_map()),
        ),
{
    let mut network = network;
    let all_redirects = close_redirects(redirects);
    resolve_redirects(&mut network, all_redirects);
    remove_dangling_links(network)
}

/// The nodes and redirects that `pages` contribute, in their order; a later
/// page of one title replaces what an earlier one gave.
pub open spec fn collected(pages: Seq<PageView>) -> (Assoc<Seq<Seq<char>>>, Assoc<Seq<char>>)
    decreases pages.len(),
{
    if pages.len() == 0 {
        (Assoc::empty(), Assoc::empty())
    } else {
        let (links, redirects) = collected(pages.drop_last());
        match record_of(pages.last()) {
            PageRecordView::Nothing => (links, redirects),
            PageRecordView::Adjacency(record) => (links.put(record.title, record.links), redirects),
            PageRecordView::Redirect(record) => (links, redirects.put(record.title, record.target)),
        }
    }
}

/// The views of a sequence of pages, element by element.
pub open spec fn page_views(pages: Seq<WikiPage>) -> Seq<PageView> {
    pages.map_values(|page: WikiPage| page@)
}

/// The link graph of `pages`.
pub fn generate_network(pages: Vec<WikiPage>) -> (network: Network)
    ensures
        network.wf(),
        links_model(&network) == pruned(
            with_redirects(
                collected(page_views(pages@)).0,
                closed(collected(page_views(pages@)).1).as_map(),
            ),
        ),
{
    let mut adjacency: Network = TitleMap::new();
    let mut redirects: Redirects = TitleMap::new();
    let ghost all = page_views(pages@);
    assert(links_model(&adjacency).titles =~= Seq::<Seq<char>>::empty());
    assert(links_model(&adjacency).values =~= Seq::<Seq<Seq<char>>>::empty());
    assert(targets_model(&redirects).titles =~= Seq::<Seq<char>>::empty());
    assert(targets_model(&redirects).values =~= Seq::<Seq<char>>::empty());
    assert(all.take(0) =~= Seq::<PageView>::empty());
    for page in it: pages
        invariant
            adjacency.wf(),
            redirects.wf(),
            page_views(it.seq()) == all,
            links_model(&adjacency) == collected(all.take(it.index())).0,
            targets_model(&redirects) == collected(all.take(it.index())).1,
    {
        assert(all.take(it.index() + 1).drop_last() == all.take(it.index()));
        process_page(&mut adjacency, &mut redirects, page);
    }
    assert(all.take(all.len() as int) =~= all);
    remove_redirects(adjacency, redirects)
}

} // verus!
