//! Counts over a finished graph: nodes, edges, degrees and their histogram.

use crate::network_generator::{links_model, Network};
use crate::text::views;
use crate::title_map::{Assoc, TitleMap};
use vstd::prelude::*;

verus! {

/// A degree for every title.
pub type Degrees = TitleMap<usize>;

/// The degrees as natural numbers.
pub open spec fn degrees_model(degrees: &Degrees) -> Assoc<nat> {
    degrees.model().map_values(|n: usize| n as nat)
}

/// The number of links in all the lists together.
pub open spec fn edge_count(lists: Seq<Seq<Seq<char>>>) -> nat
    decreases lists.len(),
{
    if lists.len() == 0 {
        0
    } else {
        edge_count(lists.drop_last()) + lists.last().len()
    }
}

/// The links of a part of the lists are no more than those of all.
pub proof fn lemma_edge_count_prefix(lists: Seq<Seq<Seq<char>>>, k: int)
    requires
        0 <= k <= lists.len(),
    ensures
        edge_count(lists.take(k)) <= edge_count(lists),
        k < lists.len() ==> edge_count(lists.take(k)) + lists[k].len() <= edge_count(lists),
    decreases lists.len() - k,
{
    if k < lists.len() {
        assert(lists.take(k + 1).drop_last() == lists.take(k));
        lemma_edge_count_prefix(lists, k + 1);
    } else {
        assert(lists.take(k) == lists);
    }
}

/// The number of nodes of the graph.
pub fn number_of_nodes(network: &Network) -> (nodes: usize)
    ensures
        nodes == network.titles().len(),
{
    network.len()
}

/// The number of edges of the graph: the links of all nodes together, each
/// occurrence counted.
pub fn number_of_edges(network: &Network) -> (edges: usize)
    requires
        network.wf(),
        edge_count(links_model(network).values) <= usize::MAX,
    ensures
        edges == edge_count(links_model(network).values),
{
    let n = network.len();
    let mut edges: usize = 0;
    let mut i: usize = 0;
    let ghost lists = links_model(network).values;
    assert(lists.take(0) == Seq::<Seq<Seq<char>>>::empty());
    while i < n
        invariant
            i <= n,
            n == network.titles().len(),
            network.wf(),
            lists == links_model(network).values,
            edge_count(lists) <= usize::MAX,
            edges == edge_count(lists.take(i as int)),
        decreases n - i,
    {
        proof {
            lemma_edge_count_prefix(lists, i as int);
            assert(lists.take(i + 1).drop_last() == lists.take(i as int));
        }
        edges = edges + network.value_at(i).len();
        i += 1;
    }
    assert(lists.take(n as int) == lists);
    edges
}

/// The out-degree of every node: the length of its list of links.
pub open spec fn out_degrees(links: Assoc<Seq<Seq<char>>>) -> Assoc<nat> {
    links.map_values(|list: Seq<Seq<char>>| list.len())
}

/// The out-degree of every node, the nodes in the order of the graph.
pub fn calculate_out_degrees(network: &Network) -> (degrees: Degrees)
    requires
        network.wf(),
    ensures
        degrees.wf(),
        degrees_model(&degrees) == out_degrees(links_model(network)),
{
    let n = network.len();
    let mut degrees: Degrees = TitleMap::new();
    let mut i: usize = 0;
    let ghost goal = out_degrees(links_model(network));
    while i < n
        invariant
            i <= n,
            n == network.titles().len(),
            network.wf(),
            degrees.wf(),
            goal == out_degrees(links_model(network)),
            degrees.titles() == network.titles().take(i as int),
            degrees_model(&degrees).values == goal.values.take(i as int),
        decreases n - i,
    {
        let ghost before = degrees_model(&degrees).values;
        proof {
            let t = network.titles()[i as int];
            if degrees.titles().contains(t) {
                let k = choose|k: int| 0 <= k < degrees.titles().len() && degrees.titles()[k] == t;
                assert(network.titles()[k] == t);
            }
            assert(network.titles().take(i as int).push(t) == network.titles().take(i + 1));
            assert(goal.values.take(i as int).push(goal.values[i as int]) == goal.values.take(
                i + 1,
            ));
        }
        let degree = network.value_at(i).len();
        degrees.insert(network.title_at(i).clone(), degree);
        assert(degrees_model(&degrees).values =~= before.push(degree as nat));
        i += 1;
    }
    assert(network.titles().take(n as int) == network.titles());
    assert(goal.values.take(n as int) == goal.values);
    degrees
}

/// The counts after one more list of links: every link raises the count of
/// its title by one, and a title that is new starts at one.
pub open spec fn tallied(counts: Assoc<nat>, links: Seq<Seq<char>>) -> Assoc<nat>
    decreases links.len(),
{
    if links.len() == 0 {
        counts
    } else {
        let before = tallied(counts, links.drop_last());
        before.put(
            links.last(),
            match before.get(links.last()) {
                Some(n) => n + 1,
                None => 1,
            },
        )
    }
}

/// The in-degree of every title that is linked to, the titles in the order
/// in which the lists first name them.
pub open spec fn in_degrees(lists: Seq<Seq<Seq<char>>>) -> Assoc<nat>
    decreases lists.len(),
{
    if lists.len() == 0 {
        Assoc::empty()
    } else {
        tallied(in_degrees(lists.drop_last()), lists.last())
    }
}

/// How often `title` occurs in `links`.
pub open spec fn occurrences(links: Seq<Seq<char>>, title: Seq<char>) -> nat
    decreases links.len(),
{
    if links.len() == 0 {
        0
    } else if links.last() == title {
        occurrences(links.drop_last(), title) + 1
    } else {
        occurrences(links.drop_last(), title)
    }
}

/// How often `title` occurs in all the lists together.
pub open spec fn total_occurrences(lists: Seq<Seq<Seq<char>>>, title: Seq<char>) -> nat
    decreases lists.len(),
{
    if lists.len() == 0 {
        0
    } else {
        total_occurrences(lists.drop_last(), title) + occurrences(lists.last(), title)
    }
}

/// The count of a title, zero where it has none.
pub open spec fn count_of(counts: Assoc<nat>, title: Seq<char>) -> nat {
    match counts.get(title) {
        Some(n) => n,
        None => 0,
    }
}

/// Tallying a list adds to every count the occurrences of its title, keeps
/// every count that is held above zero, and holds no title that it has not
/// counted.
pub proof fn lemma_tallied(counts: Assoc<nat>, links: Seq<Seq<char>>, title: Seq<char>)
    requires
        counts.wf(),
        counts.titles.contains(title) ==> count_of(counts, title) > 0,
    ensures
        tallied(counts, links).wf(),
        count_of(tallied(counts, links), title) == count_of(counts, title) + occurrences(
            links,
            title,
        ),
        tallied(counts, links).titles.contains(title) ==> count_of(tallied(counts, links), title)
            > 0,
    decreases links.len(),
{
    if links.len() > 0 {
        let before = tallied(counts, links.drop_last());
        lemma_tallied(counts, links.drop_last(), title);
        let value: nat = match before.get(links.last()) {
            Some(n) => n + 1,
            None => 1,
        };
        before.lemma_put(links.last(), value);
        let after = before.put(links.last(), value);
        assert(after.as_map().contains_key(title) == after.titles.contains(title));
        assert(before.as_map().contains_key(title) == before.titles.contains(title));
        assert(before.as_map().contains_key(links.last()) == before.titles.contains(links.last()));
        if after.titles.contains(title) {
            assert(after.as_map()[title] == after.values[after.titles.index_of(title)]);
        }
        if before.titles.contains(title) {
            assert(before.as_map()[title] == before.values[before.titles.index_of(title)]);
        }
        if before.titles.contains(links.last()) {
            assert(before.as_map()[links.last()] == before.values[before.titles.index_of(
                links.last(),
            )]);
        }
    }
}

/// The in-degree of a title is the number of its occurrences in all the
/// lists, and only titles that occur have one.
pub proof fn lemma_in_degrees(lists: Seq<Seq<Seq<char>>>, title: Seq<char>)
    ensures
        in_degrees(lists).wf(),
        count_of(in_degrees(lists), title) == total_occurrences(lists, title),
        in_degrees(lists).titles.contains(title) <==> total_occurrences(lists, title) > 0,
    decreases lists.len(),
{
    if lists.len() > 0 {
        lemma_in_degrees(lists.drop_last(), title);
        lemma_tallied(in_degrees(lists.drop_last()), lists.last(), title);
    }
}

/// No title occurs more often than there are links.
pub proof fn lemma_total_occurrences(lists: Seq<Seq<Seq<char>>>, title: Seq<char>)
    ensures
        total_occurrences(lists, title) <= edge_count(lists),
    decreases lists.len(),
{
    if lists.len() > 0 {
        lemma_total_occurrences(lists.drop_last(), title);
        lemma_occurrences(lists.last(), title);
    }
}

/// No title occurs more often in a list than the list is long.
pub proof fn lemma_occurrences(links: Seq<Seq<char>>, title: Seq<char>)
    ensures
        occurrences(links, title) <= links.len(),
    decreases links.len(),
{
    if links.len() > 0 {
        lemma_occurrences(links.drop_last(), title);
    }
}

/// The in-degree of every title that some node links to: the number of links
/// to it, each occurrence counted.
pub fn calculate_in_degrees(network: &Network) -> (degrees: Degrees)
    requires
        network.wf(),
        edge_count(links_model(network).values) <= usize::MAX,
    ensures
        degrees.wf(),
        degrees_model(&degrees) == in_degrees(links_model(network).values),
{
    let n = network.len();
    let mut degrees: Degrees = TitleMap::new();
    let mut i: usize = 0;
    let ghost lists = links_model(network).values;
    let ghost as_nat = |n: usize| n as nat;
    proof {
        assert(lists.take(0) == Seq::<Seq<Seq<char>>>::empty());
        assert(degrees_model(&degrees).titles =~= Seq::<Seq<char>>::empty());
        assert(degrees_model(&degrees).values =~= Seq::<nat>::empty());
    }
    while i < n
        invariant
            i <= n,
            n == network.titles().len(),
            network.wf(),
            degrees.wf(),
            lists == links_model(network).values,
            edge_count(lists) <= usize::MAX,
            degrees_model(&degrees) == in_degrees(lists.take(i as int)),
            forall|k: int|
                0 <= k < degrees.values().len() ==> #[trigger] degrees.values()[k] <= edge_count(
                    lists.take(i as int),
                ),
        decreases n - i,
    {
        let links = network.value_at(i);
        let mut j: usize = 0;
        proof {
            lemma_edge_count_prefix(lists, i as int);
            assert(lists.take(i + 1).drop_last() == lists.take(i as int));
            assert(lists.take(i + 1).last() == views(links@));
            assert(views(links@).take(0) == Seq::<Seq<char>>::empty());
        }
        while j < links.len()
            invariant
                j <= links.len(),
                degrees.wf(),
                edge_count(lists.take(i as int)) + links.len() <= usize::MAX,
                degrees_model(&degrees) == tallied(
                    in_degrees(lists.take(i as int)),
                    views(links@).take(j as int),
                ),
                forall|k: int|
                    0 <= k < degrees.values().len() ==> #[trigger] degrees.values()[k]
                        <= edge_count(lists.take(i as int)) + j,
            decreases links.len() - j,
        {
            let ghost before = degrees_model(&degrees);
            let ghost title = links@[j as int]@;
            proof {
                assert(views(links@).take(j + 1).drop_last() == views(links@).take(j as int));
                assert(views(links@).take(j + 1).last() == title);
                if degrees.titles().contains(title) {
                    let k = degrees.titles().index_of(title);
                    assert(0 <= k < degrees.titles().len());
                }
            }
            let count: usize = match degrees.get(links[j].as_str()) {
                Some(n) => *n + 1,
                None => 1,
            };
            proof {
                degrees.model().lemma_put_map_values(title, count, |n: usize| n as nat);
            }
            let ghost old_values = degrees.values();
            let ghost old_titles = degrees.titles();
            degrees.insert(links[j].clone(), count);
            proof {
                assert forall|k: int| 0 <= k < degrees.values().len() implies #[trigger] degrees.values()[k]
                    <= edge_count(lists.take(i as int)) + j + 1 by {
                    if k < old_values.len() && degrees.values()[k] != count {
                        assert(old_values[k] == degrees.values()[k]);
                    }
                }
            }
            j += 1;
        }
        proof {
            assert(views(links@).take(j as int) == views(links@));
        }
        i += 1;
    }
    assert(lists.take(n as int) == lists);
    degrees
}

/// The greatest of the degrees, zero where there are none.
pub open spec fn max_degree(values: Seq<nat>) -> nat
    decreases values.len(),
{
    if values.len() == 0 {
        0
    } else if values.last() > max_degree(values.drop_last()) {
        values.last()
    } else {
        max_degree(values.drop_last())
    }
}

/// The titles whose degree is `degree`, in order.
pub open spec fn titles_of_degree(titles: Seq<Seq<char>>, values: Seq<nat>, degree: nat) -> Seq<
    Seq<char>,
>
    decreases titles.len(),
{
    if titles.len() == 0 || values.len() == 0 {
        Seq::empty()
    } else if values.last() == degree {
        titles_of_degree(titles.drop_last(), values.drop_last(), degree).push(titles.last())
    } else {
        titles_of_degree(titles.drop_last(), values.drop_last(), degree)
    }
}

/// No degree is above the greatest, and no title has a degree above it.
pub proof fn lemma_max_degree(titles: Seq<Seq<char>>, values: Seq<nat>, degree: nat)
    requires
        titles.len() == values.len(),
    ensures
        forall|i: int| 0 <= i < values.len() ==> #[trigger] values[i] <= max_degree(values),
        degree > max_degree(values) ==> titles_of_degree(titles, values, degree) == Seq::<
            Seq<char>,
        >::empty(),
    decreases values.len(),
{
    if values.len() > 0 {
        lemma_max_degree(titles.drop_last(), values.drop_last(), degree);
        assert forall|i: int| 0 <= i < values.len() implies #[trigger] values[i] <= max_degree(
            values,
        ) by {
            if i < values.len() - 1 {
                assert(values.drop_last()[i] == values[i]);
            }
        }
    }
}

/// The greatest degree and the titles that have it, in order.
pub fn find_max_degree(degrees: &Degrees) -> (result: (Vec<String>, usize))
    requires
        degrees.wf(),
    ensures
        result.1 == max_degree(degrees_model(degrees).values),
        views(result.0@) == titles_of_degree(
            degrees.titles(),
            degrees_model(degrees).values,
            result.1 as nat,
        ),
{
    let n = degrees.len();
    let mut greatest: usize = 0;
    let mut nodes: Vec<String> = Vec::new();
    let mut i: usize = 0;
    let ghost values = degrees_model(degrees).values;
    let ghost titles = degrees.titles();
    proof {
        assert(values.take(0) == Seq::<nat>::empty());
        assert(titles.take(0) == Seq::<Seq<char>>::empty());
        assert(views(nodes@) =~= Seq::<Seq<char>>::empty());
    }
    while i < n
        invariant
            i <= n,
            n == degrees.titles().len(),
            degrees.wf(),
            values == degrees_model(degrees).values,
            titles == degrees.titles(),
            greatest == max_degree(values.take(i as int)),
            views(nodes@) == titles_of_degree(
                titles.take(i as int),
                values.take(i as int),
                greatest as nat,
            ),
        decreases n - i,
    {
        let degree = *degrees.value_at(i);
        let ghost before = nodes@;
        proof {
            assert(values[i as int] == degree as nat);
            assert(values.take(i + 1).drop_last() == values.take(i as int));
            assert(titles.take(i + 1).drop_last() == titles.take(i as int));
            lemma_max_degree(titles.take(i as int), values.take(i as int), degree as nat);
        }
        if degree > greatest {
            greatest = degree;
            nodes = Vec::new();
            nodes.push(degrees.title_at(i).clone());
            assert(views(nodes@) =~= Seq::<Seq<char>>::empty().push(titles[i as int]));
        } else if degree == greatest {
            nodes.push(degrees.title_at(i).clone());
            assert(views(nodes@) =~= views(before).push(titles[i as int]));
        }
        i += 1;
    }
    assert(values.take(n as int) == values);
    assert(titles.take(n as int) == titles);
    (nodes, greatest)
}

/// How many of the degrees are `degree`.
pub open spec fn count_of_degree(values: Seq<nat>, degree: nat) -> nat
    decreases values.len(),
{
    if values.len() == 0 {
        0
    } else if values.last() == degree {
        count_of_degree(values.drop_last(), degree) + 1
    } else {
        count_of_degree(values.drop_last(), degree)
    }
}

/// No degree is counted more often than there are degrees.
pub proof fn lemma_count_of_degree(values: Seq<nat>, degree: nat)
    ensures
        count_of_degree(values, degree) <= values.len(),
    decreases values.len(),
{
    if values.len() > 0 {
        lemma_count_of_degree(values.drop_last(), degree);
    }
}

/// The distribution of degrees: at every position `d` up to `max_degree`,
/// the number of titles of degree `d`.
pub open spec fn distribution(values: Seq<nat>, max_degree: nat) -> Seq<nat> {
    Seq::new(max_degree + 1, |d: int| count_of_degree(values, d as nat))
}

/// The distribution of the degrees, from degree 0 to `max_degree`.
pub fn degree_histogram(degrees: &Degrees, max_degree: usize) -> (histogram: Vec<usize>)
    requires
        degrees.wf(),
        max_degree < usize::MAX,
        forall|i: int|
            0 <= i < degrees_model(degrees).values.len() ==> #[trigger] degrees_model(
                degrees,
            ).values[i] <= max_degree,
    ensures
        histogram@.map_values(|n: usize| n as nat) == distribution(
            degrees_model(degrees).values,
            max_degree as nat,
        ),
{
    let n = degrees.len();
    let mut histogram: Vec<usize> = vec![0usize; max_degree + 1];
    let mut i: usize = 0;
    let ghost values = degrees_model(degrees).values;
    assert(values.take(0) == Seq::<nat>::empty());
    while i < n
        invariant
            i <= n,
            n == degrees.titles().len(),
            degrees.wf(),
            values == degrees_model(degrees).values,
            histogram.len() == max_degree + 1,
            forall|k: int| 0 <= k < values.len() ==> #[trigger] values[k] <= max_degree,
            forall|d: int|
                0 <= d <= max_degree ==> #[trigger] histogram[d] == count_of_degree(
                    values.take(i as int),
                    d as nat,
                ),
        decreases n - i,
    {
        let degree = *degrees.value_at(i);
        proof {
            assert(values[i as int] == degree as nat);
            assert(values.take(i + 1).drop_last() == values.take(i as int));
            lemma_count_of_degree(values.take(i as int), degree as nat);
        }
        let count = histogram[degree];
        histogram.set(degree, count + 1);
        i += 1;
    }
    assert(values.take(n as int) == values);
    assert(histogram@.map_values(|n: usize| n as nat) =~= distribution(values, max_degree as nat));
    histogram
}

} // verus!
