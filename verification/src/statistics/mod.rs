//! The statistics of a finished graph.

pub mod summary;

use crate::network_generator::{links_model, Network};
use crate::text::views;
use summary::{
    calculate_in_degrees, calculate_out_degrees, degree_histogram, degrees_model, distribution,
    edge_count, find_max_degree, in_degrees, lemma_edge_count_prefix, lemma_in_degrees,
    lemma_max_degree, lemma_total_occurrences, max_degree, number_of_edges, number_of_nodes,
    out_degrees, titles_of_degree,
};
use vstd::prelude::*;

verus! {

/// The numbers that describe a graph.
#[derive(Debug)]
pub struct NetworkStatistics {
    pub number_of_nodes: usize,
    pub number_of_edges: usize,
    pub nodes_of_max_out_degree: Vec<String>,
    pub max_out_degree: usize,
    pub nodes_of_max_in_degree: Vec<String>,
    pub max_in_degree: usize,
    pub out_degree_distribution: Vec<usize>,
    pub in_degree_distribution: Vec<usize>,
}

/// A sequence of counts as natural numbers.
pub open spec fn as_nats(counts: Seq<usize>) -> Seq<nat> {
    counts.map_values(|n: usize| n as nat)
}

/// Gathers the statistics of a graph: its numbers of nodes and edges, the
/// greatest out-degree and in-degree with the titles that have them, and the
/// distributions of both degrees.
pub fn gather_statistics(network: &Network) -> (statistics: NetworkStatistics)
    requires
        network.wf(),
        edge_count(links_model(network).values) < usize::MAX,
    ensures
        statistics.number_of_nodes == links_model(network).titles.len(),
        statistics.number_of_edges == edge_count(links_model(network).values),
        statistics.max_out_degree == max_degree(out_degrees(links_model(network)).values),
        views(statistics.nodes_of_max_out_degree@) == titles_of_degree(
            links_model(network).titles,
            out_degrees(links_model(network)).values,
            statistics.max_out_degree as nat,
        ),
        statistics.max_in_degree == max_degree(in_degrees(links_model(network).values).values),
        views(statistics.nodes_of_max_in_degree@) == titles_of_degree(
            in_degrees(links_model(network).values).titles,
            in_degrees(links_model(network).values).values,
            statistics.max_in_degree as nat,
        ),
        as_nats(statistics.out_degree_distribution@) == distribution(
            out_degrees(links_model(network)).values,
            statistics.max_out_degree as nat,
        ),
        as_nats(statistics.in_degree_distribution@) == distribution(
            in_degrees(links_model(network).values).values,
            statistics.max_in_degree as nat,
        ),
{
    let out = calculate_out_degrees(network);
    let into = calculate_in_degrees(network);
    let (nodes_of_max_out_degree, max_out_degree) = find_max_degree(&out);
    let (nodes_of_max_in_degree, max_in_degree) = find_max_degree(&into);
    proof {
        let lists = links_model(network).values;
        lemma_max_degree(out.titles(), degrees_model(&out).values, 0);
        lemma_max_degree(into.titles(), degrees_model(&into).values, 0);
        assert forall|i: int| 0 <= i < lists.len() implies #[trigger] out_degrees(
            links_model(network),
        ).values[i] <= edge_count(lists) by {
            lemma_edge_count_prefix(lists, i);
        }
        lemma_degree_bound(out_degrees(links_model(network)).values, edge_count(lists));
        assert forall|i: int| 0 <= i < in_degrees(lists).values.len() implies #[trigger] in_degrees(
            lists,
        ).values[i] <= edge_count(lists) by {
            let m = in_degrees(lists);
            let t = m.titles[i];
            lemma_in_degrees(lists, t);
            lemma_total_occurrences(lists, t);
            assert(m.titles.index_of(t) == i);
        }
        lemma_degree_bound(in_degrees(lists).values, edge_count(lists));
    }
    let out_degree_distribution = degree_histogram(&out, max_out_degree);
    let in_degree_distribution = degree_histogram(&into, max_in_degree);
    NetworkStatistics {
        number_of_nodes: number_of_nodes(network),
        number_of_edges: number_of_edges(network),
        nodes_of_max_out_degree,
        max_out_degree,
        nodes_of_max_in_degree,
        max_in_degree,
        out_degree_distribution,
        in_degree_distribution,
    }
}

/// Where no degree is above a bound, the greatest is not either.
pub proof fn lemma_degree_bound(values: Seq<nat>, bound: nat)
    requires
        forall|i: int| 0 <= i < values.len() ==> #[trigger] values[i] <= bound,
    ensures
        max_degree(values) <= bound,
    decreases values.len(),
{
    if values.len() > 0 {
        assert(values[values.len() - 1] <= bound);
        assert forall|i: int| 0 <= i < values.drop_last().len() implies #[trigger] values.drop_last()[i]
            <= bound by {
            assert(values[i] <= bound);
        }
        lemma_degree_bound(values.drop_last(), bound);
    }
}

} // verus!
