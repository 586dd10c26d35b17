use wikilytics::network_generator::Network;
use wikilytics::statistics::gather_statistics;
use wikilytics::statistics::summary::{
    calculate_in_degrees, calculate_out_degrees, degree_histogram, find_max_degree,
    number_of_edges, number_of_nodes, Degrees,
};
use wikilytics::title_map::TitleMap;
use wikilytics::wiki_text::{filter_links, MarkupNode};

fn strings(items: &[&str]) -> Vec<String> {
    items.iter().map(|s| s.to_string()).collect()
}

fn network(nodes: &[(&str, &[&str])]) -> Network {
    let mut n: Network = TitleMap::new();
    for (title, links) in nodes {
        n.insert(title.to_string(), strings(links));
    }
    n
}

fn degrees_of(d: &Degrees) -> Vec<(String, usize)> {
    (0..d.len()).map(|i| (d.title_at(i).clone(), *d.value_at(i))).collect()
}

fn degrees(items: &[(&str, usize)]) -> Vec<(String, usize)> {
    items.iter().map(|(t, n)| (t.to_string(), *n)).collect()
}

fn sample() -> Network {
    network(&[("A", &["B", "C", "B"]), ("B", &["A"]), ("C", &[]), ("D", &["B", "X", "A"])])
}

#[test]
fn nodes_and_edges_are_counted() {
    assert_eq!(number_of_nodes(&sample()), 4);
    assert_eq!(number_of_edges(&sample()), 7);
    assert_eq!(number_of_nodes(&network(&[])), 0);
    assert_eq!(number_of_edges(&network(&[])), 0);
    assert_eq!(number_of_edges(&network(&[("A", &[])])), 0);
}

#[test]
fn out_degree_is_the_length_of_the_list() {
    let d = calculate_out_degrees(&sample());
    assert_eq!(degrees_of(&d), degrees(&[("A", 3), ("B", 1), ("C", 0), ("D", 3)]));
}

#[test]
fn in_degree_counts_every_occurrence() {
    let d = calculate_in_degrees(&sample());
    assert_eq!(degrees_of(&d), degrees(&[("B", 3), ("C", 1), ("A", 2), ("X", 1)]));
    assert_eq!(calculate_in_degrees(&network(&[("A", &[])])).len(), 0);
}

#[test]
fn greatest_degree_comes_with_all_its_titles() {
    let d = calculate_out_degrees(&sample());
    assert_eq!(find_max_degree(&d), (strings(&["A", "D"]), 3));
    let d = calculate_in_degrees(&sample());
    assert_eq!(find_max_degree(&d), (strings(&["B"]), 3));
    let none: Degrees = TitleMap::new();
    assert_eq!(find_max_degree(&none), (vec![], 0));
    let d = calculate_out_degrees(&network(&[("A", &[]), ("B", &[])]));
    assert_eq!(find_max_degree(&d), (strings(&["A", "B"]), 0));
}

#[test]
fn histogram_counts_titles_per_degree() {
    let d = calculate_out_degrees(&sample());
    assert_eq!(degree_histogram(&d, 3), vec![1, 1, 0, 2]);
    assert_eq!(degree_histogram(&d, 5), vec![1, 1, 0, 2, 0, 0]);
    let none: Degrees = TitleMap::new();
    assert_eq!(degree_histogram(&none, 0), vec![0]);
}

#[test]
fn statistics_are_gathered() {
    let s = gather_statistics(&sample());
    assert_eq!(s.number_of_nodes, 4);
    assert_eq!(s.number_of_edges, 7);
    assert_eq!(s.max_out_degree, 3);
    assert_eq!(s.nodes_of_max_out_degree, strings(&["A", "D"]));
    assert_eq!(s.max_in_degree, 3);
    assert_eq!(s.nodes_of_max_in_degree, strings(&["B"]));
    assert_eq!(s.out_degree_distribution, vec![1, 1, 0, 2]);
    assert_eq!(s.in_degree_distribution, vec![0, 2, 1, 1]);
}

#[test]
fn statistics_of_the_empty_graph() {
    let s = gather_statistics(&network(&[]));
    assert_eq!(s.number_of_nodes, 0);
    assert_eq!(s.number_of_edges, 0);
    assert_eq!(s.max_out_degree, 0);
    assert_eq!(s.max_in_degree, 0);
    assert_eq!(s.nodes_of_max_out_degree, Vec::<String>::new());
    assert_eq!(s.nodes_of_max_in_degree, Vec::<String>::new());
    assert_eq!(s.out_degree_distribution, vec![0]);
    assert_eq!(s.in_degree_distribution, vec![0]);
}

fn target(t: &str) -> MarkupNode {
    MarkupNode::Target(t.to_string())
}

#[test]
fn targets_of_a_flat_page_come_in_order() {
    let nodes = vec![target("A"), MarkupNode::Other, target("B"), target("A")];
    assert_eq!(filter_links(nodes), strings(&["A", "B", "A"]));
    assert_eq!(filter_links(vec![]), Vec::<String>::new());
    assert_eq!(filter_links(vec![MarkupNode::Other]), Vec::<String>::new());
}

#[test]
fn targets_of_a_tree_come_level_by_level() {
    let nodes = vec![
        MarkupNode::Container(vec![
            target("deep1"),
            MarkupNode::Container(vec![target("deeper")]),
            target("deep2"),
        ]),
        target("top1"),
        MarkupNode::Container(vec![MarkupNode::Other, target("deep3")]),
        target("top2"),
        MarkupNode::Container(vec![]),
    ];
    assert_eq!(
        filter_links(nodes),
        strings(&["top1", "top2", "deep1", "deep2", "deep3", "deeper"])
    );
}
