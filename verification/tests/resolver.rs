use wikilytics::error::ParseError;
use wikilytics::network::{
    advance_pending, close_redirects, close_table, parse_redirects, read_redirects,
    resolve_redirects, Lookup, Pending, Resolution, Resolver,
};
use wikilytics::text::holds;
use wikilytics::records::RedirectRecord;

fn record(title: &str, target: &str) -> RedirectRecord {
    RedirectRecord { title: title.to_string(), target: target.to_string() }
}

fn table(pairs: &[(&str, &str)]) -> Vec<RedirectRecord> {
    pairs.iter().map(|(a, b)| record(a, b)).collect()
}

fn strings(items: &[&str]) -> Vec<String> {
    items.iter().map(|s| s.to_string()).collect()
}

fn pending(title: &str, target: &str, path: &[&str]) -> Pending {
    Pending { title: title.to_string(), target: target.to_string(), path: strings(path) }
}

fn sorted(mut records: Vec<RedirectRecord>) -> Vec<(String, String)> {
    let mut pairs: Vec<(String, String)> =
        records.drain(..).map(|r| (r.title, r.target)).collect();
    pairs.sort();
    pairs
}

fn pairs(items: &[(&str, &str)]) -> Vec<(String, String)> {
    let mut v: Vec<(String, String)> =
        items.iter().map(|(a, b)| (a.to_string(), b.to_string())).collect();
    v.sort();
    v
}

/// Runs the rounds by hand, as a driver over a file would, and counts them.
fn rounds(all: &[(&str, &str)], batch_size: usize) -> (Vec<RedirectRecord>, usize) {
    let artifact = table(all);
    let mut resolver = Resolver::new(batch_size);
    let mut next = 0;
    let mut out = Vec::new();
    let mut count = 0;
    while next < artifact.len() || !resolver.is_empty() {
        while resolver.room() > 0 && next < artifact.len() {
            resolver.enqueue(artifact[next].duplicate());
            next += 1;
        }
        let mut lookup = Lookup::new(&resolver.targets());
        for line in &artifact {
            if lookup.feed(line.duplicate()) {
                break;
            }
        }
        out.extend(resolver.advance(&lookup).emitted);
        count += 1;
    }
    (out, count)
}

#[test]
fn redirect_line_is_read_by_its_first_two_fields() {
    assert_eq!(parse_redirects("A;B".to_string()), Ok(record("A", "B")));
    assert_eq!(parse_redirects("A;B;C".to_string()), Ok(record("A", "B")));
    assert_eq!(parse_redirects(";".to_string()), Ok(record("", "")));
    assert_eq!(parse_redirects("A b;\u{c4} c".to_string()), Ok(record("A b", "\u{c4} c")));
}

#[test]
fn redirect_line_without_separator_is_rejected() {
    assert_eq!(parse_redirects("AB".to_string()), Err(ParseError::MissingField));
    assert_eq!(parse_redirects("".to_string()), Err(ParseError::MissingField));
}

#[test]
fn written_redirect_line_is_read_back() {
    let written = wikilytics::network::redirect_line(&record("Some title", "Its target"));
    let line = written.strip_suffix('\n').unwrap().to_string();
    assert_eq!(parse_redirects(line), Ok(record("Some title", "Its target")));
}

#[test]
fn hop_to_another_title_is_progress() {
    let result = advance_pending(pending("A", "B", &[]), Some(&"C".to_string()));
    assert_eq!(result, Resolution::Active(pending("A", "C", &["C"])));
    let result = advance_pending(pending("A", "C", &["C"]), Some(&"D".to_string()));
    assert_eq!(result, Resolution::Active(pending("A", "D", &["C", "D"])));
}

#[test]
fn no_hop_or_a_hop_to_itself_is_final() {
    assert_eq!(advance_pending(pending("A", "B", &["B"]), None), Resolution::Resolved(record("A", "B")));
    let result = advance_pending(pending("A", "B", &[]), Some(&"B".to_string()));
    assert_eq!(result, Resolution::Resolved(record("A", "B")));
}

#[test]
fn hop_onto_the_path_is_a_cycle() {
    let result = advance_pending(pending("A", "B", &["A", "B"]), Some(&"A".to_string()));
    assert_eq!(result, Resolution::Cycle(pending("A", "B", &["A", "B"])));
    assert!(holds(&strings(&["A", "B"]), &"B".to_string()));
    assert!(!holds(&strings(&["A", "B"]), &"b".to_string()));
    assert!(!holds(&vec![], &"".to_string()));
}

#[test]
fn lookup_finds_the_first_record_of_each_title() {
    let artifact = table(&[("A", "B"), ("B", "C"), ("A", "Z"), ("D", "E")]);
    let lookup = resolve_redirects(&artifact, &strings(&["A", "C", "D", "A"]));
    assert_eq!(lookup.get("A"), Some(&"B".to_string()));
    assert_eq!(lookup.get("C"), None);
    assert_eq!(lookup.get("D"), Some(&"E".to_string()));
    assert_eq!(lookup.get("B"), None);
    assert!(!lookup.is_complete());
}

#[test]
fn lookup_is_complete_once_all_are_found() {
    let mut lookup = Lookup::new(&strings(&["A", "B"]));
    assert!(!lookup.is_complete());
    assert!(!lookup.feed(record("X", "Y")));
    assert!(!lookup.feed(record("B", "C")));
    assert!(!lookup.feed(record("B", "D")));
    assert!(lookup.feed(record("A", "B")));
    assert!(lookup.is_complete());
    assert!(lookup.feed(record("A", "Q")));
    assert_eq!(lookup.get("A"), Some(&"B".to_string()));
    assert_eq!(lookup.get("B"), Some(&"C".to_string()));
    assert!(Lookup::new(&vec![]).is_complete());
}

#[test]
fn resolver_keeps_to_its_batch_size() {
    let mut resolver = Resolver::new(2);
    assert!(resolver.is_empty());
    assert_eq!(resolver.room(), 2);
    resolver.enqueue(record("A", "B"));
    assert_eq!(resolver.room(), 1);
    resolver.enqueue(record("C", "D"));
    assert_eq!(resolver.room(), 0);
    assert_eq!(resolver.targets(), strings(&["B", "D"]));
    assert_eq!(resolver.batch, vec![pending("A", "B", &[]), pending("C", "D", &[])]);
}

#[test]
fn round_moves_every_entry_by_one_hop() {
    let artifact = table(&[("A", "B"), ("B", "C"), ("X", "X"), ("P", "Q"), ("Q", "P")]);
    let mut resolver = Resolver::new(10);
    for r in &artifact {
        resolver.enqueue(r.duplicate());
    }
    let lookup = resolve_redirects(&artifact, &resolver.targets());
    let round = resolver.advance(&lookup);
    assert_eq!(round.emitted, vec![record("B", "C"), record("X", "X")]);
    assert_eq!(round.dropped, vec![]);
    assert_eq!(
        resolver.batch,
        vec![pending("A", "C", &["C"]), pending("P", "P", &["P"]), pending("Q", "Q", &["Q"])]
    );
    let lookup = resolve_redirects(&artifact, &resolver.targets());
    let round = resolver.advance(&lookup);
    assert_eq!(round.emitted, vec![record("A", "C")]);
    assert_eq!(round.dropped, vec![]);
    assert_eq!(
        resolver.batch,
        vec![pending("P", "Q", &["P", "Q"]), pending("Q", "P", &["Q", "P"])]
    );
    let lookup = resolve_redirects(&artifact, &resolver.targets());
    let round = resolver.advance(&lookup);
    assert_eq!(round.emitted, vec![]);
    assert_eq!(
        round.dropped,
        vec![pending("P", "Q", &["P", "Q"]), pending("Q", "P", &["Q", "P"])]
    );
    assert!(resolver.is_empty());
}

#[test]
fn chain_resolves_to_its_end_within_two_rounds() {
    let (out, count) = rounds(&[("A", "B"), ("B", "C")], 10_000);
    assert_eq!(sorted(out), pairs(&[("A", "C"), ("B", "C")]));
    assert_eq!(count, 2);
    assert_eq!(sorted(close_table(&table(&[("A", "B"), ("B", "C")]), 10_000).records), pairs(&[("A", "C"), ("B", "C")]));
}

#[test]
fn cycle_leaves_neither_title() {
    let (out, _) = rounds(&[("A", "B"), ("B", "A")], 10_000);
    assert_eq!(out, vec![]);
    let closed = close_table(&table(&[("A", "B"), ("B", "A")]), 10_000);
    assert_eq!(closed.records, vec![]);
    assert_eq!(
        closed.dropped,
        vec![pending("A", "B", &["A", "B"]), pending("B", "A", &["B", "A"])]
    );
    assert_eq!(closed.rounds, 3);
    assert_eq!(close_table(&table(&[("A", "B"), ("B", "C"), ("C", "A")]), 2).records, vec![]);
}

#[test]
fn self_redirect_is_retained() {
    let closed = close_table(&table(&[("A", "A")]), 10_000);
    assert_eq!(closed.records, vec![record("A", "A")]);
    assert_eq!(closed.dropped, vec![]);
    assert_eq!(closed.rounds, 1);
    assert_eq!(
        sorted(close_table(&table(&[("A", "A"), ("B", "A")]), 10_000).records),
        pairs(&[("A", "A"), ("B", "A")])
    );
}

#[test]
fn chain_into_a_cycle_is_dropped_with_it() {
    let artifact = table(&[("X", "A"), ("A", "B"), ("B", "A"), ("Y", "Z")]);
    let closed = close_table(&artifact, 3);
    assert_eq!(closed.dropped.len(), 3);
    assert_eq!(sorted(closed.records), pairs(&[("Y", "Z")]));
}

#[test]
fn terminal_redirect_stays_as_it_is() {
    let artifact = table(&[("C", "A")]);
    assert_eq!(close_table(&artifact, 1).records, vec![record("C", "A")]);
}

#[test]
fn chain_in_one_batch_is_closed_in_two_rounds() {
    for batch_size in [2, 3, 10_000] {
        let closed = close_table(&table(&[("A", "B"), ("B", "C")]), batch_size);
        assert_eq!(closed.rounds, 2);
        assert_eq!(closed.records, vec![record("B", "C"), record("A", "C")]);
        assert_eq!(closed.dropped, vec![]);
    }
    assert_eq!(close_table(&table(&[("A", "B"), ("B", "C")]), 1).rounds, 3);
}

#[test]
fn chain_of_length_n_takes_n_rounds() {
    let all = [("A", "B"), ("B", "C"), ("C", "D"), ("D", "E"), ("E", "F")];
    assert_eq!(close_table(&table(&all), 5).rounds, 5);
    assert_eq!(close_table(&table(&all), 10_000).rounds, 5);
    let (out, count) = rounds(&all, 10_000);
    assert_eq!(count, 5);
    assert_eq!(
        sorted(out),
        pairs(&[("A", "F"), ("B", "F"), ("C", "F"), ("D", "F"), ("E", "F")])
    );
}

#[test]
fn batch_size_changes_the_order_not_the_records() {
    let all = [
        ("A", "B"), ("B", "C"), ("C", "D"), ("P", "Q"), ("Q", "P"), ("S", "S"), ("T", "A"),
        ("U", "P"), ("V", "W"), ("A", "Z"),
    ];
    let expected = pairs(&[
        ("A", "D"), ("B", "D"), ("C", "D"), ("S", "S"), ("T", "D"), ("V", "W"), ("A", "Z"),
    ]);
    for batch_size in [1, 2, 3, 4, 7, 10, 100] {
        assert_eq!(
            sorted(close_table(&table(&all), batch_size).records),
            expected,
            "batch {}",
            batch_size
        );
        assert_eq!(sorted(rounds(&all, batch_size).0), expected, "rounds {}", batch_size);
    }
}

#[test]
fn records_become_final_round_by_round() {
    let all = [("A", "B"), ("B", "C"), ("C", "D"), ("X", "Y")];
    let closed = close_table(&table(&all), 10).records;
    assert_eq!(
        closed,
        vec![record("C", "D"), record("X", "Y"), record("B", "D"), record("A", "D")]
    );
    let closed = close_table(&table(&all), 1).records;
    assert_eq!(
        closed,
        vec![record("A", "D"), record("B", "D"), record("C", "D"), record("X", "Y")]
    );
    let closed = close_table(&table(&all), 2).records;
    assert_eq!(
        closed,
        vec![record("B", "D"), record("A", "D"), record("C", "D"), record("X", "Y")]
    );
}

#[test]
fn configured_sizes() {
    assert_eq!(wikilytics::network::BATCH_SIZE, 10_000);
    assert_eq!(wikilytics::network::WORKERS, 4);
}

#[test]
fn empty_artifact_closes_to_nothing() {
    let closed = close_table(&vec![], 5);
    assert_eq!(closed.records, vec![]);
    assert_eq!(closed.dropped, vec![]);
    assert_eq!(closed.rounds, 0);
    assert_eq!(close_redirects(&vec![], 5).unwrap().records, vec![]);
}

#[test]
fn artifact_is_closed_from_its_lines() {
    let lines = strings(&["A;B", "B;C", "X;Y;ignored"]);
    let closed = close_redirects(&lines, 2).unwrap();
    assert_eq!(closed.rounds, 2);
    assert_eq!(sorted(closed.records), pairs(&[("A", "C"), ("B", "C"), ("X", "Y")]));
}

#[test]
fn malformed_line_rejects_the_artifact() {
    let lines = strings(&["A;B", "no separator", "B;C"]);
    assert_eq!(close_redirects(&lines, 2).unwrap_err(), ParseError::MissingField);
    assert_eq!(read_redirects(&lines), Err(ParseError::MissingField));
    assert_eq!(read_redirects(&strings(&["A;B"])), Ok(vec![record("A", "B")]));
}
