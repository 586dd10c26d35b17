use itertools::Itertools;
use wikilytics::common::find_entries;
use wikilytics::error::ParseError;
use wikilytics::network::{partition, ranges, worker_ranges};
use wikilytics::network_generator::wiki_xml_dump::{
    blocks, read_index, read_index_line, WikiIndexEntry,
};
use wikilytics::wikitext::find_entry;

fn entry(start: u64, id: u64, title: &str) -> WikiIndexEntry {
    WikiIndexEntry { start, id, title: title.to_string() }
}

fn with_starts(starts: &[u64]) -> Vec<WikiIndexEntry> {
    starts.iter().enumerate().map(|(i, s)| entry(*s, i as u64, "t")).collect()
}

fn same(a: &WikiIndexEntry, start: u64, id: u64, title: &str) -> bool {
    a.start == start && a.id == id && a.title == title
}

#[test]
fn index_line_has_three_fields() {
    let e = read_index_line("597:10:Alan Smithee").unwrap();
    assert!(same(&e, 597, 10, "Alan Smithee"));
    let e = read_index_line("0:0:").unwrap();
    assert!(same(&e, 0, 0, ""));
}

#[test]
fn index_title_is_the_rest_of_the_line() {
    let e = read_index_line("12:34:Category:Films").unwrap();
    assert!(same(&e, 12, 34, "Category:Films"));
    let e = read_index_line("597:10:Wikipedia:Test").unwrap();
    assert!(same(&e, 597, 10, "Wikipedia:Test"));
    let e = read_index_line("1:2:::").unwrap();
    assert!(same(&e, 1, 2, "::"));
    let e = read_index_line("1:2:a:3:b").unwrap();
    assert!(same(&e, 1, 2, "a:3:b"));
}

#[test]
fn index_with_colons_in_titles_is_read() {
    let lines = vec!["597:10:Wikipedia:Test".to_string(), "597:11:Plain".to_string()];
    let index = read_index(&lines).unwrap();
    assert_eq!(index.len(), 2);
    assert!(same(&index[0], 597, 10, "Wikipedia:Test"));
    assert!(same(&index[1], 597, 11, "Plain"));
}

#[test]
fn index_line_faults_are_told_apart() {
    assert_eq!(read_index_line("").unwrap_err(), ParseError::InvalidNumber);
    assert_eq!(read_index_line("abc").unwrap_err(), ParseError::InvalidNumber);
    assert_eq!(read_index_line("abc:1:T").unwrap_err(), ParseError::InvalidNumber);
    assert_eq!(read_index_line("12").unwrap_err(), ParseError::MissingField);
    assert_eq!(read_index_line("12:x").unwrap_err(), ParseError::InvalidNumber);
    assert_eq!(read_index_line("12:x:T").unwrap_err(), ParseError::InvalidNumber);
    assert_eq!(read_index_line("12:34").unwrap_err(), ParseError::MissingField);
    assert_eq!(read_index_line("-1:34:T").unwrap_err(), ParseError::InvalidNumber);
    assert_eq!(read_index_line("1:18446744073709551616:T").unwrap_err(), ParseError::InvalidNumber);
    assert_eq!(read_index_line(":1:T").unwrap_err(), ParseError::InvalidNumber);
}

#[test]
fn index_is_read_line_by_line() {
    let lines = vec!["0:1:A".to_string(), "0:2:B".to_string(), "500:3:C".to_string()];
    let index = read_index(&lines).unwrap();
    assert_eq!(index.len(), 3);
    assert!(same(&index[0], 0, 1, "A"));
    assert!(same(&index[1], 0, 2, "B"));
    assert!(same(&index[2], 500, 3, "C"));
    assert_eq!(read_index(&vec![]).unwrap().len(), 0);
}

#[test]
fn first_malformed_line_aborts_the_index() {
    let lines = vec!["0:1:A".to_string(), "7".to_string(), "x:3:C".to_string()];
    assert_eq!(read_index(&lines).unwrap_err(), ParseError::MissingField);
    let lines = vec!["0:1:A".to_string(), "x:3:C".to_string(), "7".to_string()];
    assert_eq!(read_index(&lines).unwrap_err(), ParseError::InvalidNumber);
}

#[test]
fn block_starts_collapse_equal_neighbours() {
    assert_eq!(blocks(with_starts(&[0, 0, 500, 500, 900])), vec![0, 500, 900]);
    assert_eq!(blocks(with_starts(&[])), Vec::<u64>::new());
    assert_eq!(blocks(with_starts(&[7])), vec![7]);
    assert_eq!(blocks(with_starts(&[7, 7, 7])), vec![7]);
    assert_eq!(blocks(with_starts(&[1, 2, 1, 1, 2])), vec![1, 2, 1, 2]);
}

#[test]
fn block_starts_agree_with_group_by() {
    for starts in [vec![], vec![3], vec![0, 0, 500, 500, 900], vec![5, 4, 4, 5, 5, 5, 1], vec![1, 1]] {
        let index = with_starts(&starts);
        let expected: Vec<u64> =
            index.iter().group_by(|e| e.start).into_iter().map(|(key, _)| key).collect();
        assert_eq!(blocks(index), expected);
    }
}

#[test]
fn partition_samples_block_starts_at_the_stride() {
    let starts: Vec<u64> = vec![10, 20, 30, 40, 50, 60, 70, 80];
    assert_eq!(partition(&starts, 1000, 4), vec![0, 30, 50, 70, 1001]);
    assert_eq!(partition(&starts, 1000, 3), vec![0, 40, 70, 1001]);
    assert_eq!(partition(&starts, 1000, 1), vec![0, 1001]);
    assert_eq!(partition(&starts, 1000, 8), vec![0, 20, 30, 40, 50, 60, 70, 80, 1001]);
}

#[test]
fn fewer_blocks_than_threads_give_fewer_ranges() {
    let starts: Vec<u64> = vec![0, 500, 900];
    assert_eq!(partition(&starts, 1000, 4), vec![0, 500, 900, 1001]);
    assert_eq!(partition(&starts, 1000, 100), vec![0, 500, 900, 1001]);
    assert_eq!(partition(&vec![], 1000, 4), vec![0, 1001]);
    assert_eq!(partition(&vec![0], 0, 4), vec![0, 1]);
}

#[test]
fn partition_without_threads_is_one_range() {
    assert_eq!(partition(&vec![0, 500, 900], 1000, 0), vec![0, 1001]);
}

#[test]
fn boundaries_are_few_increasing_and_end_past_the_file() {
    let starts: Vec<u64> = (0..37u64).map(|i| i * 13 + 5).collect();
    let file_size = 37 * 13 + 5;
    for threads in 1..50usize {
        let bounds = partition(&starts, file_size, threads);
        assert!(bounds.len() <= threads + 1);
        assert!(bounds.windows(2).all(|w| w[0] < w[1]));
        assert_eq!(bounds[0], 0);
        assert!(*bounds.last().unwrap() > file_size);
        for b in &bounds[1..bounds.len() - 1] {
            assert!(starts.contains(b));
        }
    }
}

#[test]
fn ranges_pair_neighbouring_boundaries() {
    assert_eq!(ranges(&vec![0, 30, 70, 101]), vec![(0, 30), (30, 70), (70, 101)]);
    assert_eq!(ranges(&vec![0, 5]), vec![(0, 5)]);
    assert_eq!(ranges(&vec![9]), vec![]);
    assert_eq!(ranges(&vec![]), vec![]);
}

#[test]
fn worker_ranges_cover_the_file_without_gaps() {
    let starts: Vec<u64> = vec![10, 20, 30, 40, 50, 60, 70, 80];
    assert_eq!(
        worker_ranges(&starts, 1000, 4),
        vec![(0, 30), (30, 50), (50, 70), (70, 1001)]
    );
    assert_eq!(worker_ranges(&vec![0, 500, 900], 1000, 4), vec![(0, 500), (500, 900), (900, 1001)]);
    assert_eq!(worker_ranges(&vec![], 7, 4), vec![(0, 8)]);
    for threads in 1..20usize {
        let pairs = worker_ranges(&starts, 1000, threads);
        assert!(!pairs.is_empty() && pairs.len() <= threads);
        assert_eq!(pairs[0].0, 0);
        assert_eq!(pairs[pairs.len() - 1].1, 1001);
        assert!(pairs.iter().all(|(a, b)| a < b));
        assert!(pairs.windows(2).all(|w| w[0].1 == w[1].0));
    }
}

#[test]
fn entries_are_found_by_exact_title() {
    let index = vec![entry(0, 1, "A"), entry(0, 2, "B"), entry(5, 3, "A"), entry(5, 4, "a")];
    let found = find_entries(index, &"A".to_string());
    assert_eq!(found.len(), 2);
    assert!(same(&found[0], 0, 1, "A"));
    assert!(same(&found[1], 5, 3, "A"));
    let index = vec![entry(0, 1, "A")];
    assert_eq!(find_entries(index, &"Z".to_string()).len(), 0);
}

#[test]
fn first_entry_of_a_title_is_found() {
    let index = vec![entry(0, 1, "A"), entry(0, 2, "B"), entry(5, 3, "B")];
    let found = find_entry(&index, &"B".to_string()).unwrap();
    assert!(same(found, 0, 2, "B"));
    assert!(find_entry(&index, &"C".to_string()).is_none());
    assert!(find_entry(&vec![], &"A".to_string()).is_none());
}
