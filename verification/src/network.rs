//! The extraction run as data: the byte ranges that workers decode, the
//! lines of the two artifacts, and the closure of the redirect artifact.

use crate::error::ParseError;
use crate::network_generator::{
    chase, closed, closed_prefix, lemma_unvisited_shrinks, terminal, unvisited,
};
use crate::network_generator::wiki_xml_dump::{as_ints, strictly_increasing};
use crate::records::{redirect_views, AdjacencyRecord, RedirectRecord, RedirectView};
use crate::text::{append_between, chars_of, holds, push_char, split, split_spec, views};
use crate::title_map::{Assoc, TitleMap};
use vstd::multiset::Multiset;
use vstd::prelude::*;

verus! {

/// The number of workers that decode the archive side by side.
pub const WORKERS: usize = 4;

/// The number of redirects that a round of the closure holds at most.
pub const BATCH_SIZE: usize = 10000;

/// The distance between two sampled block starts: the number of blocks
/// divided by the number of threads, rounded up.
pub open spec fn stride(blocks: int, threads: int) -> int {
    if threads <= 0 {
        0
    } else if blocks % threads == 0 {
        blocks / threads
    } else {
        blocks / threads + 1
    }
}

/// The block starts at positions `at`, `at + stride`, `at + 2 * stride` and
/// so on, as far as the list reaches and at most `left` of them.
pub open spec fn samples(block_starts: Seq<u64>, at: int, stride: int, left: int) -> Seq<u64>
    decreases left,
{
    if left <= 0 || stride <= 0 || at < 0 || at >= block_starts.len() {
        Seq::empty()
    } else {
        seq![block_starts[at]] + samples(block_starts, at + stride, stride, left - 1)
    }
}

/// The boundaries of the byte ranges: 0, then up to `threads - 1` block
/// starts sampled at the stride, then one past the size of the file.
pub open spec fn boundaries(block_starts: Seq<u64>, file_size: int, threads: int) -> Seq<int> {
    let step = stride(block_starts.len() as int, threads);
    seq![0int] + samples(block_starts, step, step, threads - 1).map_values(|b: u64| b as int)
        + seq![file_size + 1]
}

/// Samples of a strictly increasing list are strictly increasing, and each
/// is one of the list's elements from `at` on.
pub proof fn lemma_samples(block_starts: Seq<u64>, at: int, stride: int, left: int)
    requires
        strictly_increasing(as_ints(block_starts)),
    ensures
        strictly_increasing(as_ints(samples(block_starts, at, stride, left))),
        forall|i: int|
            0 <= i < samples(block_starts, at, stride, left).len() ==> 0 <= at < block_starts.len()
                && block_starts[at] <= #[trigger] samples(block_starts, at, stride, left)[i]
                <= block_starts.last(),
    decreases left,
{
    let s = samples(block_starts, at, stride, left);
    if left <= 0 || stride <= 0 || at < 0 || at >= block_starts.len() {
    } else {
        let rest = samples(block_starts, at + stride, stride, left - 1);
        lemma_samples(block_starts, at + stride, stride, left - 1);
        let ints = as_ints(block_starts);
        assert(s == seq![block_starts[at]] + rest);
        assert(ints[at] == block_starts[at]);
        assert(ints[block_starts.len() - 1] == block_starts.last());
        assert forall|i: int| 0 <= i < s.len() implies block_starts[at] <= #[trigger] s[i]
            <= block_starts.last() by {
            if i > 0 {
                assert(s[i] == rest[i - 1]);
                assert(ints[at + stride] == block_starts[at + stride]);
            }
        }
        assert forall|i: int, j: int| 0 <= i < j < s.len() implies as_ints(s)[i] < as_ints(s)[j] by {
            assert(s[j] == rest[j - 1]);
            if i == 0 {
                assert(ints[at + stride] == block_starts[at + stride]);
            } else {
                assert(s[i] == rest[i - 1]);
                assert(as_ints(rest)[i - 1] < as_ints(rest)[j - 1]);
            }
        }
    }
}

/// For every list of block starts and every number of threads, there are at
/// least two boundaries, the first is 0 and the last lies past the end of
/// the file. From one thread up, the boundaries are at most one more than
/// the threads. Where the block starts are strictly increasing and none lies
/// past the end of the file, the boundaries are strictly increasing too.
pub proof fn lemma_boundaries(block_starts: Seq<u64>, file_size: int, threads: int)
    requires
        file_size >= 0,
    ensures
        2 <= boundaries(block_starts, file_size, threads).len(),
        threads >= 1 ==> boundaries(block_starts, file_size, threads).len() <= threads + 1,
        boundaries(block_starts, file_size, threads).first() == 0,
        boundaries(block_starts, file_size, threads).last() == file_size + 1,
        strictly_increasing(as_ints(block_starts)) && (forall|i: int|
            0 <= i < block_starts.len() ==> block_starts[i] <= file_size) ==> strictly_increasing(
            boundaries(block_starts, file_size, threads),
        ),
{
    let step = stride(block_starts.len() as int, threads);
    let inner = samples(block_starts, step, step, threads - 1);
    let b = boundaries(block_starts, file_size, threads);
    lemma_samples_len(block_starts, step, step, threads - 1);
    assert(b.len() == inner.len() + 2);
    if strictly_increasing(as_ints(block_starts)) && (forall|i: int|
        0 <= i < block_starts.len() ==> block_starts[i] <= file_size) {
        lemma_samples(block_starts, step, step, threads - 1);
        let ints = as_ints(block_starts);
        assert forall|i: int, j: int| 0 <= i < j < b.len() implies b[i] < b[j] by {
            if j < b.len() - 1 {
                assert(b[j] == inner[j - 1]);
                if i == 0 {
                    assert(step >= 1);
                    assert(ints[0] == block_starts[0]);
                    assert(ints[step] == block_starts[step]);
                    assert(ints[0] < ints[step]);
                } else {
                    assert(b[i] == inner[i - 1]);
                    assert(as_ints(inner)[i - 1] < as_ints(inner)[j - 1]);
                }
            } else {
                if i > 0 {
                    assert(b[i] == inner[i - 1]);
                }
            }
        }
    }
}

/// There are never more samples than asked for.
pub proof fn lemma_samples_len(block_starts: Seq<u64>, at: int, stride: int, left: int)
    ensures
        samples(block_starts, at, stride, left).len() <= if left < 0 {
            0
        } else {
            left
        },
    decreases left,
{
    if !(left <= 0 || stride <= 0 || at < 0 || at >= block_starts.len()) {
        lemma_samples_len(block_starts, at + stride, stride, left - 1);
    }
}

/// The boundaries of the byte ranges that the workers decode. Every interior
/// boundary is a block start, so that a decoder can begin there. Fewer blocks
/// than threads give fewer ranges.
pub fn partition(block_starts: &Vec<u64>, file_size: u64, thread_count: usize) -> (bounds: Vec<u64>)
    requires
        file_size < u64::MAX,
    ensures
        as_ints(bounds@) == boundaries(block_starts@, file_size as int, thread_count as int),
        2 <= bounds.len(),
        thread_count >= 1 ==> bounds.len() <= thread_count + 1,
        bounds[0] == 0,
        bounds[bounds.len() - 1] == file_size + 1,
        strictly_increasing(as_ints(block_starts@)) && (forall|i: int|
            0 <= i < block_starts.len() ==> block_starts[i] <= file_size) ==> strictly_increasing(
            as_ints(bounds@),
        ),
{
    proof {
        lemma_boundaries(block_starts@, file_size as int, thread_count as int);
    }
    let n = block_starts.len();
    let mut bounds: Vec<u64> = Vec::new();
    bounds.push(0);
    let step: usize = if thread_count == 0 {
        0
    } else if n % thread_count == 0 {
        n / thread_count
    } else {
        assert(n / thread_count < usize::MAX) by (nonlinear_arith)
            requires
                thread_count >= 2,
                n <= usize::MAX,
        ;
        n / thread_count + 1
    };
    let ghost inner = samples(block_starts@, step as int, step as int, thread_count - 1);
    if step > 0 {
        let mut at: usize = step;
        let mut left: usize = thread_count - 1;
        let ghost mut taken: Seq<u64> = Seq::empty();
        while left > 0 && at < n
            invariant
                n == block_starts.len(),
                step > 0,
                bounds@ == seq![0u64] + taken,
                taken + samples(block_starts@, at as int, step as int, left as int) == inner,
            decreases left,
        {
            bounds.push(block_starts[at]);
            proof {
                let rest = samples(block_starts@, at + step, step as int, left - 1);
                assert(taken.push(block_starts@[at as int]) + rest == taken + (seq![
                    block_starts@[at as int],
                ] + rest));
                taken = taken.push(block_starts@[at as int]);
            }
            left -= 1;
            if n - at <= step {
                proof {
                    assert(samples(block_starts@, at + step, step as int, left as int)
                        == Seq::<u64>::empty());
                    assert(samples(block_starts@, n as int, step as int, left as int) == Seq::<
                        u64,
                    >::empty());
                }
                at = n;
            } else {
                at += step;
            }
        }
        assert(taken == inner);
    }
    bounds.push(file_size + 1);
    assert(as_ints(bounds@) =~= boundaries(block_starts@, file_size as int, thread_count as int));
    assert(as_ints(bounds@)[0] == bounds@[0]);
    assert(as_ints(bounds@)[bounds.len() - 1] == bounds@[bounds.len() - 1]);
    bounds
}

/// The byte ranges between neighbouring boundaries: start and end, the end
/// not included.
pub fn ranges(bounds: &Vec<u64>) -> (pairs: Vec<(u64, u64)>)
    ensures
        bounds.len() == 0 ==> pairs.len() == 0,
        bounds.len() > 0 ==> pairs.len() == bounds.len() - 1,
        forall|i: int|
            0 <= i < pairs.len() ==> #[trigger] pairs[i] == (bounds[i], bounds[i + 1]),
{
    let mut pairs: Vec<(u64, u64)> = Vec::new();
    if bounds.len() == 0 {
        return pairs;
    }
    let mut i: usize = 1;
    while i < bounds.len()
        invariant
            1 <= i <= bounds.len(),
            pairs.len() == i - 1,
            forall|k: int| 0 <= k < pairs.len() ==> #[trigger] pairs[k] == (bounds[k], bounds[k + 1]),
        decreases bounds.len() - i,
    {
        pairs.push((bounds[i - 1], bounds[i]));
        i += 1;
    }
    pairs
}

/// The byte ranges that the workers decode: the ranges between the
/// boundaries of `partition`. There is at least one and, from one thread up,
/// at most one for each thread. Each begins where the one before it ends,
/// the first at byte 0, and the last ends one past the end of the file.
/// Where the block starts are strictly increasing and none lies past the end
/// of the file, no range is empty.
pub fn worker_ranges(block_starts: &Vec<u64>, file_size: u64, thread_count: usize) -> (pairs: Vec<
    (u64, u64),
>)
    requires
        file_size < u64::MAX,
    ensures
        pairs.len() + 1 == boundaries(block_starts@, file_size as int, thread_count as int).len(),
        forall|i: int|
            0 <= i < pairs.len() ==> (#[trigger] pairs[i]).0 == boundaries(
                block_starts@,
                file_size as int,
                thread_count as int,
            )[i] && pairs[i].1 == boundaries(
                block_starts@,
                file_size as int,
                thread_count as int,
            )[i + 1],
        1 <= pairs.len(),
        thread_count >= 1 ==> pairs.len() <= thread_count,
        pairs[0].0 == 0,
        pairs[pairs.len() - 1].1 == file_size + 1,
        forall|i: int| 0 <= i < pairs.len() - 1 ==> (#[trigger] pairs[i]).1 == pairs[i + 1].0,
        strictly_increasing(as_ints(block_starts@)) && (forall|i: int|
            0 <= i < block_starts.len() ==> block_starts[i] <= file_size) ==> forall|i: int|
            0 <= i < pairs.len() ==> (#[trigger] pairs[i]).0 < pairs[i].1,
{
    let bounds = partition(block_starts, file_size, thread_count);
    let pairs = ranges(&bounds);
    proof {
        let b = boundaries(block_starts@, file_size as int, thread_count as int);
        assert forall|i: int| 0 <= i < bounds.len() implies b[i] == #[trigger] bounds[i] by {
            assert(as_ints(bounds@)[i] == bounds@[i]);
        }
        if strictly_increasing(as_ints(block_starts@)) && (forall|i: int|
            0 <= i < block_starts.len() ==> block_starts[i] <= file_size) {
            assert forall|i: int| 0 <= i < pairs.len() implies (#[trigger] pairs[i]).0
                < pairs[i].1 by {
                assert(b[i] < b[i + 1]);
            }
        }
    }
    pairs
}

/// The characters that separate the titles of an adjacency line.
pub open spec fn adjacency_separator() -> Seq<char> {
    seq![';', ' ']
}

/// The links of an adjacency line, each behind a separator.
pub open spec fn joined_links(links: Seq<Seq<char>>) -> Seq<char>
    decreases links.len(),
{
    if links.len() == 0 {
        Seq::empty()
    } else {
        joined_links(links.drop_last()) + adjacency_separator() + links.last()
    }
}

/// The line of a node in the adjacency artifact: its title, its links each
/// behind `; `, and a line feed.
pub fn adjacency_line(record: &AdjacencyRecord) -> (line: String)
    ensures
        line@ == record.title@ + joined_links(views(record.links@)) + seq!['\n'],
{
    let mut line = record.title.clone();
    let mut i: usize = 0;
    assert(views(record.links@).take(0) == Seq::<Seq<char>>::empty());
    while i < record.links.len()
        invariant
            i <= record.links.len(),
            line@ == record.title@ + joined_links(views(record.links@).take(i as int)),
        decreases record.links.len() - i,
    {
        let ghost before = line@;
        assert(views(record.links@).take(i + 1).drop_last() == views(record.links@).take(i as int));
        push_char(&mut line, ';');
        push_char(&mut line, ' ');
        let link = chars_of(record.links[i].as_str());
        append_between(&mut line, &link, 0, link.len());
        assert(link@.subrange(0, link.len() as int) == link@);
        assert(line@ == before + adjacency_separator() + link@);
        i += 1;
    }
    assert(views(record.links@).take(i as int) == views(record.links@));
    push_char(&mut line, '\n');
    line
}

/// The line of a redirect in the redirect artifact: title, `;`, target and a
/// line feed.
pub fn redirect_line(record: &RedirectRecord) -> (line: String)
    ensures
        line@ == record.title@ + seq![';'] + record.target@ + seq!['\n'],
{
    let mut line = record.title.clone();
    push_char(&mut line, ';');
    let target = chars_of(record.target.as_str());
    append_between(&mut line, &target, 0, target.len());
    assert(target@.subrange(0, target.len() as int) == target@);
    push_char(&mut line, '\n');
    line
}

/// What a line of the redirect artifact, without its line feed, denotes: the
/// first two of its fields between `;`. A line without a `;` denotes nothing.
pub open spec fn redirect_of(line: Seq<char>) -> Option<RedirectView> {
    let fields = split_spec(line, ';');
    if fields.len() >= 2 {
        Some(RedirectView { title: fields[0], target: fields[1] })
    } else {
        None
    }
}

/// A redirect whose title and target hold no `;` is read back from its line
/// as it was written.
pub proof fn lemma_redirect_line_read_back(record: RedirectView)
    requires
        !record.title.contains(';'),
        !record.target.contains(';'),
    ensures
        redirect_of(record.title + seq![';'] + record.target) == Some(record),
{
    let line = record.title + seq![';'] + record.target;
    let n = record.title.len() as int;
    assert forall|j: int| 0 <= j < n implies line[j] != ';' by {
        assert(record.title[j] == line[j]);
        assert(record.title.contains(record.title[j]));
    }
    crate::text::lemma_first_sep_from(line, ';', 0, n);
    assert(line[n] == ';');
    assert(crate::text::first_sep(line, ';', 0) == n);
    let rest = line.skip(n + 1);
    assert(rest == record.target);
    assert forall|j: int| 0 <= j < rest.len() implies rest[j] != ';' by {
        assert(record.target.contains(rest[j]));
    }
    crate::text::lemma_first_sep_from(rest, ';', 0, rest.len() as int);
    assert(crate::text::first_sep(rest, ';', 0) == rest.len());
    assert(split_spec(rest, ';') == seq![rest]);
    assert(line.take(n) == record.title);
    assert(split_spec(line, ';') == seq![record.title] + seq![rest]);
}

/// In a chain of two redirects that ends at a title without one, both
/// records of the closure point at that title.
pub proof fn lemma_chain_closes(a: Seq<char>, b: Seq<char>, c: Seq<char>)
    requires
        a != b,
        b != c,
        a != c,
    ensures
        closure(
            seq![RedirectView { title: a, target: b }, RedirectView { title: b, target: c }],
        ) == seq![RedirectView { title: a, target: c }, RedirectView { title: b, target: c }],
{
    let first = RedirectView { title: a, target: b };
    let second = RedirectView { title: b, target: c };
    let table = seq![first, second];
    let map = table_map(table);
    lemma_table_map_finite(table);
    assert(table.drop_last() == seq![first]);
    assert(seq![first].drop_last() == Seq::<RedirectView>::empty());
    reveal_with_fuel(first_match, 3);
    assert(first_match(table, a) == Some(b));
    assert(first_match(table, b) == Some(c));
    assert(first_match(table, c) is None);
    let none = Seq::<Seq<char>>::empty();
    assert(chase(map, c, none.push(c)) == Some(c));
    assert(chase(map, b, none) == Some(c));
    assert(chase(map, c, none.push(b).push(c)) == Some(c));
    assert(chase(map, b, none.push(b)) == Some(c));
    assert(chase(map, a, none) == chase(map, b, none.push(b)));
    let entries = fresh_all(table);
    assert(entries.drop_last() == seq![fresh(first)]);
    assert(seq![fresh(first)].drop_last() == Seq::<PendingView>::empty());
    reveal_with_fuel(resolved_of, 3);
    assert(resolved_of(map, entries) == Seq::<RedirectView>::empty().push(
        RedirectView { title: a, target: c },
    ).push(RedirectView { title: b, target: c }));
}

/// Two redirects that point at each other leave nothing in the closure.
pub proof fn lemma_cycle_closes_empty(a: Seq<char>, b: Seq<char>)
    requires
        a != b,
    ensures
        closure(seq![RedirectView { title: a, target: b }, RedirectView { title: b, target: a }])
            == Seq::<RedirectView>::empty(),
{
    let first = RedirectView { title: a, target: b };
    let second = RedirectView { title: b, target: a };
    let table = seq![first, second];
    let map = table_map(table);
    lemma_table_map_finite(table);
    assert(table.drop_last() == seq![first]);
    assert(seq![first].drop_last() == Seq::<RedirectView>::empty());
    reveal_with_fuel(first_match, 3);
    assert(first_match(table, a) == Some(b));
    assert(first_match(table, b) == Some(a));
    let none = Seq::<Seq<char>>::empty();
    assert(none.push(a).push(b)[0] == a);
    assert(none.push(b).push(a)[0] == b);
    assert(chase(map, b, none.push(a).push(b)) is None);
    assert(chase(map, a, none.push(a)) is None);
    assert(chase(map, b, none) is None);
    assert(chase(map, a, none.push(b).push(a)) is None);
    assert(chase(map, b, none.push(b)) is None);
    assert(chase(map, a, none) is None);
    let entries = fresh_all(table);
    assert(entries.drop_last() == seq![fresh(first)]);
    assert(seq![fresh(first)].drop_last() == Seq::<PendingView>::empty());
    reveal_with_fuel(resolved_of, 3);
}

/// A redirect of a title to itself stays in the closure as it is.
pub proof fn lemma_self_redirect_stays(a: Seq<char>)
    ensures
        closure(seq![RedirectView { title: a, target: a }]) == seq![
            RedirectView { title: a, target: a },
        ],
{
    let only = RedirectView { title: a, target: a };
    let table = seq![only];
    let map = table_map(table);
    lemma_table_map_finite(table);
    assert(table.drop_last() == Seq::<RedirectView>::empty());
    reveal_with_fuel(first_match, 2);
    assert(first_match(table, a) == Some(a));
    assert(chase(map, a, Seq::empty()) == Some(a));
    let entries = fresh_all(table);
    assert(entries.drop_last() == Seq::<PendingView>::empty());
    reveal_with_fuel(resolved_of, 2);
    assert(resolved_of(map, entries) == Seq::<RedirectView>::empty().push(only));
}

/// Reads a line of the redirect artifact.
pub fn parse_redirects(line: String) -> (result: Result<RedirectRecord, ParseError>)
    ensures
        match result {
            Ok(record) => redirect_of(line@) == Some(record@),
            Err(e) => redirect_of(line@) is None && e == ParseError::MissingField,
        },
{
    let mut fields = split(line.as_str(), ';');
    proof {
        assert(forall|i: int| 0 <= i < fields.len() ==> fields@[i]@ == #[trigger] views(fields@)[i]);
    }
    if fields.len() < 2 {
        return Err(ParseError::MissingField);
    }
    let target = fields.swap_remove(1);
    let title = fields.swap_remove(0);
    Ok(RedirectRecord { title, target })
}

/// The target of the first record of `table` whose title is `title`.
pub open spec fn first_match(table: Seq<RedirectView>, title: Seq<char>) -> Option<Seq<char>>
    decreases table.len(),
{
    if table.len() == 0 {
        None
    } else {
        match first_match(table.drop_last(), title) {
            Some(target) => Some(target),
            None => if table.last().title == title {
                Some(table.last().target)
            } else {
                None
            },
        }
    }
}

/// The redirect artifact as a map: every title that has a record, with the
/// target of its first record.
pub open spec fn table_map(table: Seq<RedirectView>) -> Map<Seq<char>, Seq<char>> {
    Map::new(
        |title: Seq<char>| first_match(table, title) is Some,
        |title: Seq<char>| first_match(table, title)->0,
    )
}

/// A title that has a match is the title of a record.
pub proof fn lemma_first_match_title(table: Seq<RedirectView>, title: Seq<char>)
    requires
        first_match(table, title) is Some,
    ensures
        table.map_values(|r: RedirectView| r.title).contains(title),
    decreases table.len(),
{
    let titles = table.map_values(|r: RedirectView| r.title);
    if first_match(table.drop_last(), title) is Some {
        lemma_first_match_title(table.drop_last(), title);
        let rest = table.drop_last().map_values(|r: RedirectView| r.title);
        let i = choose|i: int| 0 <= i < rest.len() && rest[i] == title;
        assert(titles[i] == title);
    } else {
        assert(titles[table.len() - 1] == title);
    }
}

/// The titles of a table are finitely many.
pub proof fn lemma_table_map_finite(table: Seq<RedirectView>)
    ensures
        table_map(table).dom().finite(),
{
    let titles = table.map_values(|r: RedirectView| r.title);
    vstd::seq_lib::seq_to_set_is_finite(titles);
    assert forall|t: Seq<char>| table_map(table).dom().contains(t) implies titles.to_set().contains(
        t,
    ) by {
        lemma_first_match_title(table, t);
    }
    vstd::set_lib::lemma_set_subset_finite(titles.to_set(), table_map(table).dom());
}

/// What a lookup holds of each title it looks for: the title's target once a
/// record of that title came by, nothing before.
pub type Hops = Assoc<Option<Seq<char>>>;

/// The lookup for `links` before any record came by.
pub open spec fn all_missing(links: Seq<Seq<char>>) -> Hops
    decreases links.len(),
{
    if links.len() == 0 {
        Assoc::empty()
    } else {
        all_missing(links.drop_last()).put(links.last(), None)
    }
}

/// The lookup after one more record: a title that is looked for and not yet
/// found takes the record's target; nothing else changes.
pub open spec fn fed(hops: Hops, record: RedirectView) -> Hops {
    match hops.get(record.title) {
        Some(None) => hops.put(record.title, Some(record.target)),
        _ => hops,
    }
}

/// The lookup after the records of `table`, in order.
pub open spec fn fed_all(hops: Hops, table: Seq<RedirectView>) -> Hops
    decreases table.len(),
{
    if table.len() == 0 {
        hops
    } else {
        fed(fed_all(hops, table.drop_last()), table.last())
    }
}

/// Whether every title that is looked for has been found.
pub open spec fn all_found(hops: Hops) -> bool {
    forall|i: int| 0 <= i < hops.values.len() ==> #[trigger] hops.values[i] is Some
}

/// The number of titles found.
pub open spec fn found_count(values: Seq<Option<Seq<char>>>) -> nat
    decreases values.len(),
{
    if values.len() == 0 {
        0
    } else if values.last() is Some {
        found_count(values.drop_last()) + 1
    } else {
        found_count(values.drop_last())
    }
}

/// No more titles are found than looked for, and all are found exactly when
/// the two numbers agree.
pub proof fn lemma_found_count(values: Seq<Option<Seq<char>>>)
    ensures
        found_count(values) <= values.len(),
        found_count(values) == values.len() <==> (forall|i: int|
            0 <= i < values.len() ==> #[trigger] values[i] is Some),
    decreases values.len(),
{
    if values.len() > 0 {
        let rest = values.drop_last();
        lemma_found_count(rest);
        if found_count(values) == values.len() {
            assert forall|i: int| 0 <= i < values.len() implies #[trigger] values[i] is Some by {
                if i < rest.len() {
                    assert(rest[i] is Some);
                }
            }
        }
        if forall|i: int| 0 <= i < values.len() ==> #[trigger] values[i] is Some {
            assert(values.last() is Some);
            assert forall|i: int| 0 <= i < rest.len() implies #[trigger] rest[i] is Some by {
                assert(values[i] is Some);
            }
        }
    }
}

/// Finding one more title raises the count by one.
pub proof fn lemma_found_one_more(values: Seq<Option<Seq<char>>>, i: int, target: Seq<char>)
    requires
        0 <= i < values.len(),
        values[i] is None,
    ensures
        found_count(values.update(i, Some(target))) == found_count(values) + 1,
    decreases values.len(),
{
    let after = values.update(i, Some(target));
    if i == values.len() - 1 {
        assert(after.drop_last() == values.drop_last());
    } else {
        lemma_found_one_more(values.drop_last(), i, target);
        assert(after.drop_last() == values.drop_last().update(i, Some(target)));
    }
}

/// A lookup before any record: it looks for exactly the given titles and has
/// found none.
pub proof fn lemma_all_missing(links: Seq<Seq<char>>)
    ensures
        all_missing(links).wf(),
        forall|t: Seq<char>| all_missing(links).titles.contains(t) <==> links.contains(t),
        forall|i: int|
            0 <= i < all_missing(links).values.len() ==> #[trigger] all_missing(links).values[i]
                is None,
    decreases links.len(),
{
    if links.len() > 0 {
        let rest = all_missing(links.drop_last());
        let m = all_missing(links);
        lemma_all_missing(links.drop_last());
        rest.lemma_put(links.last(), None);
        let last = links.last();
        let front = links.drop_last();
        assert forall|t: Seq<char>| m.titles.contains(t) <==> links.contains(t) by {
            assert(rest.titles.contains(t) <==> front.contains(t));
            if m.titles.contains(t) {
                if rest.titles.contains(t) {
                    assert(front.contains(t));
                    let i = choose|i: int| 0 <= i < front.len() && front[i] == t;
                    assert(links[i] == t);
                } else {
                    let j = choose|j: int| 0 <= j < m.titles.len() && m.titles[j] == t;
                    assert(m.titles == rest.titles.push(last));
                    if j < rest.titles.len() {
                        assert(rest.titles[j] == t);
                    }
                    assert(t == last);
                    assert(links[links.len() - 1] == t);
                }
            }
            if links.contains(t) {
                let i = choose|i: int| 0 <= i < links.len() && links[i] == t;
                if i < links.len() - 1 {
                    assert(front[i] == t);
                    assert(rest.titles.contains(t));
                    let j = choose|j: int| 0 <= j < rest.titles.len() && rest.titles[j] == t;
                    assert(m.titles[j] == t);
                } else if !rest.titles.contains(t) {
                    assert(m.titles[rest.titles.len() as int] == t);
                } else {
                    assert(m.titles == rest.titles);
                }
            }
        }
        assert forall|i: int| 0 <= i < m.values.len() implies #[trigger] m.values[i] is None by {
            if i < rest.values.len() {
                assert(rest.values[i] is None);
            }
        }
    }
}

/// Feeding a record keeps the titles that are looked for and never loses
/// what was found.
pub proof fn lemma_fed(hops: Hops, record: RedirectView)
    requires
        hops.wf(),
    ensures
        fed(hops, record).wf(),
        fed(hops, record).titles == hops.titles,
        all_found(hops) ==> fed(hops, record) == hops,
        forall|i: int|
            0 <= i < hops.titles.len() ==> #[trigger] fed(hops, record).values[i] == match hops.values[i] {
                Some(target) => Some(target),
                None => if hops.titles[i] == record.title {
                    Some(record.target)
                } else {
                    None
                },
            },
{
    if hops.titles.contains(record.title) {
        let k = hops.titles.index_of(record.title);
        assert(0 <= k < hops.titles.len() && hops.titles[k] == record.title);
    }
}

/// After the records of a table, every title that is looked for holds the
/// target of its first record in the table.
pub proof fn lemma_fed_all(links: Seq<Seq<char>>, table: Seq<RedirectView>)
    ensures
        fed_all(all_missing(links), table).wf(),
        fed_all(all_missing(links), table).titles == all_missing(links).titles,
        forall|i: int|
            0 <= i < all_missing(links).titles.len() ==> #[trigger] fed_all(
                all_missing(links),
                table,
            ).values[i] == first_match(table, all_missing(links).titles[i]),
    decreases table.len(),
{
    lemma_all_missing(links);
    if table.len() > 0 {
        lemma_fed_all(links, table.drop_last());
        lemma_fed(fed_all(all_missing(links), table.drop_last()), table.last());
    }
}

/// Once everything is found, further records change nothing.
pub proof fn lemma_fed_all_complete(hops: Hops, table: Seq<RedirectView>, k: int)
    requires
        hops.wf(),
        0 <= k <= table.len(),
        all_found(fed_all(hops, table.take(k))),
    ensures
        fed_all(hops, table) == fed_all(hops, table.take(k)),
    decreases table.len() - k,
{
    if k < table.len() {
        lemma_fed_all_wf(hops, table.take(k));
        lemma_fed(fed_all(hops, table.take(k)), table[k]);
        assert(table.take(k + 1).drop_last() == table.take(k));
        lemma_fed_all_complete(hops, table, k + 1);
    } else {
        assert(table.take(k) == table);
    }
}

/// Feeding keeps a lookup well-formed.
pub proof fn lemma_fed_all_wf(hops: Hops, table: Seq<RedirectView>)
    requires
        hops.wf(),
    ensures
        fed_all(hops, table).wf(),
    decreases table.len(),
{
    if table.len() > 0 {
        lemma_fed_all_wf(hops, table.drop_last());
        lemma_fed(fed_all(hops, table.drop_last()), table.last());
    }
}

/// The one-hop lookup of a round: the titles it looks for, and for each the
/// title it redirects to once a record of it came by.
pub struct Lookup {
    hops: TitleMap<Option<String>>,
    found: usize,
}

impl Lookup {
    /// The titles looked for and what was found of them.
    pub closed spec fn model(&self) -> Hops {
        self.hops.model().map_values(
            |hop: Option<String>|
                match hop {
                    Some(target) => Some(target@),
                    None => None,
                },
        )
    }

    /// Well-formedness: no title twice, and a count of the found that is right.
    pub closed spec fn wf(&self) -> bool {
        self.hops.wf() && self.found == found_count(self.model().values)
    }

    /// Whether `title` is looked for.
    pub open spec fn wants(&self, title: Seq<char>) -> bool {
        self.model().titles.contains(title)
    }

    /// The title that `title` redirects to, as far as the lookup knows.
    pub open spec fn hop(&self, title: Seq<char>) -> Option<Seq<char>> {
        match self.model().get(title) {
            Some(Some(target)) => Some(target),
            _ => None,
        }
    }

    /// What the lookup knows, as a map.
    pub open spec fn hops(&self) -> Map<Seq<char>, Seq<char>> {
        Map::new(|title: Seq<char>| self.hop(title) is Some, |title: Seq<char>| self.hop(title)->0)
    }

    /// A lookup for `links`; a title that occurs more than once is looked
    /// for once.
    pub fn new(links: &Vec<String>) -> (lookup: Lookup)
        ensures
            lookup.wf(),
            lookup.model() == all_missing(views(links@)),
    {
        let mut hops: TitleMap<Option<String>> = TitleMap::new();
        let mut i: usize = 0;
        let ghost f = |hop: Option<String>|
            match hop {
                Some(target) => Some(target@),
                None => None,
            };
        assert(hops.model().map_values(f).titles =~= Seq::<Seq<char>>::empty());
        assert(hops.model().map_values(f).values =~= Seq::<Option<Seq<char>>>::empty());
        assert(views(links@).take(0) == Seq::<Seq<char>>::empty());
        while i < links.len()
            invariant
                i <= links.len(),
                hops.wf(),
                f == |hop: Option<String>|
                    match hop {
                        Some(target) => Some(target@),
                        None => None,
                    },
                hops.model().map_values(f) == all_missing(views(links@).take(i as int)),
            decreases links.len() - i,
        {
            proof {
                assert(views(links@).take(i + 1).drop_last() == views(links@).take(i as int));
                hops.model().lemma_put_map_values(links@[i as int]@, None, f);
            }
            if !hops.contains_key(links[i].as_str()) {
                hops.insert(links[i].clone(), None);
            } else {
                proof {
                    lemma_all_missing(views(links@).take(i as int));
                    let m = all_missing(views(links@).take(i as int));
                    let t = links@[i as int]@;
                    let k = m.titles.index_of(t);
                    assert(0 <= k < m.titles.len() && m.titles[k] == t);
                    assert(m.put(t, None).values =~= m.values);
                }
            }
            i += 1;
        }
        proof {
            assert(views(links@).take(i as int) == views(links@));
            lemma_all_missing(views(links@));
            lemma_found_count(all_missing(views(links@)).values);
            lemma_found_none(all_missing(views(links@)).values);
        }
        Lookup { hops, found: 0 }
    }

    /// Whether every title that is looked for has been found.
    pub fn is_complete(&self) -> (complete: bool)
        requires
            self.wf(),
        ensures
            complete == all_found(self.model()),
    {
        proof {
            lemma_found_count(self.model().values);
        }
        self.found == self.hops.len()
    }

    /// Takes in the next record of the artifact; tells whether every title
    /// that is looked for has now been found, so that the rest of the
    /// artifact need not be read.
    pub fn feed(&mut self, record: RedirectRecord) -> (complete: bool)
        requires
            old(self).wf(),
        ensures
            final(self).wf(),
            final(self).model() == fed(old(self).model(), record@),
            complete == all_found(final(self).model()),
    {
        let ghost f = |hop: Option<String>|
            match hop {
                Some(target) => Some(target@),
                None => None,
            };
        match self.hops.find(record.title.as_str()) {
            Some(i) => {
                if self.hops.value_at(i).is_none() {
                    let n = self.hops.len();
                    proof {
                        assert(self.model().values[i as int] is None);
                        assert(self.model().values.len() == n);
                        lemma_found_one_more(self.model().values, i as int, record.target@);
                        lemma_found_count(self.model().values);
                        assert(self.found < n);
                    }
                    self.hops.set_value(i, Some(record.target));
                    self.found = self.found + 1;
                    assert(self.model().values =~= old(self).model().values.update(
                        i as int,
                        Some(record.target@),
                    ));
                }
            },
            None => {},
        }
        self.is_complete()
    }

    /// The title that `target` redirects to, as far as the lookup knows.
    pub fn get(&self, target: &str) -> (hop: Option<&String>)
        requires
            self.wf(),
        ensures
            match hop {
                Some(next) => self.hop(target@) == Some(next@),
                None => self.hop(target@) is None,
            },
    {
        match self.hops.find(target) {
            Some(i) => self.hops.value_at(i).as_ref(),
            None => None,
        }
    }
}

/// Where nothing is found the count is zero.
pub proof fn lemma_found_none(values: Seq<Option<Seq<char>>>)
    requires
        forall|i: int| 0 <= i < values.len() ==> #[trigger] values[i] is None,
    ensures
        found_count(values) == 0,
    decreases values.len(),
{
    if values.len() > 0 {
        assert(values[values.len() - 1] is None);
        assert forall|i: int| 0 <= i < values.drop_last().len() implies #[trigger] values.drop_last()[i]
            is None by {
            assert(values[i] is None);
        }
        lemma_found_none(values.drop_last());
    }
}

/// Looks up, in one pass over the redirect artifact, the title that each of
/// `links` redirects to: the target of the first record of that title. The
/// pass ends as soon as every title has been found.
pub fn resolve_redirects(table: &Vec<RedirectRecord>, links: &Vec<String>) -> (lookup: Lookup)
    ensures
        lookup.wf(),
        lookup.model() == fed_all(all_missing(views(links@)), redirect_views(table@)),
        forall|title: Seq<char>| lookup.wants(title) <==> views(links@).contains(title),
        forall|title: Seq<char>|
            views(links@).contains(title) ==> lookup.hop(title) == first_match(
                redirect_views(table@),
                title,
            ),
{
    let mut lookup = Lookup::new(links);
    let ghost start = all_missing(views(links@));
    let ghost records = redirect_views(table@);
    let mut i: usize = 0;
    let mut complete = lookup.is_complete();
    proof {
        lemma_all_missing(views(links@));
        assert(records.take(0) == Seq::<RedirectView>::empty());
    }
    while i < table.len() && !complete
        invariant
            i <= table.len(),
            lookup.wf(),
            start == all_missing(views(links@)),
            start.wf(),
            records == redirect_views(table@),
            lookup.model() == fed_all(start, records.take(i as int)),
            complete == all_found(lookup.model()),
        decreases table.len() - i,
    {
        assert(records.take(i + 1).drop_last() == records.take(i as int));
        complete = lookup.feed(table[i].duplicate());
        i += 1;
    }
    proof {
        if complete {
            lemma_fed_all_complete(start, records, i as int);
        } else {
            assert(records.take(i as int) == records);
        }
        lemma_fed_all(views(links@), records);
        let m = lookup.model();
        assert forall|title: Seq<char>| views(links@).contains(title) implies lookup.hop(title)
            == first_match(records, title) by {
            let k = m.titles.index_of(title);
            assert(0 <= k < m.titles.len() && m.titles[k] == title);
        }
    }
    lookup
}

/// A redirect on its way to its terminal title: the redirecting title, the
/// title it currently points to, and the titles it has pointed to since it
/// was read, in order.
#[derive(Debug, PartialEq, Eq)]
pub struct Pending {
    pub title: String,
    pub target: String,
    pub path: Vec<String>,
}

/// A pending redirect as mathematical data.
pub struct PendingView {
    pub title: Seq<char>,
    pub target: Seq<char>,
    pub path: Seq<Seq<char>>,
}

impl View for Pending {
    type V = PendingView;

    open spec fn view(&self) -> PendingView {
        PendingView { title: self.title@, target: self.target@, path: views(self.path@) }
    }
}

/// The views of a sequence of pending redirects, element by element.
pub open spec fn pending_views(batch: Seq<Pending>) -> Seq<PendingView> {
    batch.map_values(|entry: Pending| entry@)
}

/// A record as it enters a batch: nothing stepped onto yet.
pub open spec fn fresh(record: RedirectView) -> PendingView {
    PendingView { title: record.title, target: record.target, path: Seq::empty() }
}

/// The records of a table as they enter a batch.
pub open spec fn fresh_all(table: Seq<RedirectView>) -> Seq<PendingView> {
    table.map_values(|record: RedirectView| fresh(record))
}

/// What a round makes of a pending redirect.
#[derive(Debug, PartialEq, Eq)]
pub enum Resolution {
    /// The target redirects further: the entry stays, moved on by one hop.
    Active(Pending),
    /// The target is terminal: the entry is final.
    Resolved(RedirectRecord),
    /// The target redirects to a title that the entry has pointed to before:
    /// the entry is dropped, and handed back as it stood.
    Cycle(Pending),
}

/// A resolution as mathematical data.
pub enum ResolutionView {
    Active(PendingView),
    Resolved(RedirectView),
    Cycle(PendingView),
}

impl View for Resolution {
    type V = ResolutionView;

    open spec fn view(&self) -> ResolutionView {
        match *self {
            Resolution::Active(entry) => ResolutionView::Active(entry@),
            Resolution::Resolved(record) => ResolutionView::Resolved(record@),
            Resolution::Cycle(entry) => ResolutionView::Cycle(entry@),
        }
    }
}

/// What a round makes of `entry`, given the title that its target redirects
/// to. A hop to another title is progress, unless that title is already on
/// the entry's path, which is a cycle. No hop, or a hop to the target
/// itself, makes the entry final.
pub open spec fn resolution(entry: PendingView, hop: Option<Seq<char>>) -> ResolutionView {
    match hop {
        Some(next) => if next == entry.target {
            ResolutionView::Resolved(RedirectView { title: entry.title, target: entry.target })
        } else if entry.path.contains(next) {
            ResolutionView::Cycle(entry)
        } else {
            ResolutionView::Active(
                PendingView { title: entry.title, target: next, path: entry.path.push(next) },
            )
        },
        None => ResolutionView::Resolved(
            RedirectView { title: entry.title, target: entry.target },
        ),
    }
}

/// Moves one pending redirect through a round.
pub fn advance_pending(entry: Pending, hop: Option<&String>) -> (result: Resolution)
    ensures
        result@ == resolution(
            entry@,
            match hop {
                Some(next) => Some(next@),
                None => None,
            },
        ),
{
    match hop {
        Some(next) => {
            if *next == entry.target {
                Resolution::Resolved(RedirectRecord { title: entry.title, target: entry.target })
            } else if holds(&entry.path, next) {
                Resolution::Cycle(entry)
            } else {
                let mut path = entry.path;
                let ghost before = path@;
                path.push(next.clone());
                assert(views(path@) == views(before).push(next@));
                Resolution::Active(Pending { title: entry.title, target: next.clone(), path })
            }
        },
        None => Resolution::Resolved(RedirectRecord { title: entry.title, target: entry.target }),
    }
}

/// The hop that `hops` gives `title`.
pub open spec fn hop_of(hops: Map<Seq<char>, Seq<char>>, title: Seq<char>) -> Option<Seq<char>> {
    if hops.contains_key(title) {
        Some(hops[title])
    } else {
        None
    }
}

/// A batch after a round: the entries that stay, the records that became
/// final, and the entries that were dropped for a cycle, each in the order
/// of the batch.
pub open spec fn advanced(batch: Seq<PendingView>, hops: Map<Seq<char>, Seq<char>>) -> (
    Seq<PendingView>,
    Seq<RedirectView>,
    Seq<PendingView>,
)
    decreases batch.len(),
{
    if batch.len() == 0 {
        (Seq::empty(), Seq::empty(), Seq::empty())
    } else {
        let (staying, emitted, dropped) = advanced(batch.drop_last(), hops);
        match resolution(batch.last(), hop_of(hops, batch.last().target)) {
            ResolutionView::Active(entry) => (staying.push(entry), emitted, dropped),
            ResolutionView::Resolved(record) => (staying, emitted.push(record), dropped),
            ResolutionView::Cycle(entry) => (staying, emitted, dropped.push(entry)),
        }
    }
}

/// What a round hands back: the records that became final, and the entries
/// that were dropped because their redirects run in a cycle.
#[derive(Debug, PartialEq, Eq)]
pub struct Round {
    pub emitted: Vec<RedirectRecord>,
    pub dropped: Vec<Pending>,
}

/// The redirects in flight: at most `batch_size` pending entries.
#[derive(Debug)]
pub struct Resolver {
    pub batch: Vec<Pending>,
    pub batch_size: usize,
}

impl Resolver {
    /// The batch is within its size.
    pub open spec fn wf(&self) -> bool {
        self.batch.len() <= self.batch_size
    }

    /// A resolver with an empty batch.
    pub fn new(batch_size: usize) -> (resolver: Resolver)
        ensures
            resolver.wf(),
            resolver.batch@.len() == 0,
            resolver.batch_size == batch_size,
    {
        Resolver { batch: Vec::new(), batch_size }
    }

    /// How many records the batch can still take.
    pub fn room(&self) -> (free: usize)
        requires
            self.wf(),
        ensures
            free == self.batch_size - self.batch.len(),
    {
        self.batch_size - self.batch.len()
    }

    /// Whether nothing is in flight.
    pub fn is_empty(&self) -> (empty: bool)
        ensures
            empty == (self.batch.len() == 0),
    {
        self.batch.len() == 0
    }

    /// Takes a record that was just read into the batch.
    pub fn enqueue(&mut self, record: RedirectRecord)
        requires
            old(self).batch.len() < old(self).batch_size,
        ensures
            final(self).wf(),
            final(self).batch_size == old(self).batch_size,
            pending_views(final(self).batch@) == pending_views(old(self).batch@).push(
                fresh(record@),
            ),
    {
        let entry = Pending { title: record.title, target: record.target, path: Vec::new() };
        assert(views(entry.path@) =~= Seq::<Seq<char>>::empty());
        assert(entry@ == fresh(record@));
        self.batch.push(entry);
        assert(pending_views(self.batch@) =~= pending_views(old(self).batch@).push(fresh(record@)));
    }

    /// The current targets of the batch, in order.
    pub fn targets(&self) -> (targets: Vec<String>)
        ensures
            views(targets@) == pending_views(self.batch@).map_values(
                |entry: PendingView| entry.target,
            ),
    {
        let mut targets: Vec<String> = Vec::new();
        let mut i: usize = 0;
        while i < self.batch.len()
            invariant
                i <= self.batch.len(),
                targets.len() == i,
                forall|k: int| 0 <= k < i ==> (#[trigger] targets@[k])@ == self.batch@[k].target@,
            decreases self.batch.len() - i,
        {
            targets.push(self.batch[i].target.clone());
            i += 1;
        }
        assert(views(targets@) =~= pending_views(self.batch@).map_values(
            |entry: PendingView| entry.target,
        ));
        targets
    }

    /// Moves every entry of the batch through one round, given the lookup of
    /// the round. The entries that stay keep their order; the records that
    /// became final and the entries that were dropped for a cycle are
    /// handed back in theirs.
    pub fn advance(&mut self, lookup: &Lookup) -> (round: Round)
        requires
            old(self).wf(),
            lookup.wf(),
        ensures
            final(self).wf(),
            final(self).batch_size == old(self).batch_size,
            (
                pending_views(final(self).batch@),
                redirect_views(round.emitted@),
                pending_views(round.dropped@),
            ) == advanced(pending_views(old(self).batch@), lookup.hops()),
    {
        let mut staying: Vec<Pending> = Vec::new();
        let mut emitted: Vec<RedirectRecord> = Vec::new();
        let mut dropped: Vec<Pending> = Vec::new();
        assert(pending_views(dropped@) =~= Seq::<PendingView>::empty());
        let mut batch: Vec<Pending> = Vec::new();
        core::mem::swap(&mut batch, &mut self.batch);
        let ghost all = pending_views(batch@);
        let ghost hops = lookup.hops();
        assert(all.take(0) =~= Seq::<PendingView>::empty());
        assert(pending_views(staying@) =~= Seq::<PendingView>::empty());
        assert(redirect_views(emitted@) =~= Seq::<RedirectView>::empty());
        for entry in it: batch
            invariant
                lookup.wf(),
                hops == lookup.hops(),
                pending_views(it.seq()) == all,
                staying.len() <= it.index(),
                (pending_views(staying@), redirect_views(emitted@), pending_views(dropped@))
                    == advanced(all.take(it.index()), hops),
        {
            let ghost before_staying = staying@;
            let ghost before_emitted = emitted@;
            let ghost before_dropped = dropped@;
            assert(all.take(it.index() + 1).drop_last() == all.take(it.index()));
            assert(all.take(it.index() + 1).last() == entry@);
            let hop = lookup.get(entry.target.as_str());
            match advance_pending(entry, hop) {
                Resolution::Active(moved) => {
                    staying.push(moved);
                    assert(pending_views(staying@) =~= pending_views(before_staying).push(moved@));
                },
                Resolution::Resolved(record) => {
                    emitted.push(record);
                    assert(redirect_views(emitted@) =~= redirect_views(before_emitted).push(
                        record@,
                    ));
                },
                Resolution::Cycle(entry) => {
                    dropped.push(entry);
                    assert(pending_views(dropped@) =~= pending_views(before_dropped).push(entry@));
                },
            }
        }
        assert(all.take(all.len() as int) =~= all);
        self.batch = staying;
        Round { emitted, dropped }
    }
}

/// The record that a pending redirect ends as: its title with the terminal
/// title of its walk, or nothing where the walk runs into a cycle.
pub open spec fn outcome(table: Map<Seq<char>, Seq<char>>, entry: PendingView) -> Option<
    RedirectView,
> {
    match chase(table, entry.target, entry.path) {
        Some(end) => Some(RedirectView { title: entry.title, target: end }),
        None => None,
    }
}

/// The records that the entries of a batch end as, in the order of the batch.
pub open spec fn resolved_of(table: Map<Seq<char>, Seq<char>>, batch: Seq<PendingView>) -> Seq<
    RedirectView,
>
    decreases batch.len(),
{
    if batch.len() == 0 {
        Seq::empty()
    } else {
        match outcome(table, batch.last()) {
            Some(record) => resolved_of(table, batch.drop_last()).push(record),
            None => resolved_of(table, batch.drop_last()),
        }
    }
}

/// The closure of a redirect artifact: every record with the terminal title
/// of its target, looked up in the artifact itself; the records of a cycle
/// are left out.
pub open spec fn closure(table: Seq<RedirectView>) -> Seq<RedirectView> {
    resolved_of(table_map(table), fresh_all(table))
}

/// A bound on the rounds that the entries of a batch can still take: one for
/// each entry, and one for each title that its walk can still reach.
pub open spec fn weight(table: Map<Seq<char>, Seq<char>>, batch: Seq<PendingView>) -> nat
    decreases batch.len(),
{
    if batch.len() == 0 {
        0
    } else {
        weight(table, batch.drop_last()) + 1 + unvisited(table, batch.last().path).len()
    }
}

/// The outcomes of two batches, one behind the other.
pub proof fn lemma_resolved_of_concat(
    table: Map<Seq<char>, Seq<char>>,
    a: Seq<PendingView>,
    b: Seq<PendingView>,
)
    ensures
        resolved_of(table, a + b) == resolved_of(table, a) + resolved_of(table, b),
    decreases b.len(),
{
    if b.len() == 0 {
        assert(a + b == a);
    } else {
        assert((a + b).drop_last() == a + b.drop_last());
        assert((a + b).last() == b.last());
        lemma_resolved_of_concat(table, a, b.drop_last());
    }
}

/// The weight of two batches, one behind the other.
pub proof fn lemma_weight_concat(
    table: Map<Seq<char>, Seq<char>>,
    a: Seq<PendingView>,
    b: Seq<PendingView>,
)
    ensures
        weight(table, a + b) == weight(table, a) + weight(table, b),
    decreases b.len(),
{
    if b.len() == 0 {
        assert(a + b == a);
    } else {
        assert((a + b).drop_last() == a + b.drop_last());
        assert((a + b).last() == b.last());
        lemma_weight_concat(table, a, b.drop_last());
    }
}

/// A round does not change what an entry ends as: an entry that stays ends
/// as it would have, with fewer titles left to reach; a final record is the
/// entry's outcome; a dropped entry had none.
pub proof fn lemma_resolution(table: Map<Seq<char>, Seq<char>>, entry: PendingView)
    requires
        table.dom().finite(),
    ensures
        match resolution(entry, hop_of(table, entry.target)) {
            ResolutionView::Active(moved) => outcome(table, moved) == outcome(table, entry)
                && unvisited(table, moved.path).len() < unvisited(table, entry.path).len(),
            ResolutionView::Resolved(record) => outcome(table, entry) == Some(record),
            ResolutionView::Cycle(_) => outcome(table, entry) is None,
        },
{
    if table.contains_key(entry.target) && table[entry.target] != entry.target
        && !entry.path.contains(table[entry.target]) {
        lemma_unvisited_shrinks(table, entry.path, entry.target);
    }
}

/// A round on a batch: as a multiset, the records that became final together
/// with the outcomes of the entries that stay are the outcomes of the batch;
/// and the weight falls by at least the size of the batch.
pub proof fn lemma_advanced(table: Map<Seq<char>, Seq<char>>, batch: Seq<PendingView>)
    requires
        table.dom().finite(),
    ensures
        advanced(batch, table).1.to_multiset().add(
            resolved_of(table, advanced(batch, table).0).to_multiset(),
        ) == resolved_of(table, batch).to_multiset(),
        weight(table, advanced(batch, table).0) + batch.len() <= weight(table, batch),
        advanced(batch, table).0.len() <= batch.len(),
    decreases batch.len(),
{
    let (staying, emitted, dropped) = advanced(batch, table);
    if batch.len() == 0 {
        lemma_empty_to_multiset::<RedirectView>();
        assert(emitted.to_multiset().add(resolved_of(table, staying).to_multiset())
            =~= resolved_of(table, batch).to_multiset());
    } else {
        let front = batch.drop_last();
        let entry = batch.last();
        let (s0, e0, d0) = advanced(front, table);
        lemma_advanced(table, front);
        lemma_resolution(table, entry);
        let target = resolved_of(table, batch).to_multiset();
        let before = e0.to_multiset().add(resolved_of(table, s0).to_multiset());
        assert(before == resolved_of(table, front).to_multiset());
        match resolution(entry, hop_of(table, entry.target)) {
            ResolutionView::Active(moved) => {
                assert(staying == s0.push(moved));
                assert(emitted == e0);
                assert(staying.drop_last() == s0);
                assert(staying.last() == moved);
                match outcome(table, entry) {
                    Some(record) => {
                        vstd::seq_lib::to_multiset_build(resolved_of(table, s0), record);
                        vstd::seq_lib::to_multiset_build(resolved_of(table, front), record);
                        assert(resolved_of(table, staying) == resolved_of(table, s0).push(record));
                        assert(resolved_of(table, batch) == resolved_of(table, front).push(record));
                        assert(emitted.to_multiset().add(resolved_of(table, staying).to_multiset())
                            =~= before.insert(record));
                    },
                    None => {
                        assert(resolved_of(table, staying) == resolved_of(table, s0));
                        assert(resolved_of(table, batch) == resolved_of(table, front));
                    },
                }
            },
            ResolutionView::Resolved(record) => {
                assert(staying == s0);
                assert(emitted == e0.push(record));
                vstd::seq_lib::to_multiset_build(e0, record);
                vstd::seq_lib::to_multiset_build(resolved_of(table, front), record);
                assert(resolved_of(table, batch) == resolved_of(table, front).push(record));
                assert(emitted.to_multiset().add(resolved_of(table, staying).to_multiset())
                    =~= before.insert(record));
            },
            ResolutionView::Cycle(_) => {
                assert(staying == s0);
                assert(emitted == e0);
                assert(resolved_of(table, batch) == resolved_of(table, front));
            },
        }
        assert(emitted.to_multiset().add(resolved_of(table, staying).to_multiset()) == target);
    }
}

/// The empty sequence is the empty multiset.
pub proof fn lemma_empty_to_multiset<A>()
    ensures
        Seq::<A>::empty().to_multiset() == Multiset::<A>::empty(),
{
    let s = Seq::<A>::empty();
    assert forall|a: A| s.to_multiset().count(a) == 0 by {
        vstd::seq_lib::to_multiset_contains(s, a);
    }
    assert(s.to_multiset() =~= Multiset::<A>::empty());
}

/// A round depends on the hops of the batch's targets only.
pub proof fn lemma_advanced_agree(
    batch: Seq<PendingView>,
    a: Map<Seq<char>, Seq<char>>,
    b: Map<Seq<char>, Seq<char>>,
)
    requires
        forall|i: int|
            0 <= i < batch.len() ==> hop_of(a, (#[trigger] batch[i]).target) == hop_of(
                b,
                batch[i].target,
            ),
    ensures
        advanced(batch, a) == advanced(batch, b),
    decreases batch.len(),
{
    if batch.len() > 0 {
        assert forall|i: int| 0 <= i < batch.drop_last().len() implies hop_of(
            a,
            (#[trigger] batch.drop_last()[i]).target,
        ) == hop_of(b, batch.drop_last()[i].target) by {
            assert(batch.drop_last()[i] == batch[i]);
        }
        lemma_advanced_agree(batch.drop_last(), a, b);
        assert(batch.last() == batch[batch.len() - 1]);
    }
}

/// A walk ends at a title that redirects nowhere or to itself.
pub proof fn lemma_chase_terminal(
    table: Map<Seq<char>, Seq<char>>,
    target: Seq<char>,
    path: Seq<Seq<char>>,
)
    requires
        table.dom().finite(),
        chase(table, target, path) is Some,
    ensures
        hop_of(table, chase(table, target, path)->0) is None || hop_of(
            table,
            chase(table, target, path)->0,
        ) == Some(chase(table, target, path)->0),
    decreases unvisited(table, path).len(),
{
    if table.contains_key(target) && table[target] != target {
        lemma_unvisited_shrinks(table, path, target);
        lemma_chase_terminal(table, table[target], path.push(table[target]));
    }
}

/// Every record of an outcome list is the outcome of an entry of the batch.
pub proof fn lemma_resolved_of_rows(
    table: Map<Seq<char>, Seq<char>>,
    batch: Seq<PendingView>,
    i: int,
) -> (j: int)
    requires
        0 <= i < resolved_of(table, batch).len(),
    ensures
        0 <= j < batch.len(),
        outcome(table, batch[j]) == Some(resolved_of(table, batch)[i]),
    decreases batch.len(),
{
    let front = resolved_of(table, batch.drop_last());
    if i < front.len() {
        lemma_resolved_of_rows(table, batch.drop_last(), i)
    } else {
        batch.len() - 1
    }
}

/// Whether `row` maps the title of a record of the artifact to the title at
/// which the walk from that record's target ends, a title that the artifact
/// redirects nowhere or to itself.
pub open spec fn is_closed_row(table: Seq<RedirectView>, row: RedirectView) -> bool {
    &&& exists|j: int|
        0 <= j < table.len() && (#[trigger] table[j]).title == row.title && terminal(
            table_map(table),
            table[j].target,
        ) == Some(row.target)
    &&& first_match(table, row.target) is None || first_match(table, row.target) == Some(
        row.target,
    )
}

/// Records that are, without their order, the closure of an artifact are
/// closed rows, every one.
pub proof fn lemma_rows_of_closure(table: Seq<RedirectView>, rows: Seq<RedirectView>, i: int)
    requires
        rows.to_multiset() == closure(table).to_multiset(),
        0 <= i < rows.len(),
    ensures
        is_closed_row(table, rows[i]),
{
    let row = rows[i];
    assert(rows.contains(row));
    vstd::seq_lib::to_multiset_contains(rows, row);
    vstd::seq_lib::to_multiset_contains(closure(table), row);
    let k = choose|k: int| 0 <= k < closure(table).len() && closure(table)[k] == row;
    let j = lemma_closure_rows(table, k);
    assert(table[j].title == row.title);
}

/// Every row of a closure maps the title of a record of the artifact to a
/// terminal title: one that the artifact redirects nowhere, or to itself.
/// That title is where the walk from the record's target ends.
pub proof fn lemma_closure_rows(table: Seq<RedirectView>, i: int) -> (j: int)
    requires
        0 <= i < closure(table).len(),
    ensures
        0 <= j < table.len(),
        closure(table)[i].title == table[j].title,
        chase(table_map(table), table[j].target, Seq::empty()) == Some(closure(table)[i].target),
        first_match(table, closure(table)[i].target) is None || first_match(
            table,
            closure(table)[i].target,
        ) == Some(closure(table)[i].target),
{
    let map = table_map(table);
    lemma_table_map_finite(table);
    let j = lemma_resolved_of_rows(map, fresh_all(table), i);
    lemma_chase_terminal(map, table[j].target, Seq::empty());
    j
}

/// Titles with their targets as the records of an artifact, in order.
pub open spec fn records_of(redirects: Assoc<Seq<char>>) -> Seq<RedirectView> {
    Seq::new(
        redirects.titles.len(),
        |i: int| RedirectView { title: redirects.titles[i], target: redirects.values[i] },
    )
}

/// In an artifact without a title twice, every record is the first of its title.
pub proof fn lemma_first_match_unique(table: Seq<RedirectView>, i: int)
    requires
        0 <= i < table.len(),
        table.map_values(|r: RedirectView| r.title).no_duplicates(),
    ensures
        first_match(table, table[i].title) == Some(table[i].target),
    decreases table.len(),
{
    let titles = table.map_values(|r: RedirectView| r.title);
    let front = table.drop_last();
    let front_titles = front.map_values(|r: RedirectView| r.title);
    assert forall|a: int, b: int|
        0 <= a < front_titles.len() && 0 <= b < front_titles.len() && a != b implies front_titles[a]
        != front_titles[b] by {
        assert(titles[a] == front_titles[a] && titles[b] == front_titles[b]);
    }
    if i < table.len() - 1 {
        lemma_first_match_unique(front, i);
    } else {
        if first_match(front, table[i].title) is Some {
            lemma_first_match_title(front, table[i].title);
            let j = choose|j: int| 0 <= j < front_titles.len() && front_titles[j] == table[i].title;
            assert(titles[j] == titles[i]);
        }
    }
}

/// Redirects held in memory are, as a map, the map of their records.
pub proof fn lemma_records_map(redirects: Assoc<Seq<char>>)
    requires
        redirects.wf(),
    ensures
        table_map(records_of(redirects)) == redirects.as_map(),
{
    let table = records_of(redirects);
    let titles = table.map_values(|r: RedirectView| r.title);
    assert(titles =~= redirects.titles);
    assert forall|t: Seq<char>| redirects.titles.contains(t) implies first_match(table, t) == Some(
        redirects.values[redirects.titles.index_of(t)],
    ) by {
        let i = redirects.titles.index_of(t);
        assert(0 <= i < redirects.titles.len() && redirects.titles[i] == t);
        lemma_first_match_unique(table, i);
    }
    assert forall|t: Seq<char>| first_match(table, t) is Some implies redirects.titles.contains(
        t,
    ) by {
        lemma_first_match_title(table, t);
    }
    assert(table_map(table) =~= redirects.as_map());
}

/// The closure of the first entries in memory is the outcome of the first
/// records of the artifact.
pub proof fn lemma_closed_prefix_records(redirects: Assoc<Seq<char>>, n: int)
    requires
        redirects.wf(),
        0 <= n <= redirects.titles.len(),
    ensures
        closed_prefix(redirects, n).wf(),
        forall|t: Seq<char>|
            closed_prefix(redirects, n).titles.contains(t) ==> exists|j: int|
                0 <= j < n && redirects.titles[j] == t,
        records_of(closed_prefix(redirects, n)) == resolved_of(
            redirects.as_map(),
            fresh_all(records_of(redirects).take(n)),
        ),
    decreases n,
{
    let table = records_of(redirects);
    let map = redirects.as_map();
    if n == 0 {
        assert(fresh_all(table.take(0)) =~= Seq::<PendingView>::empty());
        assert(records_of(closed_prefix(redirects, n)) =~= Seq::<RedirectView>::empty());
    } else {
        let before = closed_prefix(redirects, n - 1);
        let title = redirects.titles[n - 1];
        lemma_closed_prefix_records(redirects, n - 1);
        assert(fresh_all(table.take(n)).drop_last() =~= fresh_all(table.take(n - 1)));
        assert(fresh_all(table.take(n)).last() == fresh(table[n - 1]));
        if before.titles.contains(title) {
            let j = choose|j: int| 0 <= j < n - 1 && redirects.titles[j] == title;
            assert(redirects.titles[j] == redirects.titles[n - 1]);
        }
        match terminal(map, redirects.values[n - 1]) {
            Some(end) => {
                let after = before.put(title, end);
                before.lemma_put(title, end);
                assert(records_of(after) =~= records_of(before).push(
                    RedirectView { title, target: end },
                ));
                assert forall|t: Seq<char>| after.titles.contains(t) implies exists|j: int|
                    0 <= j < n && redirects.titles[j] == t by {
                    if before.titles.contains(t) {
                        let j = choose|j: int| 0 <= j < n - 1 && redirects.titles[j] == t;
                        assert(0 <= j < n && redirects.titles[j] == t);
                    } else {
                        let k = choose|k: int| 0 <= k < after.titles.len() && after.titles[k] == t;
                        if k < before.titles.len() {
                            assert(before.titles[k] == t);
                        }
                        assert(redirects.titles[n - 1] == t);
                    }
                }
            },
            None => {
                assert forall|t: Seq<char>| before.titles.contains(t) implies exists|j: int|
                    0 <= j < n && redirects.titles[j] == t by {
                    let j = choose|j: int| 0 <= j < n - 1 && redirects.titles[j] == t;
                    assert(0 <= j < n && redirects.titles[j] == t);
                }
            },
        }
    }
}

/// Closing redirects in memory and closing their artifact give the same
/// records in the same order.
pub proof fn lemma_closed_is_closure(redirects: Assoc<Seq<char>>)
    requires
        redirects.wf(),
    ensures
        records_of(closed(redirects)) == closure(records_of(redirects)),
{
    lemma_records_map(redirects);
    lemma_closed_prefix_records(redirects, redirects.titles.len() as int);
    assert(records_of(redirects).take(redirects.titles.len() as int) == records_of(redirects));
}

/// How many records a round reads to top the batch up: as many as fit,
/// and no more than are left.
pub open spec fn refill(batch_len: int, left: int, batch_size: int) -> int {
    if batch_size - batch_len <= 0 {
        0
    } else if batch_size - batch_len < left {
        batch_size - batch_len
    } else {
        left
    }
}

/// A closure in rounds as mathematical data: the records in the order in
/// which they became final, the entries dropped for a cycle in the order in
/// which they were dropped, and the number of rounds.
pub struct ClosureView {
    pub records: Seq<RedirectView>,
    pub dropped: Seq<PendingView>,
    pub rounds: nat,
}

/// What the rounds yield from a batch and the records not yet read. A round
/// tops the batch up, moves every entry by one hop, and hands back the
/// records that became final and the entries that it dropped, in the order
/// of the batch. The rounds end when the batch is empty and nothing is left
/// to read.
pub open spec fn closed_in_rounds(
    table: Map<Seq<char>, Seq<char>>,
    batch: Seq<PendingView>,
    rest: Seq<RedirectView>,
    batch_size: int,
) -> ClosureView
    decreases weight(table, batch + fresh_all(rest)),
    when table.dom().finite() && batch_size >= 1
    via closed_in_rounds_decreases
{
    if batch.len() == 0 && rest.len() == 0 {
        ClosureView { records: Seq::empty(), dropped: Seq::empty(), rounds: 0 }
    } else {
        let k = refill(batch.len() as int, rest.len() as int, batch_size);
        let filled = batch + fresh_all(rest.take(k));
        let later = closed_in_rounds(table, advanced(filled, table).0, rest.skip(k), batch_size);
        ClosureView {
            records: advanced(filled, table).1 + later.records,
            dropped: advanced(filled, table).2 + later.dropped,
            rounds: later.rounds + 1,
        }
    }
}

#[via_fn]
proof fn closed_in_rounds_decreases(
    table: Map<Seq<char>, Seq<char>>,
    batch: Seq<PendingView>,
    rest: Seq<RedirectView>,
    batch_size: int,
) {
    if !(batch.len() == 0 && rest.len() == 0) {
        lemma_round(table, batch, rest, batch_size);
    }
}

/// One round: topping up moves records from the unread to the batch without
/// changing the two taken together, the batch is not empty then, and the
/// round lowers the weight.
pub proof fn lemma_round(
    table: Map<Seq<char>, Seq<char>>,
    batch: Seq<PendingView>,
    rest: Seq<RedirectView>,
    batch_size: int,
)
    requires
        table.dom().finite(),
        batch_size >= 1,
        batch.len() > 0 || rest.len() > 0,
    ensures
        ({
            let k = refill(batch.len() as int, rest.len() as int, batch_size);
            let filled = batch + fresh_all(rest.take(k));
            let staying = advanced(filled, table).0;
            &&& 0 <= k <= rest.len()
            &&& filled.len() > 0
            &&& filled + fresh_all(rest.skip(k)) == batch + fresh_all(rest)
            &&& weight(table, staying + fresh_all(rest.skip(k))) < weight(
                table,
                batch + fresh_all(rest),
            )
        }),
{
    let k = refill(batch.len() as int, rest.len() as int, batch_size);
    let filled = batch + fresh_all(rest.take(k));
    let staying = advanced(filled, table).0;
    let unread = fresh_all(rest.skip(k));
    assert(fresh_all(rest.take(k)) + unread =~= fresh_all(rest));
    assert(filled + unread =~= batch + fresh_all(rest));
    lemma_advanced(table, filled);
    lemma_weight_concat(table, filled, unread);
    lemma_weight_concat(table, staying, unread);
}

/// As a multiset, the records that become final in the rounds are the
/// outcomes of the batch and of the records not yet read: the rounds lose
/// no record, invent none, and drop exactly the cycles.
pub proof fn lemma_closed_in_rounds(
    table: Map<Seq<char>, Seq<char>>,
    batch: Seq<PendingView>,
    rest: Seq<RedirectView>,
    batch_size: int,
)
    requires
        table.dom().finite(),
        batch_size >= 1,
    ensures
        closed_in_rounds(table, batch, rest, batch_size).records.to_multiset() == resolved_of(
            table,
            batch + fresh_all(rest),
        ).to_multiset(),
    decreases weight(table, batch + fresh_all(rest)),
{
    if batch.len() == 0 && rest.len() == 0 {
        assert(batch + fresh_all(rest) =~= Seq::<PendingView>::empty());
    } else {
        let k = refill(batch.len() as int, rest.len() as int, batch_size);
        let filled = batch + fresh_all(rest.take(k));
        let (staying, emitted, dropped) = advanced(filled, table);
        let unread = fresh_all(rest.skip(k));
        let later = closed_in_rounds(table, staying, rest.skip(k), batch_size).records;
        lemma_round(table, batch, rest, batch_size);
        lemma_closed_in_rounds(table, staying, rest.skip(k), batch_size);
        lemma_advanced(table, filled);
        lemma_resolved_of_concat(table, filled, unread);
        lemma_resolved_of_concat(table, staying, unread);
        vstd::seq_lib::lemma_multiset_commutative(emitted, later);
        vstd::seq_lib::lemma_multiset_commutative(
            resolved_of(table, filled),
            resolved_of(table, unread),
        );
        vstd::seq_lib::lemma_multiset_commutative(
            resolved_of(table, staying),
            resolved_of(table, unread),
        );
        assert((emitted + later).to_multiset() =~= resolved_of(
            table,
            filled + unread,
        ).to_multiset());
    }
}

/// The rounds are never more than the weight of what is in flight and
/// unread: one for each entry, and one for each title that its walk can
/// still reach.
pub proof fn lemma_rounds_bound(
    table: Map<Seq<char>, Seq<char>>,
    batch: Seq<PendingView>,
    rest: Seq<RedirectView>,
    batch_size: int,
)
    requires
        table.dom().finite(),
        batch_size >= 1,
    ensures
        closed_in_rounds(table, batch, rest, batch_size).rounds <= weight(
            table,
            batch + fresh_all(rest),
        ),
    decreases weight(table, batch + fresh_all(rest)),
{
    if !(batch.len() == 0 && rest.len() == 0) {
        let k = refill(batch.len() as int, rest.len() as int, batch_size);
        let filled = batch + fresh_all(rest.take(k));
        lemma_round(table, batch, rest, batch_size);
        lemma_rounds_bound(table, advanced(filled, table).0, rest.skip(k), batch_size);
    }
}

/// The hops that the walk of an entry still makes before it ends or runs
/// into a cycle.
pub open spec fn hops_left(
    table: Map<Seq<char>, Seq<char>>,
    target: Seq<char>,
    path: Seq<Seq<char>>,
) -> nat
    decreases unvisited(table, path).len(),
    when table.dom().finite()
    via hops_left_decreases
{
    if table.contains_key(target) && table[target] != target && !path.contains(table[target]) {
        1 + hops_left(table, table[target], path.push(table[target]))
    } else {
        0
    }
}

#[via_fn]
proof fn hops_left_decreases(
    table: Map<Seq<char>, Seq<char>>,
    target: Seq<char>,
    path: Seq<Seq<char>>,
) {
    if table.contains_key(target) && !path.contains(table[target]) {
        lemma_unvisited_shrinks(table, path, target);
    }
}

/// The rounds that a batch needs until its last entry has left it: one more
/// than the greatest number of hops that an entry still makes.
pub open spec fn depth(table: Map<Seq<char>, Seq<char>>, batch: Seq<PendingView>) -> nat
    decreases batch.len(),
{
    if batch.len() == 0 {
        0
    } else if depth(table, batch.drop_last()) > hops_left(
        table,
        batch.last().target,
        batch.last().path,
    ) {
        depth(table, batch.drop_last())
    } else {
        hops_left(table, batch.last().target, batch.last().path) + 1
    }
}

/// A round takes one hop off every entry: a batch that is not empty needs
/// one round less after it.
pub proof fn lemma_advanced_depth(table: Map<Seq<char>, Seq<char>>, batch: Seq<PendingView>)
    requires
        table.dom().finite(),
        batch.len() > 0,
    ensures
        depth(table, advanced(batch, table).0) + 1 == depth(table, batch),
    decreases batch.len(),
{
    let front = batch.drop_last();
    let entry = batch.last();
    let (s0, e0, d0) = advanced(front, table);
    let staying = advanced(batch, table).0;
    let hops = hops_left(table, entry.target, entry.path);
    if front.len() > 0 {
        lemma_advanced_depth(table, front);
    } else {
        assert(s0 =~= Seq::<PendingView>::empty());
        assert(depth(table, front) == 0 && depth(table, s0) == 0);
    }
    assert(depth(table, batch) == if depth(table, front) > hops {
        depth(table, front)
    } else {
        hops + 1
    });
    match resolution(entry, hop_of(table, entry.target)) {
        ResolutionView::Active(moved) => {
            let after = hops_left(table, moved.target, moved.path);
            assert(staying == s0.push(moved));
            assert(staying.drop_last() == s0);
            assert(staying.last() == moved);
            assert(hops == 1 + after);
            assert(depth(table, staying) == if depth(table, s0) > after {
                depth(table, s0)
            } else {
                after + 1
            });
        },
        ResolutionView::Resolved(_) => {
            assert(staying == s0);
            assert(hops_left(table, entry.target, entry.path) == 0);
        },
        ResolutionView::Cycle(_) => {
            assert(staying == s0);
            assert(hops_left(table, entry.target, entry.path) == 0);
        },
    }
}

/// With nothing left to read, the rounds are one more than the greatest
/// number of hops that an entry of the batch still makes: an entry at the
/// head of a chain of `n` redirects is final after `n` rounds.
pub proof fn lemma_rounds_in_flight(
    table: Map<Seq<char>, Seq<char>>,
    batch: Seq<PendingView>,
    batch_size: int,
)
    requires
        table.dom().finite(),
        batch_size >= 1,
    ensures
        closed_in_rounds(table, batch, Seq::empty(), batch_size).rounds == depth(table, batch),
    decreases depth(table, batch),
{
    let rest = Seq::<RedirectView>::empty();
    if batch.len() > 0 {
        let k = refill(batch.len() as int, rest.len() as int, batch_size);
        assert(k == 0);
        let filled = batch + fresh_all(rest.take(k));
        assert(filled =~= batch);
        assert(rest.skip(k) =~= rest);
        lemma_advanced_depth(table, batch);
        lemma_rounds_in_flight(table, advanced(batch, table).0, batch_size);
    }
}

/// Where the batch holds the whole artifact, the rounds are one more than
/// the greatest number of hops from the target of a record to the end of
/// its walk.
pub proof fn lemma_rounds_of_whole(table: Seq<RedirectView>, batch_size: int)
    requires
        batch_size >= 1,
        batch_size >= table.len(),
    ensures
        closed_in_rounds(table_map(table), Seq::empty(), table, batch_size).rounds == depth(
            table_map(table),
            fresh_all(table),
        ),
{
    let map = table_map(table);
    lemma_table_map_finite(table);
    let none = Seq::<PendingView>::empty();
    if table.len() > 0 {
        let k = refill(none.len() as int, table.len() as int, batch_size);
        assert(k == table.len());
        assert(table.take(k) =~= table);
        let filled = none + fresh_all(table.take(k));
        assert(filled =~= fresh_all(table));
        assert(table.skip(k) =~= Seq::<RedirectView>::empty());
        lemma_advanced_depth(map, filled);
        lemma_rounds_in_flight(map, advanced(filled, map).0, batch_size);
    } else {
        assert(fresh_all(table) =~= none);
    }
}

/// A chain of two redirects that ends at a title without one is closed in
/// two rounds, wherever the batch holds both.
pub proof fn lemma_chain_two_rounds(a: Seq<char>, b: Seq<char>, c: Seq<char>, batch_size: int)
    requires
        a != b,
        b != c,
        a != c,
        batch_size >= 2,
    ensures
        closed_in_rounds(
            table_map(
                seq![RedirectView { title: a, target: b }, RedirectView { title: b, target: c }],
            ),
            Seq::empty(),
            seq![RedirectView { title: a, target: b }, RedirectView { title: b, target: c }],
            batch_size,
        ).rounds == 2,
{
    let first = RedirectView { title: a, target: b };
    let second = RedirectView { title: b, target: c };
    let table = seq![first, second];
    let map = table_map(table);
    lemma_table_map_finite(table);
    lemma_rounds_of_whole(table, batch_size);
    assert(table.drop_last() == seq![first]);
    assert(seq![first].drop_last() == Seq::<RedirectView>::empty());
    reveal_with_fuel(first_match, 3);
    assert(first_match(table, b) == Some(c));
    assert(first_match(table, c) is None);
    let none = Seq::<Seq<char>>::empty();
    assert(hops_left(map, c, none.push(c)) == 0);
    assert(hops_left(map, b, none) == 1);
    assert(hops_left(map, c, none) == 0);
    let entries = fresh_all(table);
    assert(entries.drop_last() =~= seq![fresh(first)]);
    assert(seq![fresh(first)].drop_last() =~= Seq::<PendingView>::empty());
    assert(entries.last() == fresh(second));
    reveal_with_fuel(depth, 3);
    assert(depth(map, seq![fresh(first)]) == 2);
}

/// What a closure hands back: the records in the order in which they became
/// final, the entries that were dropped for a cycle, and the number of
/// rounds that it took.
#[derive(Debug, PartialEq, Eq)]
pub struct Closure {
    pub records: Vec<RedirectRecord>,
    pub dropped: Vec<Pending>,
    pub rounds: usize,
}

/// A count as far as a `usize` holds it.
pub open spec fn clamped(count: nat) -> usize {
    if count <= usize::MAX {
        count as usize
    } else {
        usize::MAX
    }
}

/// Closes a redirect artifact in rounds over batches of at most `batch_size`
/// records. A round tops the batch up from the artifact, looks up where the
/// targets of the batch redirect to, and moves every entry on by one hop.
/// The result holds the records in the order in which they became final,
/// the entries dropped for a cycle, and the number of rounds. Taken without
/// their order, the records are the closure of the artifact.
pub fn close_table(table: &Vec<RedirectRecord>, batch_size: usize) -> (closed: Closure)
    requires
        batch_size >= 1,
    ensures
        redirect_views(closed.records@) == closed_in_rounds(
            table_map(redirect_views(table@)),
            Seq::empty(),
            redirect_views(table@),
            batch_size as int,
        ).records,
        pending_views(closed.dropped@) == closed_in_rounds(
            table_map(redirect_views(table@)),
            Seq::empty(),
            redirect_views(table@),
            batch_size as int,
        ).dropped,
        closed.rounds == clamped(
            closed_in_rounds(
                table_map(redirect_views(table@)),
                Seq::empty(),
                redirect_views(table@),
                batch_size as int,
            ).rounds,
        ),
        redirect_views(closed.records@).to_multiset() == closure(
            redirect_views(table@),
        ).to_multiset(),
        forall|i: int|
            0 <= i < closed.records.len() ==> is_closed_row(
                redirect_views(table@),
                #[trigger] redirect_views(closed.records@)[i],
            ),
{
    let ghost records = redirect_views(table@);
    let ghost map = table_map(records);
    let ghost total = closed_in_rounds(map, Seq::empty(), records, batch_size as int);
    let mut resolver = Resolver::new(batch_size);
    let mut closed: Vec<RedirectRecord> = Vec::new();
    let mut dropped: Vec<Pending> = Vec::new();
    let mut rounds: usize = 0;
    let ghost mut done: nat = 0;
    let mut next: usize = 0;
    proof {
        lemma_table_map_finite(records);
        assert(records.skip(0) == records);
        assert(pending_views(resolver.batch@) =~= Seq::<PendingView>::empty());
        assert(redirect_views(closed@) =~= Seq::<RedirectView>::empty());
        assert(pending_views(dropped@) =~= Seq::<PendingView>::empty());
        assert(redirect_views(closed@) + total.records =~= total.records);
        assert(pending_views(dropped@) + total.dropped =~= total.dropped);
    }
    while next < table.len() || !resolver.is_empty()
        invariant
            batch_size >= 1,
            resolver.wf(),
            resolver.batch_size == batch_size,
            next <= table.len(),
            records == redirect_views(table@),
            map == table_map(records),
            map.dom().finite(),
            total == closed_in_rounds(map, Seq::empty(), records, batch_size as int),
            rounds == clamped(done),
            redirect_views(closed@) + closed_in_rounds(
                map,
                pending_views(resolver.batch@),
                records.skip(next as int),
                batch_size as int,
            ).records == total.records,
            pending_views(dropped@) + closed_in_rounds(
                map,
                pending_views(resolver.batch@),
                records.skip(next as int),
                batch_size as int,
            ).dropped == total.dropped,
            done + closed_in_rounds(
                map,
                pending_views(resolver.batch@),
                records.skip(next as int),
                batch_size as int,
            ).rounds == total.rounds,
        decreases
                weight(map, pending_views(resolver.batch@) + fresh_all(records.skip(next as int))),
    {
        let ghost first = next;
        let ghost start = pending_views(resolver.batch@);
        let ghost rest = records.skip(next as int);
        let ghost k = refill(start.len() as int, rest.len() as int, batch_size as int);
        proof {
            lemma_round(map, start, rest, batch_size as int);
            assert(rest.take(0) =~= Seq::<RedirectView>::empty());
            assert(start + fresh_all(rest.take(0)) =~= start);
        }
        while next < table.len() && resolver.batch.len() < batch_size
            invariant
                resolver.wf(),
                resolver.batch_size == batch_size,
                first <= next <= table.len(),
                records == redirect_views(table@),
                rest == records.skip(first as int),
                start.len() + (next - first) == resolver.batch.len(),
                pending_views(resolver.batch@) == start + fresh_all(rest.take(next - first)),
            decreases table.len() - next,
        {
            let ghost before = pending_views(resolver.batch@);
            resolver.enqueue(table[next].duplicate());
            proof {
                assert(pending_views(resolver.batch@).len() == resolver.batch@.len());
                assert(before.len() == start.len() + (next - first));
                assert(rest[next - first] == records[next as int]);
                assert(rest.take(next - first + 1) =~= rest.take(next - first).push(
                    records[next as int],
                ));
                assert(fresh_all(rest.take(next - first + 1)) =~= fresh_all(
                    rest.take(next - first),
                ).push(fresh(records[next as int])));
                assert(before.push(fresh(records[next as int])) =~= start + fresh_all(
                    rest.take(next - first + 1),
                ));
            }
            next += 1;
        }
        let ghost filled = pending_views(resolver.batch@);
        proof {
            assert(next - first == k);
            assert(rest.skip(k) =~= records.skip(next as int));
        }
        let targets = resolver.targets();
        let lookup = resolve_redirects(table, &targets);
        proof {
            assert forall|i: int| 0 <= i < filled.len() implies hop_of(
                lookup.hops(),
                (#[trigger] filled[i]).target,
            ) == hop_of(map, filled[i].target) by {
                assert(views(targets@)[i] == filled[i].target);
                assert(views(targets@).contains(filled[i].target));
            }
            lemma_advanced_agree(filled, lookup.hops(), map);
        }
        let round = resolver.advance(&lookup);
        let ghost before_closed = redirect_views(closed@);
        let ghost before_dropped = pending_views(dropped@);
        let ghost emitted_views = redirect_views(round.emitted@);
        let ghost dropped_views = pending_views(round.dropped@);
        let mut emitted = round.emitted;
        let mut cycles = round.dropped;
        closed.append(&mut emitted);
        dropped.append(&mut cycles);
        if rounds < usize::MAX {
            rounds += 1;
        }
        proof {
            let staying = pending_views(resolver.batch@);
            let now = closed_in_rounds(map, start, rest, batch_size as int);
            let later = closed_in_rounds(map, staying, records.skip(next as int), batch_size as int);
            assert(redirect_views(closed@) =~= before_closed + emitted_views);
            assert(pending_views(dropped@) =~= before_dropped + dropped_views);
            assert(now.records == emitted_views + later.records);
            assert(now.dropped == dropped_views + later.dropped);
            assert(now.rounds == later.rounds + 1);
            assert(before_closed + emitted_views + later.records =~= before_closed + (emitted_views
                + later.records));
            assert(before_dropped + dropped_views + later.dropped =~= before_dropped + (
            dropped_views + later.dropped));
            done = done + 1;
        }
    }
    proof {
        lemma_closed_in_rounds(map, Seq::empty(), records, batch_size as int);
        assert(Seq::<PendingView>::empty() + fresh_all(records) =~= fresh_all(records));
        assert(records.skip(next as int) =~= Seq::<RedirectView>::empty());
        assert(redirect_views(closed@) + Seq::<RedirectView>::empty() =~= redirect_views(closed@));
        assert(pending_views(dropped@) + Seq::<PendingView>::empty() =~= pending_views(dropped@));
        assert forall|i: int| 0 <= i < closed.len() implies is_closed_row(
            records,
            #[trigger] redirect_views(closed@)[i],
        ) by {
            lemma_rows_of_closure(records, redirect_views(closed@), i);
        }
    }
    Closure { records: closed, dropped, rounds }
}

/// Whether every line denotes a redirect.
pub open spec fn all_redirects(lines: Seq<Seq<char>>) -> bool {
    forall|i: int| 0 <= i < lines.len() ==> redirect_of(#[trigger] lines[i]) is Some
}

/// The redirects that the lines denote, in order.
pub open spec fn redirects_of(lines: Seq<Seq<char>>) -> Seq<RedirectView> {
    lines.map_values(|line: Seq<char>| redirect_of(line)->0)
}

/// Reads the lines of a redirect artifact. One line without a `;` rejects
/// them all.
pub fn read_redirects(lines: &Vec<String>) -> (result: Result<Vec<RedirectRecord>, ParseError>)
    ensures
        match result {
            Ok(table) => all_redirects(views(lines@)) && redirect_views(table@) == redirects_of(
                views(lines@),
            ),
            Err(e) => !all_redirects(views(lines@)) && e == ParseError::MissingField,
        },
{
    let mut table: Vec<RedirectRecord> = Vec::new();
    let mut i: usize = 0;
    while i < lines.len()
        invariant
            i <= lines.len(),
            table.len() == i,
            forall|k: int|
                0 <= k < i ==> redirect_of(#[trigger] views(lines@)[k]) == Some(table@[k]@),
        decreases lines.len() - i,
    {
        match parse_redirects(lines[i].clone()) {
            Ok(record) => {
                table.push(record);
            },
            Err(e) => {
                assert(redirect_of(views(lines@)[i as int]) is None);
                return Err(e);
            },
        }
        i += 1;
    }
    assert(redirect_views(table@) =~= redirects_of(views(lines@)));
    Ok(table)
}

/// Closes the redirect artifact given by its lines: reads them, then closes
/// the table in rounds.
pub fn close_redirects(lines: &Vec<String>, batch_size: usize) -> (result: Result<
    Closure,
    ParseError,
>)
    requires
        batch_size >= 1,
    ensures
        match result {
            Ok(closed) => {
                &&& all_redirects(views(lines@))
                &&& redirect_views(closed.records@) == closed_in_rounds(
                    table_map(redirects_of(views(lines@))),
                    Seq::empty(),
                    redirects_of(views(lines@)),
                    batch_size as int,
                ).records
                &&& pending_views(closed.dropped@) == closed_in_rounds(
                    table_map(redirects_of(views(lines@))),
                    Seq::empty(),
                    redirects_of(views(lines@)),
                    batch_size as int,
                ).dropped
                &&& closed.rounds == clamped(
                    closed_in_rounds(
                        table_map(redirects_of(views(lines@))),
                        Seq::empty(),
                        redirects_of(views(lines@)),
                        batch_size as int,
                    ).rounds,
                )
                &&& redirect_views(closed.records@).to_multiset() == closure(
                    redirects_of(views(lines@)),
                ).to_multiset()
                &&& forall|i: int|
                    0 <= i < closed.records.len() ==> is_closed_row(
                        redirects_of(views(lines@)),
                        #[trigger] redirect_views(closed.records@)[i],
                    )
            },
            Err(e) => !all_redirects(views(lines@)) && e == ParseError::MissingField,
        },
{
    match read_redirects(lines) {
        Ok(table) => Ok(close_table(&table, batch_size)),
        Err(e) => Err(e),
    }
}

} // verus!
