//! Links of a page whose markup a full parser has turned into a tree.

use crate::text::views;
use std::collections::VecDeque;
use vstd::prelude::*;

verus! {

/// A node of a parsed page, reduced to what the search for links reads.
#[derive(Debug)]
pub enum MarkupNode {
    /// A link or a redirect, with its target. What the link shows is not
    /// searched.
    Target(String),
    /// A node whose inner nodes are searched: a heading, a list with the
    /// nodes of its items, a table with its attributes and cells, and so on.
    Container(Vec<MarkupNode>),
    /// Any other node.
    Other,
}

/// The number of nodes in a node and below it.
pub open spec fn node_size(node: MarkupNode) -> nat
    decreases node,
{
    match node {
        MarkupNode::Container(inner) => 1 + nodes_size(inner@),
        _ => 1,
    }
}

/// The number of nodes in a list of nodes and below them.
pub open spec fn nodes_size(nodes: Seq<MarkupNode>) -> nat
    decreases nodes,
{
    if nodes.len() == 0 {
        0
    } else {
        node_size(nodes[nodes.len() - 1]) + nodes_size(nodes.subrange(0, nodes.len() - 1))
    }
}

/// The size of two lists, one behind the other.
pub proof fn lemma_nodes_size_concat(a: Seq<MarkupNode>, b: Seq<MarkupNode>)
    ensures
        nodes_size(a + b) == nodes_size(a) + nodes_size(b),
    decreases b.len(),
{
    if b.len() == 0 {
        assert(a + b == a);
    } else {
        let ab = a + b;
        assert(ab.subrange(0, ab.len() - 1) == a + b.subrange(0, b.len() - 1));
        assert(ab[ab.len() - 1] == b[b.len() - 1]);
        lemma_nodes_size_concat(a, b.subrange(0, b.len() - 1));
    }
}

/// The size of a list is that of its first node and of the rest.
pub proof fn lemma_nodes_size_first(nodes: Seq<MarkupNode>)
    requires
        nodes.len() > 0,
    ensures
        nodes_size(nodes) == node_size(nodes[0]) + nodes_size(nodes.skip(1)),
{
    let head = seq![nodes[0]];
    assert(head + nodes.skip(1) == nodes);
    lemma_nodes_size_concat(head, nodes.skip(1));
    assert(head.subrange(0, 0) == Seq::<MarkupNode>::empty());
    assert(nodes_size(head) == node_size(nodes[0]) + nodes_size(head.subrange(0, 0)));
}

/// The targets found by working off a queue of nodes from the front: a
/// target is noted, the inner nodes of a container go to the back of the
/// queue, and any other node is passed over. The targets come level by level.
pub open spec fn targets_of(queue: Seq<MarkupNode>) -> Seq<Seq<char>>
    decreases nodes_size(queue),
    via targets_of_decreases
{
    if queue.len() == 0 {
        Seq::empty()
    } else {
        match queue[0] {
            MarkupNode::Target(target) => seq![target@] + targets_of(queue.skip(1)),
            MarkupNode::Container(inner) => targets_of(queue.skip(1) + inner@),
            MarkupNode::Other => targets_of(queue.skip(1)),
        }
    }
}

#[via_fn]
proof fn targets_of_decreases(queue: Seq<MarkupNode>) {
    if queue.len() > 0 {
        lemma_nodes_size_first(queue);
        match queue[0] {
            MarkupNode::Container(inner) => {
                lemma_nodes_size_concat(queue.skip(1), inner@);
            },
            _ => {},
        }
    }
}

/// The targets of the links and redirects of a parsed page, level by level.
pub fn filter_links(nodes: Vec<MarkupNode>) -> (links: Vec<String>)
    ensures
        views(links@) == targets_of(nodes@),
{
    let ghost all = nodes@;
    let mut queue: VecDeque<MarkupNode> = VecDeque::new();
    for node in it: nodes
        invariant
            it.seq() == all,
            queue@ == all.take(it.index()),
    {
        queue.push_back(node);
    }
    assert(all.take(all.len() as int) == all);
    let mut links: Vec<String> = Vec::new();
    assert(views(links@) + targets_of(queue@) == targets_of(all));
    while queue.len() > 0
        invariant
            views(links@) + targets_of(queue@) == targets_of(all),
        decreases nodes_size(queue@),
    {
        let ghost before = queue@;
        let ghost found = links@;
        proof {
            lemma_nodes_size_first(before);
        }
        match queue.pop_front() {
            Some(MarkupNode::Target(target)) => {
                assert(queue@ == before.skip(1));
                links.push(target);
                assert(views(links@) == views(found) + seq![target@]);
            },
            Some(MarkupNode::Container(inner)) => {
                assert(queue@ == before.skip(1));
                proof {
                    lemma_nodes_size_concat(before.skip(1), inner@);
                }
                let ghost rest = queue@;
                for node in it: inner
                    invariant
                        it.seq() == inner@,
                        queue@ == rest + inner@.take(it.index()),
                {
                    queue.push_back(node);
                }
                assert(inner@.take(inner@.len() as int) == inner@);
            },
            Some(MarkupNode::Other) => {
                assert(queue@ == before.skip(1));
            },
            None => {},
        }
    }
    assert(views(links@) + Seq::<Seq<char>>::empty() == views(links@));
    links
}

} // verus!
