//! Hop counts from one node to every node it reaches, by breadth-first search.

use crate::graph::{closed_under_successors, Adjacency, Graph};
use std::collections::{HashMap, VecDeque};
use vstd::prelude::*;
use vstd::std_specs::hash::{group_hash_axioms, spec_hash_map_len};

verus! {

/// `u` is a node and `v` is among its successors.
pub open spec fn has_edge(g: Adjacency, u: usize, v: usize) -> bool {
    u < g.len() && g[u as int].contains(v)
}

/// There is an edge from position `i` of `w` to the next position.
pub open spec fn steps_at(g: Adjacency, w: Seq<usize>, i: int) -> bool {
    has_edge(g, w[i], w[i + 1])
}

/// `w` lists the nodes of a directed walk in `g`: at least one node, every
/// entry a node of `g`, and every entry but the last followed by one of its
/// successors. A walk of `w.len()` nodes takes `w.len() - 1` edges.
pub open spec fn is_walk(g: Adjacency, w: Seq<usize>) -> bool {
    &&& w.len() > 0
    &&& forall|i: int| 0 <= i < w.len() ==> (#[trigger] w[i]) < g.len()
    &&& forall|i: int| 0 <= i < w.len() - 1 ==> #[trigger] steps_at(g, w, i)
}

/// Some walk of exactly `hops` edges leads from `source` to `v`.
pub open spec fn reaches_in(g: Adjacency, source: usize, v: usize, hops: nat) -> bool {
    exists|w: Seq<usize>|
        #[trigger] is_walk(g, w) && w.first() == source && w.last() == v && w.len() == hops + 1
}

/// Some walk leads from `source` to `v`.
pub open spec fn reaches(g: Adjacency, source: usize, v: usize) -> bool {
    exists|hops: nat| reaches_in(g, source, v, hops)
}

/// `hops` is the number of edges of a shortest walk from `source` to `v`.
pub open spec fn is_distance(g: Adjacency, source: usize, v: usize, hops: nat) -> bool {
    &&& reaches_in(g, source, v, hops)
    &&& forall|fewer: nat| reaches_in(g, source, v, fewer) ==> hops <= fewer
}

/// Every successor of `v` has a label, at most one more than that of `v`.
spec fn settled(g: Adjacency, labels: Map<usize, usize>, v: usize) -> bool {
    forall|k: int|
        0 <= k < g[v as int].len() ==> labels.contains_key(#[trigger] g[v as int][k])
            && labels[g[v as int][k]] <= labels[v] + 1
}

/// Each label is the length of some walk from `source`, and the labels stay
/// below the number of labelled nodes.
spec fn labels_are_walks(g: Adjacency, source: usize, labels: Map<usize, usize>) -> bool {
    &&& labels.contains_key(source)
    &&& labels[source] == 0
    &&& forall|v: usize| #[trigger]
        labels.contains_key(v) ==> v < g.len() && reaches_in(g, source, v, labels[v] as nat)
            && labels[v] < labels.len()
}

/// The queue holds labelled nodes in the order of their labels.
spec fn queue_in_order(labels: Map<usize, usize>, queue: Seq<usize>) -> bool {
    &&& forall|i: int| 0 <= i < queue.len() ==> labels.contains_key(#[trigger] queue[i])
    &&& forall|i: int, j: int|
        0 <= i <= j < queue.len() ==> labels[#[trigger] queue[i]] <= labels[#[trigger] queue[j]]
}

/// A set of indices below `bound` has at most `bound` elements.
proof fn lemma_bounded_set_len(s: Set<usize>, bound: nat)
    requires
        s.finite(),
        forall|x: usize| s.contains(x) ==> x < bound,
    ensures
        s.len() <= bound,
    decreases bound,
{
    if bound == 0 {
        assert(s =~= Set::<usize>::empty());
    } else if bound - 1 > usize::MAX {
        lemma_bounded_set_len(s, (bound - 1) as nat);
    } else {
        let top = (bound - 1) as usize;
        lemma_bounded_set_len(s.remove(top), (bound - 1) as nat);
    }
}

/// Where every labelled node is settled and `source` has label 0, a walk from
/// `source` ends in a labelled node whose label is at most the walk's length.
proof fn lemma_labels_bound_walks(
    g: Adjacency,
    source: usize,
    labels: Map<usize, usize>,
    w: Seq<usize>,
)
    requires
        is_walk(g, w),
        w.first() == source,
        labels.contains_key(source),
        labels[source] == 0,
        forall|v: usize| #[trigger] labels.contains_key(v) ==> settled(g, labels, v),
    ensures
        labels.contains_key(w.last()),
        labels[w.last()] <= w.len() - 1,
    decreases w.len(),
{
    if w.len() > 1 {
        let shorter = w.drop_last();
        assert forall|i: int| 0 <= i < shorter.len() - 1 implies #[trigger] steps_at(
            g,
            shorter,
            i,
        ) by {
            assert(steps_at(g, w, i));
        }
        lemma_labels_bound_walks(g, source, labels, shorter);
        assert(steps_at(g, w, w.len() - 2));
    }
}

/// A walk that is extended by a successor of its last node is a walk.
proof fn lemma_walk_push(g: Adjacency, w: Seq<usize>, v: usize)
    requires
        is_walk(g, w),
        has_edge(g, w.last(), v),
        v < g.len(),
    ensures
        is_walk(g, w.push(v)),
{
    let longer = w.push(v);
    assert forall|i: int| 0 <= i < longer.len() - 1 implies #[trigger] steps_at(g, longer, i) by {
        if i < w.len() - 1 {
            assert(steps_at(g, w, i));
        }
    }
}

impl Graph {
    /// The number of edges of a shortest directed walk from `source` to every
    /// node that `source` reaches, `source` itself included with 0. A node that
    /// `source` does not reach has no entry.
    pub fn single_source_shortest_path_length(&self, source: usize) -> (lengths: HashMap<
        usize,
        usize,
    >)
        requires
            source < self@.len(),
        ensures
            forall|v: usize| lengths@.contains_key(v) <==> reaches(self@, source, v),
            forall|v: usize| #[trigger]
                lengths@.contains_key(v) ==> is_distance(self@, source, v, lengths@[v] as nat),
            lengths@.contains_key(source),
            lengths@[source] == 0,
    {
        broadcast use group_hash_axioms;

        let rows = self.nodes();
        let ghost g = self@;
        let mut queue: VecDeque<usize> = VecDeque::new();
        let mut lengths: HashMap<usize, usize> = HashMap::new();
        queue.push_back(source);
        lengths.insert(source, 0);
        proof {
            assert(is_walk(g, seq![source]));
            assert(queue@[0] == source);
            lemma_bounded_set_len(lengths@.dom(), g.len());
        }
        // Nodes leave the queue in the order of their labels, and the labels
        // in the queue differ by at most one. A labelled node that has left
        // the queue is settled, so that at the end every walk from `source`
        // stays among the labelled nodes and is no shorter than the label it
        // ends at. The nodes without a label and those in the queue bound the
        // work that is left.
        loop
            invariant
                g == self@,
                closed_under_successors(g),
                rows@.len() == g.len(),
                forall|n: int| 0 <= n < rows@.len() ==> (#[trigger] rows@[n])@ == g[n],
                labels_are_walks(g, source, lengths@),
                queue_in_order(lengths@, queue@),
                queue@.len() > 0 ==> forall|v: usize| #[trigger]
                    lengths@.contains_key(v) ==> lengths@[v] <= lengths@[queue@[0]] + 1,
                forall|v: usize| #[trigger]
                    lengths@.contains_key(v) ==> queue@.contains(v) || settled(g, lengths@, v),
                lengths@.len() <= g.len(),
            ensures
                queue@.len() == 0,
            decreases g.len() - lengths@.len() + queue@.len(),
        {
            let ghost earlier = queue@;
            let ghost budget = g.len() - lengths@.len() + queue@.len();
            let reached_node = match queue.pop_front() {
                Some(node) => node,
                None => {
                    break ;
                },
            };
            let ghost path_below = lengths@[reached_node];
            // A label is below the number of entries, which fits a `usize`.
            assert(lengths@.len() == spec_hash_map_len(&lengths));
            let path_length = *lengths.get(&reached_node).unwrap() + 1;
            let row = &rows[reached_node];
            proof {
                assert forall|v: usize| #[trigger] lengths@.contains_key(v) implies v
                    == reached_node || queue@.contains(v) || settled(g, lengths@, v) by {
                    if earlier.contains(v) {
                        let i = choose|i: int| 0 <= i < earlier.len() && earlier[i] == v;
                        if i > 0 {
                            assert(queue@[i - 1] == v);
                        }
                    }
                }
            }
            let mut k: usize = 0;
            while k < row.len()
                invariant
                    k <= row@.len(),
                    row@ == g[reached_node as int],
                    reached_node < g.len(),
                    closed_under_successors(g),
                    path_length == path_below + 1,
                    lengths@.contains_key(reached_node),
                    lengths@[reached_node] == path_below,
                    labels_are_walks(g, source, lengths@),
                    queue_in_order(lengths@, queue@),
                    forall|i: int|
                        0 <= i < queue@.len() ==> path_below <= lengths@[#[trigger] queue@[i]],
                    forall|v: usize| #[trigger]
                        lengths@.contains_key(v) ==> lengths@[v] <= path_below + 1,
                    forall|v: usize| #[trigger]
                        lengths@.contains_key(v) ==> v == reached_node || queue@.contains(v)
                            || settled(g, lengths@, v),
                    forall|j: int|
                        0 <= j < k ==> lengths@.contains_key(#[trigger] row@[j]) && lengths@[row@[j]]
                            <= path_below + 1,
                    lengths@.len() <= g.len(),
                    g.len() - lengths@.len() + queue@.len() == budget - 1,
                decreases row@.len() - k,
            {
                let reachable_node = row[k];
                if !lengths.contains_key(&reachable_node) {
                    let ghost queue_before = queue@;
                    lengths.insert(reachable_node, path_length);
                    queue.push_back(reachable_node);
                    proof {
                        let w = choose|w: Seq<usize>| #[trigger]
                            is_walk(g, w) && w.first() == source && w.last() == reached_node
                                && w.len() == path_below + 1;
                        lemma_walk_push(g, w, reachable_node);
                        lemma_bounded_set_len(lengths@.dom(), g.len());
                        assert forall|v: usize| #[trigger] lengths@.contains_key(v) implies v
                            == reached_node || queue@.contains(v) || settled(g, lengths@, v) by {
                            if v == reachable_node {
                                assert(queue@[queue@.len() - 1] == v);
                            } else if queue_before.contains(v) {
                                let i = choose|i: int|
                                    0 <= i < queue_before.len() && queue_before[i] == v;
                                assert(queue@[i] == v);
                            }
                        }
                    }
                }
                k = k + 1;
            }
        }
        proof {
            assert forall|v: usize| reaches(g, source, v) implies lengths@.contains_key(v) by {
                let hops = choose|hops: nat| reaches_in(g, source, v, hops);
                let w = choose|w: Seq<usize>| #[trigger]
                    is_walk(g, w) && w.first() == source && w.last() == v && w.len() == hops + 1;
                lemma_labels_bound_walks(g, source, lengths@, w);
            }
            assert forall|v: usize| #[trigger] lengths@.contains_key(v) implies is_distance(
                g,
                source,
                v,
                lengths@[v] as nat,
            ) by {
                assert forall|fewer: nat| reaches_in(g, source, v, fewer) implies lengths@[v]
                    <= fewer by {
                    let w = choose|w: Seq<usize>| #[trigger]
                        is_walk(g, w) && w.first() == source && w.last() == v && w.len() == fewer
                            + 1;
                    lemma_labels_bound_walks(g, source, lengths@, w);
                }
            }
        }
        lengths
    }
}

} // verus!
