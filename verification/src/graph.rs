//! The adjacency-list graph and its construction and edge insertion.

use crate::error::{BoundsError, ErrorKind};
use vstd::prelude::*;
use vstd::std_specs::iter::IteratorSpec;

verus! {

/// The successor lists of a graph, one per node, in node order.
pub type Adjacency = Seq<Seq<usize>>;

/// Every stored successor names a node of the graph.
pub open spec fn closed_under_successors(g: Adjacency) -> bool {
    forall|n: int, k: int|
        0 <= n < g.len() && 0 <= k < g[n].len() ==> (#[trigger] g[n][k]) < g.len()
}

/// The graph of `size` nodes without edges.
pub open spec fn empty_graph(size: nat) -> Adjacency {
    Seq::new(size, |n: int| Seq::<usize>::empty())
}

/// Both ends of the edge are nodes of a graph of `size` nodes.
pub open spec fn edge_fits(size: nat, n1: usize, n2: usize) -> bool {
    n1 < size && n2 < size
}

/// The larger of two node indices.
pub open spec fn larger(n1: usize, n2: usize) -> usize {
    if n1 >= n2 {
        n1
    } else {
        n2
    }
}

/// `g` with `n2` appended to the successors of `n1`.
pub open spec fn with_edge(g: Adjacency, n1: usize, n2: usize) -> Adjacency {
    g.update(n1 as int, g[n1 as int].push(n2))
}

/// The successors of node `n` in the complete graph of `size` nodes: every
/// node but `n`, in ascending order.
pub open spec fn all_but(size: nat, n: int) -> Seq<usize> {
    Seq::new(
        (size - 1) as nat,
        |k: int|
            if k < n {
                k as usize
            } else {
                (k + 1) as usize
            },
    )
}

/// The graph of `size` nodes in which every node points to every other node.
pub open spec fn complete_graph(size: nat) -> Adjacency {
    Seq::new(size, |n: int| all_but(size, n))
}

/// In the complete graph a node's successors are exactly the other nodes, in
/// ascending order, so each of them is a node.
pub proof fn lemma_complete_graph(size: nat)
    requires
        size <= usize::MAX,
    ensures
        complete_graph(size).len() == size,
        forall|n: int| 0 <= n < size ==> (#[trigger] complete_graph(size)[n]).len() == size - 1,
        forall|n: int, v: usize|
            0 <= n < size ==> (#[trigger] complete_graph(size)[n].contains(v) <==> v < size && v
                != n),
        forall|n: int, i: int, j: int|
            0 <= n < size && 0 <= i < j < size - 1 ==> (#[trigger] complete_graph(size)[n][i]) < (
            #[trigger] complete_graph(size)[n][j]),
        closed_under_successors(complete_graph(size)),
{
    let g = complete_graph(size);
    assert forall|n: int, v: usize| 0 <= n < size implies (#[trigger] g[n].contains(v) <==> v
        < size && v != n) by {
        let row = g[n];
        if v < size && v != n {
            if v < n {
                assert(row[v as int] == v);
            } else {
                assert(row[v - 1] == v);
            }
        }
    }
}

/// `g` after the edges were added one after the other.
pub open spec fn with_edges(g: Adjacency, edges: Seq<(usize, usize)>) -> Adjacency
    decreases edges.len(),
{
    if edges.len() == 0 {
        g
    } else {
        with_edge(with_edges(g, edges.drop_last()), edges.last().0, edges.last().1)
    }
}

/// How many edges at the front of `edges` fit a graph of `size` nodes, up to the
/// first that does not.
pub open spec fn fitting_prefix(size: nat, edges: Seq<(usize, usize)>) -> nat
    decreases edges.len(),
{
    if edges.len() == 0 || !edge_fits(size, edges[0].0, edges[0].1) {
        0
    } else {
        1 + fitting_prefix(size, edges.drop_first())
    }
}

/// The edges before `fitting_prefix` fit, and the edge at it, if there is one,
/// does not.
pub proof fn lemma_fitting_prefix(size: nat, edges: Seq<(usize, usize)>)
    ensures
        fitting_prefix(size, edges) <= edges.len(),
        forall|i: int|
            0 <= i < fitting_prefix(size, edges) ==> edge_fits(
                size,
                (#[trigger] edges[i]).0,
                edges[i].1,
            ),
        fitting_prefix(size, edges) < edges.len() ==> !edge_fits(
            size,
            edges[fitting_prefix(size, edges) as int].0,
            edges[fitting_prefix(size, edges) as int].1,
        ),
    decreases edges.len(),
{
    if edges.len() > 0 && edge_fits(size, edges[0].0, edges[0].1) {
        let rest = edges.drop_first();
        lemma_fitting_prefix(size, rest);
        assert forall|i: int| 0 <= i < fitting_prefix(size, edges) implies edge_fits(
            size,
            (#[trigger] edges[i]).0,
            edges[i].1,
        ) by {
            if i > 0 {
                assert(edges[i] == rest[i - 1]);
            }
        }
    }
}

/// The error that the edge `(n1, n2)` meets in a graph of `size` nodes that
/// it does not fit.
pub open spec fn misfit(size: nat, n1: usize, n2: usize) -> BoundsError {
    BoundsError { index: larger(n1, n2), size: size as usize }
}

/// The item is an edge, and the edge fits a graph of `size` nodes.
pub open spec fn item_applies<E>(size: nat, item: Result<(usize, usize), E>) -> bool {
    match item {
        Ok(edge) => edge_fits(size, edge.0, edge.1),
        Err(_) => false,
    }
}

/// How many items at the front of `items` are edges that fit a graph of `size`
/// nodes, up to the first that is not.
pub open spec fn applied_prefix<E>(size: nat, items: Seq<Result<(usize, usize), E>>) -> nat
    decreases items.len(),
{
    if items.len() == 0 || !item_applies(size, items[0]) {
        0
    } else {
        1 + applied_prefix(size, items.drop_first())
    }
}

/// The items before `applied_prefix` apply, and the item at it, if there is
/// one, does not.
pub proof fn lemma_applied_prefix<E>(size: nat, items: Seq<Result<(usize, usize), E>>)
    ensures
        applied_prefix(size, items) <= items.len(),
        forall|i: int|
            0 <= i < applied_prefix(size, items) ==> item_applies(size, #[trigger] items[i]),
        applied_prefix(size, items) < items.len() ==> !item_applies(
            size,
            items[applied_prefix(size, items) as int],
        ),
    decreases items.len(),
{
    if items.len() > 0 && item_applies(size, items[0]) {
        let rest = items.drop_first();
        lemma_applied_prefix(size, rest);
        assert forall|i: int| 0 <= i < applied_prefix(size, items) implies item_applies(
            size,
            #[trigger] items[i],
        ) by {
            if i > 0 {
                assert(items[i] == rest[i - 1]);
            }
        }
    }
}

/// The edge that an item holds; for an item that holds none, `(0, 0)`.
pub open spec fn item_edge<E>(item: Result<(usize, usize), E>) -> (usize, usize) {
    match item {
        Ok(edge) => edge,
        Err(_) => (0, 0),
    }
}

/// The edges that the items hold, in order.
pub open spec fn item_edges<E>(items: Seq<Result<(usize, usize), E>>) -> Seq<(usize, usize)> {
    Seq::new(items.len(), |i: int| item_edge(items[i]))
}

/// The error that stops a bulk insertion at an item that does not apply: the
/// item's own error, or the bounds error of its edge.
pub open spec fn item_refusal(size: nat, item: Result<(usize, usize), ErrorKind>) -> ErrorKind {
    match item {
        Ok(edge) => ErrorKind::BoundsError(misfit(size, edge.0, edge.1)),
        Err(error) => error,
    }
}

/// A directed graph over the nodes `0..size`, stored as one successor list per
/// node. The number of nodes is fixed when the graph is made. An edge may be
/// present several times, and each list keeps the order of insertion.
pub struct Graph {
    nodes: Vec<Vec<usize>>,
}

impl View for Graph {
    type V = Adjacency;

    closed spec fn view(&self) -> Adjacency {
        Seq::new(self.nodes@.len(), |n: int| self.nodes@[n]@)
    }
}

/// Appends `n2` to row `n1` and leaves the other rows alone.
fn push_successor(rows: &mut Vec<Vec<usize>>, n1: usize, n2: usize)
    requires
        n1 < old(rows)@.len(),
    ensures
        final(rows)@.len() == old(rows)@.len(),
        final(rows)@[n1 as int]@ == old(rows)@[n1 as int]@.push(n2),
        forall|n: int| 0 <= n < old(rows)@.len() && n != n1 ==> final(rows)@[n] == old(rows)@[n],
{
    rows[n1].push(n2);
}

impl Graph {
    #[verifier::type_invariant]
    spec fn inv(&self) -> bool {
        closed_under_successors(self@)
    }

    /// A graph of `size` nodes and no edges.
    pub fn new(size: usize) -> (g: Graph)
        ensures
            g@ == empty_graph(size as nat),
            g@.len() == size,
            forall|n: int| 0 <= n < size ==> (#[trigger] g@[n]).len() == 0,
            closed_under_successors(g@),
    {
        let mut nodes: Vec<Vec<usize>> = Vec::new();
        let mut n: usize = 0;
        while n < size
            invariant
                n <= size,
                nodes@.len() == n,
                forall|i: int| 0 <= i < n ==> (#[trigger] nodes@[i])@ == Seq::<usize>::empty(),
            decreases size - n,
        {
            nodes.push(Vec::new());
            n = n + 1;
        }
        Graph { nodes }
    }

    /// The graph of `size` nodes in which every node has every other node as
    /// a successor, in ascending order, and no node has itself.
    pub fn fully_connected(size: usize) -> (g: Graph)
        ensures
            g@ == complete_graph(size as nat),
            g@.len() == size,
            forall|n: int| 0 <= n < size ==> (#[trigger] g@[n]).len() == size - 1,
            forall|n: int, v: usize|
                0 <= n < size ==> (#[trigger] g@[n].contains(v) <==> v < size && v != n),
            forall|n: int, i: int, j: int|
                0 <= n < size && 0 <= i < j < size - 1 ==> (#[trigger] g@[n][i]) < (
                #[trigger] g@[n][j]),
            closed_under_successors(g@),
    {
        let mut nodes: Vec<Vec<usize>> = Vec::new();
        let mut n: usize = 0;
        while n < size
            invariant
                n <= size,
                nodes@.len() == n,
                forall|m: int| 0 <= m < n ==> (#[trigger] nodes@[m])@ == all_but(size as nat, m),
            decreases size - n,
        {
            let mut row: Vec<usize> = Vec::new();
            let mut i: usize = 0;
            while i < size
                invariant
                    n < size,
                    i <= size,
                    row@.len() == if i <= n {
                        i as int
                    } else {
                        i - 1
                    },
                    forall|k: int|
                        0 <= k < row@.len() ==> (#[trigger] row@[k]) == all_but(
                            size as nat,
                            n as int,
                        )[k],
                decreases size - i,
            {
                if i != n {
                    row.push(i);
                }
                i = i + 1;
            }
            nodes.push(row);
            n = n + 1;
        }
        let ghost rows = Seq::new(nodes@.len(), |n: int| nodes@[n]@);
        proof {
            assert(rows =~= complete_graph(size as nat));
            lemma_complete_graph(size as nat);
        }
        Graph { nodes }
    }

    /// The number of nodes.
    pub fn size(&self) -> (n: usize)
        ensures
            n == self@.len(),
    {
        self.nodes.len()
    }

    /// The successor lists as stored, one per node.
    pub fn nodes(&self) -> (rows: &Vec<Vec<usize>>)
        ensures
            rows@.len() == self@.len(),
            forall|n: int| 0 <= n < rows@.len() ==> (#[trigger] rows@[n])@ == self@[n],
            closed_under_successors(self@),
    {
        proof {
            use_type_invariant(self);
        }
        &self.nodes
    }

    /// Appends `n2` to the successors of `n1`. Refuses, and changes nothing,
    /// when either index is not a node; the error names the larger index.
    pub fn add_edge(&mut self, n1: usize, n2: usize) -> (r: Result<(), BoundsError>)
        ensures
            r is Err <==> larger(n1, n2) >= old(self)@.len(),
            r is Ok <==> edge_fits(old(self)@.len(), n1, n2),
            r is Ok ==> final(self)@ == with_edge(old(self)@, n1, n2),
            r is Ok ==> final(self)@[n1 as int] == old(self)@[n1 as int].push(n2),
            r is Ok ==> forall|n: int|
                0 <= n < old(self)@.len() && n != n1 ==> final(self)@[n] == old(self)@[n],
            r is Err ==> final(self)@ == old(self)@,
            r is Err ==> r == Err::<(), BoundsError>(misfit(old(self)@.len(), n1, n2)),
            final(self)@.len() == old(self)@.len(),
            closed_under_successors(final(self)@),
    {
        proof {
            use_type_invariant(&*self);
        }
        let size = self.nodes.len();
        let index = if n1 >= n2 {
            n1
        } else {
            n2
        };
        if index >= size {
            Err(BoundsError { index, size })
        } else {
            // The rows leave the graph while one of them grows, so that the
            // graph is whole whenever it is looked at.
            let mut rows: Vec<Vec<usize>> = Vec::new();
            std::mem::swap(&mut self.nodes, &mut rows);
            push_successor(&mut rows, n1, n2);
            proof {
                let before = old(self)@;
                let after = Seq::new(rows@.len(), |n: int| rows@[n]@);
                assert forall|n: int, k: int|
                    0 <= n < after.len() && 0 <= k < after[n].len() implies (#[trigger] after[n][k])
                    < after.len() by {
                    if n != n1 || k < before[n].len() {
                        assert(after[n][k] == before[n][k]);
                    }
                }
            }
            std::mem::swap(&mut self.nodes, &mut rows);
            Ok(())
        }
    }

    /// Adds the edges that `edges` yields, in order, until one does not fit.
    /// The edges before that one stay in the graph; the error is that of the
    /// first edge that does not fit.
    ///
    /// `edges` is any producer that is read once, front to back, and that ends:
    /// it yields finitely many items and then nothing more.
    pub fn add_edges(&mut self, edges: impl Iterator<Item = (usize, usize)>) -> (r: Result<
        (),
        BoundsError,
    >)
        requires
            edges.obeys_prophetic_iter_laws(),
            edges.decrease() is Some,
        ensures
            ({
                let size = old(self)@.len();
                let items = edges.remaining();
                let taken = fitting_prefix(size, items);
                &&& taken <= items.len()
                &&& forall|i: int|
                    0 <= i < taken ==> edge_fits(size, (#[trigger] items[i]).0, items[i].1)
                &&& taken < items.len() ==> !edge_fits(
                    size,
                    items[taken as int].0,
                    items[taken as int].1,
                )
                &&& final(self)@ == with_edges(old(self)@, items.take(taken as int))
                &&& taken == items.len() ==> r is Ok
                &&& taken < items.len() ==> r == Err::<(), BoundsError>(
                    misfit(size, items[taken as int].0, items[taken as int].1),
                )
            }),
            final(self)@.len() == old(self)@.len(),
            closed_under_successors(final(self)@),
    {
        let ghost size = self@.len();
        let ghost done: int = 0;
        let mut pending = edges;
        loop
            invariant
                pending.obeys_prophetic_iter_laws(),
                pending.decrease() is Some,
                size == old(self)@.len(),
                self@.len() == size,
                0 <= done <= edges.remaining().len(),
                pending.remaining() == edges.remaining().skip(done),
                self@ == with_edges(old(self)@, edges.remaining().take(done)),
                fitting_prefix(size, edges.remaining()) == done + fitting_prefix(
                    size,
                    pending.remaining(),
                ),
            decreases pending.decrease()->0,
        {
            match pending.next() {
                Some((n1, n2)) => {
                    match self.add_edge(n1, n2) {
                        Ok(()) => {
                            proof {
                                let items = edges.remaining();
                                assert(items.take(done + 1).drop_last() =~= items.take(done));
                                done = done + 1;
                            }
                        },
                        Err(error) => {
                            proof {
                                use_type_invariant(&*self);
                                lemma_fitting_prefix(size, edges.remaining());
                            }
                            return Err(error);
                        },
                    }
                },
                None => {
                    proof {
                        use_type_invariant(&*self);
                        lemma_fitting_prefix(size, edges.remaining());
                    }
                    return Ok(());
                },
            }
        }
    }

    /// Adds the edges that `edges` yields, in order, until an item is an
    /// error or holds an edge that does not fit. The edges before that item
    /// stay in the graph; the error is the item's own, or the bounds error of
    /// its edge.
    ///
    /// `edges` is any producer that is read once, front to back, and that ends:
    /// it yields finitely many items and then nothing more.
    pub fn add_falliable_edges(
        &mut self,
        edges: impl Iterator<Item = Result<(usize, usize), ErrorKind>>,
    ) -> (r: Result<(), ErrorKind>)
        requires
            edges.obeys_prophetic_iter_laws(),
            edges.decrease() is Some,
        ensures
            ({
                let size = old(self)@.len();
                let items = edges.remaining();
                let taken = applied_prefix(size, items);
                &&& taken <= items.len()
                &&& forall|i: int| 0 <= i < taken ==> item_applies(size, #[trigger] items[i])
                &&& taken < items.len() ==> !item_applies(size, items[taken as int])
                &&& final(self)@ == with_edges(old(self)@, item_edges(items.take(taken as int)))
                &&& taken == items.len() ==> r is Ok
                &&& taken < items.len() ==> r == Err::<(), ErrorKind>(
                    item_refusal(size, items[taken as int]),
                )
            }),
            final(self)@.len() == old(self)@.len(),
            closed_under_successors(final(self)@),
    {
        let ghost size = self@.len();
        let ghost done: int = 0;
        let mut pending = edges;
        loop
            invariant
                pending.obeys_prophetic_iter_laws(),
                pending.decrease() is Some,
                size == old(self)@.len(),
                self@.len() == size,
                0 <= done <= edges.remaining().len(),
                pending.remaining() == edges.remaining().skip(done),
                self@ == with_edges(old(self)@, item_edges(edges.remaining().take(done))),
                applied_prefix(size, edges.remaining()) == done + applied_prefix(
                    size,
                    pending.remaining(),
                ),
            decreases pending.decrease()->0,
        {
            match pending.next() {
                Some(Ok((n1, n2))) => {
                    match self.add_edge(n1, n2) {
                        Ok(()) => {
                            proof {
                                let items = edges.remaining();
                                assert(item_edges(items.take(done + 1)).drop_last() =~= item_edges(
                                    items.take(done),
                                ));
                                done = done + 1;
                            }
                        },
                        Err(error) => {
                            proof {
                                use_type_invariant(&*self);
                                lemma_applied_prefix(size, edges.remaining());
                            }
                            return Err(ErrorKind::BoundsError(error));
                        },
                    }
                },
                Some(Err(error)) => {
                    proof {
                        use_type_invariant(&*self);
                        lemma_applied_prefix(size, edges.remaining());
                    }
                    return Err(error);
                },
                None => {
                    proof {
                        use_type_invariant(&*self);
                        lemma_applied_prefix(size, edges.remaining());
                    }
                    return Ok(());
                },
            }
        }
    }
}

} // verus!
