use vstd::prelude::*;

verus! {

/// Number of times `x` occurs in `s`.
pub open spec fn occurrences(s: Seq<usize>, x: usize) -> nat
    decreases s.len(),
{
    if s.len() == 0 {
        0
    } else {
        occurrences(s.drop_last(), x) + if s.last() == x { 1nat } else { 0nat }
    }
}

/// Interface of an undirected hypergraph whose nodes and hyperedges carry data and are
/// identified by their index (in order of insertion).
pub trait Hypergraph<NodeData, HyperedgeData>: Sized {
    /// The internal bookkeeping is consistent.
    spec fn wf(&self) -> bool;

    /// Number of nodes.
    spec fn node_count(&self) -> nat;

    /// Number of hyperedges.
    spec fn hyperedge_count(&self) -> nat;

    /// Creates an empty hypergraph.
    fn new() -> (graph: Self)
        ensures
            graph.wf(),
            graph.node_count() == 0,
            graph.hyperedge_count() == 0,
    ;

    /// Creates an empty hypergraph with reserved capacity.
    fn with_capacity(node_capacity: usize, hyperedge_capacity: usize) -> (graph: Self)
        ensures
            graph.wf(),
            graph.node_count() == 0,
            graph.hyperedge_count() == 0,
    ;

    /// Creates a hypergraph with one node per entry of `node_data` and no hyperedges.
    fn from_node_data(node_data: Vec<NodeData>, hyperedge_capacity: usize) -> (graph: Self)
        ensures
            graph.wf(),
            graph.node_count() == node_data@.len(),
            graph.hyperedge_count() == 0,
    ;

    /// Number of nodes.
    fn num_nodes(&self) -> (n: usize)
        ensures
            n == self.node_count(),
    ;

    /// Number of hyperedges.
    fn num_hyperedges(&self) -> (n: usize)
        ensures
            n == self.hyperedge_count(),
    ;

    /// The nodes joined by a hyperedge.
    fn hyperedge_endpoints(&self, hyperedge_idx: usize) -> (endpoints: &Vec<usize>)
        requires
            hyperedge_idx < self.hyperedge_count(),
    ;

    /// The data of a node.
    fn node_data(&self, node_idx: usize) -> (data: &NodeData)
        requires
            node_idx < self.node_count(),
    ;

    /// The data of a hyperedge.
    fn hyperedge_data(&self, hyperedge_idx: usize) -> (data: &HyperedgeData)
        requires
            hyperedge_idx < self.hyperedge_count(),
    ;

    /// A mutable reference to the data of a node.
    fn node_data_mut(&mut self, node_idx: usize) -> (data: &mut NodeData)
        requires
            old(self).wf(),
            node_idx < old(self).node_count(),
        ensures
            final(self).wf(),
            final(self).node_count() == old(self).node_count(),
            final(self).hyperedge_count() == old(self).hyperedge_count(),
    ;

    /// The data of a hyperedge (through a mutable borrow of the hypergraph).
    fn hyperedge_data_mut(&mut self, hyperedge_idx: usize) -> (data: &HyperedgeData)
        requires
            old(self).wf(),
            hyperedge_idx < old(self).hyperedge_count(),
        ensures
            final(self).wf(),
            final(self).node_count() == old(self).node_count(),
            final(self).hyperedge_count() == old(self).hyperedge_count(),
    ;

    /// Adds a node and returns its index.
    fn add_node(&mut self, node_data: NodeData) -> (node_idx: usize)
        requires
            old(self).wf(),
        ensures
            final(self).wf(),
            node_idx == old(self).node_count(),
            final(self).node_count() == old(self).node_count() + 1,
            final(self).hyperedge_count() == old(self).hyperedge_count(),
    ;

    /// Adds a hyperedge joining `endpoints` (which must be nodes) and returns its index.
    fn add_hyperedge(&mut self, endpoints: Vec<usize>, hyperedge_data: HyperedgeData) -> (hyperedge_idx: usize)
        requires
            old(self).wf(),
            forall|i: int| 0 <= i < endpoints@.len() ==> #[trigger] endpoints@[i] < old(self).node_count(),
        ensures
            final(self).wf(),
            hyperedge_idx == old(self).hyperedge_count(),
            final(self).node_count() == old(self).node_count(),
            final(self).hyperedge_count() == old(self).hyperedge_count() + 1,
    ;

    /// The indices of all nodes.
    fn iter_node_indices(&self) -> (range: std::ops::Range<usize>)
        ensures
            range.start == 0,
            range.end == self.node_count(),
    ;

    /// The indices of all hyperedges.
    fn iter_hyperedge_indices(&self) -> (range: std::ops::Range<usize>)
        ensures
            range.start == 0,
            range.end == self.hyperedge_count(),
    ;

    /// The indices of the hyperedges incident to a node.
    fn iter_incident_hyperedge_indices(&self, node_idx: usize) -> (hyperedges: &[usize])
        requires
            self.wf(),
            node_idx < self.node_count(),
        ensures
            forall|i: int| 0 <= i < hyperedges@.len() ==> #[trigger] hyperedges@[i] < self.hyperedge_count(),
    ;
}

/// A node: its data and the hyperedges incident to it.
pub struct Node<NodeData, HyperedgeIndex> {
    data: NodeData,
    adjacent_hyperedges: Vec<HyperedgeIndex>,
}

/// A hyperedge: its data and the nodes it joins.
pub struct Hyperedge<HyperedgeData, NodeIndex> {
    data: HyperedgeData,
    endpoints: Vec<NodeIndex>,
}

/// An undirected hypergraph stored as lists of nodes and hyperedges; each node also lists its
/// incident hyperedges, in order of insertion, once per occurrence of the node among the
/// hyperedge's endpoints.
pub struct UndirectedHypergraph<NodeData, HyperedgeData> {
    nodes: Vec<Node<NodeData, usize>>,
    hyperedges: Vec<Hyperedge<HyperedgeData, usize>>,
}

impl<NodeData, HyperedgeData> UndirectedHypergraph<NodeData, HyperedgeData> {
    /// The data of each node.
    pub closed spec fn nodes_data(&self) -> Seq<NodeData> {
        self.nodes@.map_values(|n: Node<NodeData, usize>| n.data)
    }

    /// The data of each hyperedge.
    pub closed spec fn hyperedges_data(&self) -> Seq<HyperedgeData> {
        self.hyperedges@.map_values(|h: Hyperedge<HyperedgeData, usize>| h.data)
    }

    /// The endpoints of hyperedge `e`.
    pub closed spec fn endpoints(&self, e: int) -> Seq<usize> {
        self.hyperedges@[e].endpoints@
    }

    /// There is a datum for each node and for each hyperedge.
    pub proof fn lemma_data_counts(&self)
        ensures
            self.nodes_data().len() == self.node_count(),
            self.hyperedges_data().len() == self.hyperedge_count(),
    {
    }

    /// The incident hyperedges recorded for node `v`.
    pub closed spec fn incident(&self, v: int) -> Seq<usize> {
        self.nodes@[v].adjacent_hyperedges@
    }

    /// The incident hyperedges recorded for node `v` are exactly, in increasing order, each
    /// hyperedge `e` repeated once per occurrence of `v` among the endpoints of `e`,
    /// for the first `m` hyperedges.
    pub open spec fn incidence_upto(&self, v: usize, m: int) -> Seq<usize>
        decreases m,
    {
        if m <= 0 {
            Seq::empty()
        } else {
            self.incidence_upto(v, m - 1) + Seq::new(
                occurrences(self.endpoints(m - 1), v),
                |k: int| (m - 1) as usize,
            )
        }
    }
}

impl<NodeData, HyperedgeData> UndirectedHypergraph<NodeData, HyperedgeData> {
    /// A hyperedge is recorded as incident to a node exactly when the node is one of its
    /// endpoints.
    pub proof fn lemma_incident_iff_endpoint(&self, v: usize, e: usize)
        requires
            self.wf(),
            v < self.node_count(),
            e < self.hyperedge_count(),
        ensures
            self.incident(v as int).contains(e) <==> self.endpoints(e as int).contains(v),
    {
        assert(self.hyperedges.len() == self.hyperedges@.len());
        lemma_incidence_upto_contains(self, v, e, self.hyperedge_count() as int);
    }
}

proof fn lemma_occurrences_contains(s: Seq<usize>, x: usize)
    ensures
        occurrences(s, x) > 0 <==> s.contains(x),
    decreases s.len(),
{
    if s.len() > 0 {
        lemma_occurrences_contains(s.drop_last(), x);
        if s.drop_last().contains(x) {
            let i = choose|i: int| 0 <= i < s.drop_last().len() && s.drop_last()[i] == x;
            assert(s[i] == x);
        }
        if s.contains(x) && s.last() != x {
            let i = choose|i: int| 0 <= i < s.len() && s[i] == x;
            assert(s.drop_last()[i] == x);
        }
    }
}

proof fn lemma_incidence_upto_contains<NodeData, HyperedgeData>(
    graph: &UndirectedHypergraph<NodeData, HyperedgeData>,
    v: usize,
    e: usize,
    m: int,
)
    requires
        0 <= m <= usize::MAX,
    ensures
        graph.incidence_upto(v, m).contains(e) <==> (e < m && graph.endpoints(e as int).contains(v)),
    decreases m,
{
    if m > 0 {
        lemma_incidence_upto_contains(graph, v, e, m - 1);
        let before = graph.incidence_upto(v, m - 1);
        let added = Seq::new(occurrences(graph.endpoints(m - 1), v), |k: int| (m - 1) as usize);
        lemma_occurrences_contains(graph.endpoints(m - 1), v);
        let all = before + added;
        assert(graph.incidence_upto(v, m) == all);
        if all.contains(e) {
            let i = choose|i: int| 0 <= i < all.len() && all[i] == e;
            if i >= before.len() {
                assert(added[i - before.len()] == e);
                assert(e as int == m - 1);
                assert(added.len() > 0);
            } else {
                assert(before[i] == e);
            }
        }
        if e < m && graph.endpoints(e as int).contains(v) {
            if e == m - 1 {
                assert(all[before.len() as int] == e);
            } else {
                let i = choose|i: int| 0 <= i < before.len() && before[i] == e;
                assert(all[i] == e);
            }
        }
    }
}

impl<NodeData, HyperedgeData> Hypergraph<NodeData, HyperedgeData> for UndirectedHypergraph<
    NodeData,
    HyperedgeData,
> {
    /// Every endpoint is a node, and each node lists its incident hyperedges.
    closed spec fn wf(&self) -> bool {
        &&& forall|e: int, i: int|
            0 <= e < self.hyperedges@.len() && 0 <= i < self.endpoints(e).len() ==> #[trigger] self.endpoints(e)[i]
                < self.nodes@.len()
        &&& forall|v: usize|
            v < self.nodes@.len() ==> #[trigger] self.incident(v as int) == self.incidence_upto(
                v,
                self.hyperedges@.len() as int,
            )
    }

    closed spec fn node_count(&self) -> nat {
        self.nodes@.len()
    }

    closed spec fn hyperedge_count(&self) -> nat {
        self.hyperedges@.len()
    }

    fn new() -> (graph: Self) {
        UndirectedHypergraph { nodes: Vec::new(), hyperedges: Vec::new() }
    }

    fn with_capacity(node_capacity: usize, hyperedge_capacity: usize) -> (graph: Self) {
        UndirectedHypergraph {
            nodes: Vec::with_capacity(node_capacity),
            hyperedges: Vec::with_capacity(hyperedge_capacity),
        }
    }

    fn from_node_data(node_data: Vec<NodeData>, hyperedge_capacity: usize) -> (graph: Self)
        ensures
            graph.nodes_data() == node_data@,
    {
        let ghost data = node_data@;
        let mut nodes: Vec<Node<NodeData, usize>> = Vec::new();
        for d in it: node_data
            invariant
                data == it.seq(),
                nodes@.len() == it.index(),
                forall|i: int| 0 <= i < it.index() ==> (#[trigger] nodes@[i]).data == data[i]
                    && nodes@[i].adjacent_hyperedges@ == Seq::<usize>::empty(),
        {
            nodes.push(Node { data: d, adjacent_hyperedges: Vec::new() });
        }
        let graph = UndirectedHypergraph { nodes, hyperedges: Vec::with_capacity(hyperedge_capacity) };
        assert(graph.nodes_data() =~= data);
        graph
    }

    fn num_nodes(&self) -> (n: usize) {
        self.nodes.len()
    }

    fn num_hyperedges(&self) -> (n: usize) {
        self.hyperedges.len()
    }

    fn hyperedge_endpoints(&self, hyperedge_idx: usize) -> (endpoints: &Vec<usize>)
        ensures
            endpoints@ == self.endpoints(hyperedge_idx as int),
    {
        &self.hyperedges[hyperedge_idx].endpoints
    }

    fn node_data(&self, node_idx: usize) -> (data: &NodeData)
        ensures
            *data == self.nodes_data()[node_idx as int],
    {
        &self.nodes[node_idx].data
    }

    fn hyperedge_data(&self, hyperedge_idx: usize) -> (data: &HyperedgeData)
        ensures
            *data == self.hyperedges_data()[hyperedge_idx as int],
    {
        &self.hyperedges[hyperedge_idx].data
    }

    fn node_data_mut(&mut self, node_idx: usize) -> (data: &mut NodeData)
        ensures
            *data == old(self).nodes_data()[node_idx as int],
            final(self).nodes_data() == old(self).nodes_data().update(node_idx as int, *final(data)),
            final(self).hyperedges_data() == old(self).hyperedges_data(),
            forall|e: int| #[trigger] final(self).endpoints(e) == old(self).endpoints(e),
    {
        proof {
            let before = *self;
            assert forall|after: Self|
                #![trigger after.wf()]
                after.hyperedges == before.hyperedges && after.nodes@.len() == before.nodes@.len() && (forall|v: int|
                    0 <= v < before.nodes@.len() ==> (#[trigger] after.nodes@[v]).adjacent_hyperedges
                        == before.nodes@[v].adjacent_hyperedges) implies after.wf() by {
                let m = before.hyperedges@.len() as int;
                assert forall|e: int| 0 <= e < m implies #[trigger] before.endpoints(e) == after.endpoints(e) by {}
                assert forall|v: usize| v < after.nodes@.len() implies #[trigger] after.incident(v as int)
                    == after.incidence_upto(v, after.hyperedges@.len() as int) by {
                    lemma_incidence_upto_prefix(before, after, v, m);
                    assert(after.nodes@[v as int].adjacent_hyperedges == before.nodes@[v as int].adjacent_hyperedges);
                    assert(after.incident(v as int) == before.incident(v as int));
                    assert(before.incident(v as int) == before.incidence_upto(v, m));
                }
                assert forall|e: int, i: int|
                    0 <= e < after.hyperedges@.len() && 0 <= i < after.endpoints(e).len() implies #[trigger] after.endpoints(e)[i]
                        < after.nodes@.len() by {
                    assert(before.endpoints(e)[i] < before.nodes@.len());
                }
            }
        }
        &mut self.nodes[node_idx].data
    }

    fn hyperedge_data_mut(&mut self, hyperedge_idx: usize) -> (data: &HyperedgeData)
        ensures
            *data == old(self).hyperedges_data()[hyperedge_idx as int],
            *final(self) == *old(self),
    {
        &self.hyperedges[hyperedge_idx].data
    }

    fn add_node(&mut self, node_data: NodeData) -> (node_idx: usize)
        ensures
            final(self).nodes_data() == old(self).nodes_data().push(node_data),
            final(self).hyperedges_data() == old(self).hyperedges_data(),
            final(self).nodes_data().len() == final(self).node_count(),
            final(self).hyperedges_data().len() == final(self).hyperedge_count(),
            final(self).incident(node_idx as int) == Seq::<usize>::empty(),
    {
        let ghost before = *self;
        self.nodes.push(Node { data: node_data, adjacent_hyperedges: Vec::new() });
        let node_idx = self.num_nodes() - 1;
        proof {
            let v = node_idx;
            let m = self.hyperedges@.len() as int;
            assert(self.nodes_data() =~= before.nodes_data().push(node_data));
            assert forall|e: int| 0 <= e < m implies #[trigger] occurrences(self.endpoints(e), v) == 0 by {
                assert forall|i: int| 0 <= i < self.endpoints(e).len() implies #[trigger] self.endpoints(e)[i] < v by {
                    assert(before.endpoints(e)[i] < before.nodes@.len());
                }
                lemma_occurrences_absent(self.endpoints(e), v);
            }
            lemma_incidence_absent(*self, v, m);
            assert(self.incident(v as int) =~= Seq::<usize>::empty());
            assert forall|e: int| 0 <= e < m implies #[trigger] before.endpoints(e) == self.endpoints(e) by {}
            assert forall|w: usize| w < self.nodes@.len() implies #[trigger] self.incident(w as int)
                == self.incidence_upto(w, m) by {
                if w < v {
                    assert(before.incident(w as int) == before.incidence_upto(w, m));
                    lemma_incidence_upto_prefix(before, *self, w, m);
                    assert(self.nodes@[w as int] == before.nodes@[w as int]);
                }
            }
            assert forall|e: int, i: int|
                0 <= e < self.hyperedges@.len() && 0 <= i < self.endpoints(e).len() implies #[trigger] self.endpoints(e)[i]
                    < self.nodes@.len() by {
                assert(before.endpoints(e)[i] < before.nodes@.len());
            }
        }
        node_idx
    }

    fn add_hyperedge(&mut self, endpoints: Vec<usize>, hyperedge_data: HyperedgeData) -> (hyperedge_idx: usize)
        ensures
            final(self).nodes_data() == old(self).nodes_data(),
            final(self).hyperedges_data() == old(self).hyperedges_data().push(hyperedge_data),
            final(self).nodes_data().len() == final(self).node_count(),
            final(self).hyperedges_data().len() == final(self).hyperedge_count(),
            final(self).hyperedges_data()[hyperedge_idx as int] == hyperedge_data,
            final(self).endpoints(hyperedge_idx as int) == endpoints@,
            forall|e: int| 0 <= e < old(self).hyperedge_count() ==> #[trigger] final(self).endpoints(e)
                == old(self).endpoints(e),
            forall|v: usize|
                v < final(self).node_count() ==> #[trigger] final(self).incident(v as int) == old(self).incident(
                    v as int,
                ) + Seq::new(occurrences(endpoints@, v), |k: int| hyperedge_idx),
    {
        let new_hyperedge_index = self.num_hyperedges();
        let ghost before = *self;
        let ghost endpoints_view = endpoints@;
        let mut i: usize = 0;
        while i < endpoints.len()
            invariant
                0 <= i <= endpoints@.len(),
                endpoints@ == endpoints_view,
                self.nodes@.len() == before.nodes@.len(),
                self.hyperedges == before.hyperedges,
                forall|j: int| 0 <= j < endpoints@.len() ==> #[trigger] endpoints@[j] < before.nodes@.len(),
                forall|v: int| 0 <= v < self.nodes@.len() ==> (#[trigger] self.nodes@[v]).data == before.nodes@[v].data,
                forall|v: usize|
                    v < self.nodes@.len() ==> #[trigger] self.incident(v as int) == before.incident(v as int)
                        + Seq::new(occurrences(endpoints@.take(i as int), v), |k: int| new_hyperedge_index),
            decreases endpoints@.len() - i,
        {
            let node = endpoints[i];
            let ghost prev = *self;
            self.nodes[node].adjacent_hyperedges.push(new_hyperedge_index);
            proof {
                assert(endpoints@.take(i + 1).drop_last() =~= endpoints@.take(i as int));
                assert(endpoints@.take(i + 1).last() == node);
                assert forall|v: int| 0 <= v < self.nodes@.len() implies (#[trigger] self.nodes@[v]).data
                    == before.nodes@[v].data by {
                    if v != node {
                        assert(self.nodes@[v] == prev.nodes@[v]);
                    }
                }
                assert forall|v: usize| v < self.nodes@.len() implies #[trigger] self.incident(v as int)
                    == before.incident(v as int) + Seq::new(
                    occurrences(endpoints@.take(i + 1), v),
                    |k: int| new_hyperedge_index,
                ) by {
                    let c = occurrences(endpoints@.take(i as int), v);
                    assert(prev.incident(v as int) == before.incident(v as int) + Seq::new(
                        c,
                        |k: int| new_hyperedge_index,
                    ));
                    if v == node {
                        assert(occurrences(endpoints@.take(i + 1), v) == c + 1);
                        assert(self.incident(v as int) == prev.incident(v as int).push(new_hyperedge_index));
                        assert(self.incident(v as int) =~= before.incident(v as int) + Seq::new(
                            occurrences(endpoints@.take(i + 1), v),
                            |k: int| new_hyperedge_index,
                        ));
                    } else {
                        assert(occurrences(endpoints@.take(i + 1), v) == c);
                        assert(self.nodes@[v as int] == prev.nodes@[v as int]);
                    }
                }
            }
            i = i + 1;
        }
        let ghost after_loop = *self;
        assert(endpoints_view.take(i as int) =~= endpoints_view);
        self.hyperedges.push(Hyperedge { data: hyperedge_data, endpoints: endpoints });
        assert(self.nodes == after_loop.nodes);
        proof {
            assert(endpoints@.take(endpoints@.len() as int) =~= endpoints@);
            assert(self.nodes_data() =~= before.nodes_data());
            assert(self.hyperedges_data() =~= before.hyperedges_data().push(hyperedge_data));
            let m = before.hyperedges@.len() as int;
            assert forall|e: int| 0 <= e < m implies #[trigger] before.endpoints(e) == self.endpoints(e) by {
                assert(self.hyperedges@[e] == before.hyperedges@[e]);
            }
            assert(self.endpoints(m) == endpoints_view);
            assert forall|v: usize| v < self.nodes@.len() implies #[trigger] self.incident(v as int)
                == self.incidence_upto(v, self.hyperedges@.len() as int) by {
                lemma_incidence_upto_prefix(before, *self, v, m);
                assert(before.incident(v as int) == before.incidence_upto(v, m));
                assert(after_loop.incident(v as int) == before.incident(v as int) + Seq::new(
                    occurrences(endpoints_view, v),
                    |k: int| new_hyperedge_index,
                ));
                assert(self.incident(v as int) == after_loop.incident(v as int));
                assert(self.incident(v as int) =~= self.incidence_upto(v, m + 1));
            }
            assert forall|e: int, i: int|
                0 <= e < self.hyperedges@.len() && 0 <= i < self.endpoints(e).len() implies #[trigger] self.endpoints(e)[i]
                    < self.nodes@.len() by {
                if e < m {
                    assert(self.endpoints(e) == before.endpoints(e));
                }
            }
        }
        proof {
            assert forall|v: usize| v < self.nodes@.len() implies #[trigger] self.incident(v as int)
                == before.incident(v as int) + Seq::new(occurrences(endpoints_view, v), |k: int| new_hyperedge_index) by {
                assert(after_loop.incident(v as int) == before.incident(v as int) + Seq::new(
                    occurrences(endpoints_view, v),
                    |k: int| new_hyperedge_index,
                ));
                assert(self.incident(v as int) == after_loop.incident(v as int));
            }
        }
        new_hyperedge_index
    }

    fn iter_node_indices(&self) -> (range: std::ops::Range<usize>) {
        0..self.num_nodes()
    }

    fn iter_hyperedge_indices(&self) -> (range: std::ops::Range<usize>) {
        0..self.num_hyperedges()
    }

    fn iter_incident_hyperedge_indices(&self, node_idx: usize) -> (hyperedges: &[usize])
        ensures
            hyperedges@ == self.incident(node_idx as int),
    {
        proof {
            lemma_incidence_bound(*self, node_idx, self.hyperedges@.len() as int);
            assert(self.incident(node_idx as int) == self.incidence_upto(node_idx, self.hyperedges@.len() as int));
        }
        self.nodes[node_idx].adjacent_hyperedges.as_slice()
    }
}

/// The incidence lists up to hyperedge `m` depend only on the endpoints of the first `m` hyperedges.
proof fn lemma_incidence_upto_prefix<N, H>(
    g1: UndirectedHypergraph<N, H>,
    g2: UndirectedHypergraph<N, H>,
    v: usize,
    m: int,
)
    requires
        forall|e: int| 0 <= e < m ==> #[trigger] g1.endpoints(e) == g2.endpoints(e),
    ensures
        g1.incidence_upto(v, m) == g2.incidence_upto(v, m),
    decreases m,
{
    if m > 0 {
        lemma_incidence_upto_prefix(g1, g2, v, m - 1);
        assert(g1.endpoints(m - 1) == g2.endpoints(m - 1));
    }
}

/// Every hyperedge listed in the incidence lists up to hyperedge `m` is below `m`.
proof fn lemma_incidence_bound<N, H>(g: UndirectedHypergraph<N, H>, v: usize, m: int)
    ensures
        forall|i: int| 0 <= i < g.incidence_upto(v, m).len() ==> #[trigger] g.incidence_upto(v, m)[i] < m,
    decreases m,
{
    if m > 0 {
        lemma_incidence_bound(g, v, m - 1);
        let a = g.incidence_upto(v, m - 1);
        let b = Seq::new(occurrences(g.endpoints(m - 1), v), |k: int| (m - 1) as usize);
        assert forall|i: int| 0 <= i < (a + b).len() implies #[trigger] (a + b)[i] < m by {
            if i >= a.len() {
                assert((a + b)[i] == b[i - a.len()]);
            }
        }
    }
}

/// A value that does not occur in a sequence has no occurrences.
proof fn lemma_occurrences_absent(s: Seq<usize>, x: usize)
    requires
        forall|i: int| 0 <= i < s.len() ==> #[trigger] s[i] < x,
    ensures
        occurrences(s, x) == 0,
    decreases s.len(),
{
    if s.len() > 0 {
        lemma_occurrences_absent(s.drop_last(), x);
    }
}

/// A node that is no endpoint of the first `m` hyperedges has no incident hyperedges among them.
proof fn lemma_incidence_absent<N, H>(g: UndirectedHypergraph<N, H>, v: usize, m: int)
    requires
        forall|e: int| 0 <= e < m ==> #[trigger] occurrences(g.endpoints(e), v) == 0,
    ensures
        g.incidence_upto(v, m) == Seq::<usize>::empty(),
    decreases m,
{
    if m > 0 {
        lemma_incidence_absent(g, v, m - 1);
        assert(occurrences(g.endpoints(m - 1), v) == 0);
        assert(g.incidence_upto(v, m) =~= Seq::<usize>::empty());
    }
}

} // verus!
