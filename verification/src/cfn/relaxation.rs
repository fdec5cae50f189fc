use vstd::prelude::*;

use petgraph::graph::{DiGraph, EdgeIndex, NodeIndex};
use petgraph::visit::EdgeRef;
use petgraph::Direction;

use crate::cfn::cost_function_network::{CostFunctionNetwork, FactorOrigin, FactorScope};
use crate::messages::message_nd::{alignable, AlignmentIndexing};
use crate::messages::indexing::indexes;
use crate::cfn::cost_function_network::{domains_of, variables_difference};

verus! {

/// A directed graph of the `petgraph` crate (`DiGraph<FactorOrigin, AlignmentIndexing, usize>`)
/// whose nodes carry factor origins and whose edges carry alignments. Its fields are hidden
/// from the proofs; what it holds is given by [`graph_nodes`] and [`graph_edges`].
#[verifier::external_body]
pub struct RelaxationGraph {
    graph: DiGraph<FactorOrigin, AlignmentIndexing, usize>,
}

/// The node weights of a graph, in order of addition (a node's index is its position).
pub uninterp spec fn graph_nodes(graph: RelaxationGraph) -> Seq<FactorOrigin>;

/// The edges of a graph as (source, target, weight), in order of addition (an edge's index is
/// its position).
pub uninterp spec fn graph_edges(graph: RelaxationGraph) -> Seq<(usize, usize, AlignmentIndexing)>;

/// Source and target of each edge.
pub open spec fn edge_ends(edges: Seq<(usize, usize, AlignmentIndexing)>) -> Seq<(usize, usize)> {
    edges.map_values(|e: (usize, usize, AlignmentIndexing)| (e.0, e.1))
}

/// The edges among `ends` that enter node `a` (where `incoming`) or leave it (otherwise), as
/// (edge index, source, target), the most recently added first.
pub open spec fn incident_edges(ends: Seq<(usize, usize)>, a: usize, incoming: bool) -> Seq<(usize, usize, usize)>
    decreases ends.len(),
{
    if ends.len() == 0 {
        Seq::empty()
    } else {
        let k = ends.len() - 1;
        let e = ends.last();
        let rest = incident_edges(ends.drop_last(), a, incoming);
        if (incoming && e.1 == a) || (!incoming && e.0 == a) {
            seq![(k as usize, e.0, e.1)] + rest
        } else {
            rest
        }
    }
}

/// Whether edge `(source, target)` enters node `a` (where `incoming`) or leaves it.
pub open spec fn is_incident(end: (usize, usize), a: usize, incoming: bool) -> bool {
    if incoming {
        end.1 == a
    } else {
        end.0 == a
    }
}

/// The listed incident edges are exactly the edges incident to `a`, each once, with their
/// ends, from the most recently added one down.
pub proof fn lemma_incident_edges(ends: Seq<(usize, usize)>, a: usize, incoming: bool)
    requires
        ends.len() <= usize::MAX,
    ensures
        forall|j: int| 0 <= j < incident_edges(ends, a, incoming).len() ==> {
            let x = #[trigger] incident_edges(ends, a, incoming)[j];
            &&& x.0 < ends.len()
            &&& ends[x.0 as int] == (x.1, x.2)
            &&& is_incident(ends[x.0 as int], a, incoming)
        },
        forall|j1: int, j2: int|
            0 <= j1 < j2 < incident_edges(ends, a, incoming).len() ==> #[trigger] incident_edges(ends, a, incoming)[j1].0
                > #[trigger] incident_edges(ends, a, incoming)[j2].0,
        forall|e: int|
            0 <= e < ends.len() && #[trigger] is_incident(ends[e], a, incoming) ==> exists|j: int|
                0 <= j < incident_edges(ends, a, incoming).len() && #[trigger] incident_edges(ends, a, incoming)[j].0 == e,
    decreases ends.len(),
{
    if ends.len() > 0 {
        let rest_ends = ends.drop_last();
        lemma_incident_edges(rest_ends, a, incoming);
        let k = ends.len() - 1;
        let rest = incident_edges(rest_ends, a, incoming);
        let list = incident_edges(ends, a, incoming);
        assert forall|e: int| 0 <= e < rest_ends.len() implies ends[e] == rest_ends[e] by {}
        if is_incident(ends.last(), a, incoming) {
            let head = seq![(k as usize, ends.last().0, ends.last().1)];
            assert(list == head + rest);
            assert(list[0] == (k as usize, ends[k].0, ends[k].1));
            assert forall|j: int| 0 <= j < list.len() implies {
                let x = #[trigger] list[j];
                &&& x.0 < ends.len()
                &&& ends[x.0 as int] == (x.1, x.2)
                &&& is_incident(ends[x.0 as int], a, incoming)
            } by {
                if j > 0 {
                    assert(list[j] == rest[j - 1]);
                    assert(ends[rest[j - 1].0 as int] == rest_ends[rest[j - 1].0 as int]);
                }
            }
            assert forall|j1: int, j2: int| 0 <= j1 < j2 < list.len() implies #[trigger] list[j1].0 > #[trigger] list[j2].0 by {
                assert(list[j2] == rest[j2 - 1]);
                if j1 > 0 {
                    assert(list[j1] == rest[j1 - 1]);
                }
            }
            assert forall|e: int| 0 <= e < ends.len() && #[trigger] is_incident(ends[e], a, incoming) implies exists|j: int|
                0 <= j < list.len() && #[trigger] list[j].0 == e by {
                if e == k {
                    assert(list[0].0 == e);
                } else {
                    assert(is_incident(rest_ends[e], a, incoming));
                    let j = choose|j: int| 0 <= j < rest.len() && #[trigger] rest[j].0 == e;
                    assert(list[j + 1] == rest[j]);
                }
            }
        } else {
            assert(list == rest);
            assert forall|e: int| 0 <= e < ends.len() && #[trigger] is_incident(ends[e], a, incoming) implies exists|j: int|
                0 <= j < list.len() && #[trigger] list[j].0 == e by {
                assert(e != k);
                assert(is_incident(rest_ends[e], a, incoming));
            }
        }
    }
}

/// Without self-loops, a node has no more incident edges than the graph has edges.
pub proof fn lemma_incident_edges_count(ends: Seq<(usize, usize)>, a: usize)
    requires
        forall|e: int| 0 <= e < ends.len() ==> (#[trigger] ends[e]).0 != ends[e].1,
    ensures
        incident_edges(ends, a, true).len() + incident_edges(ends, a, false).len() <= ends.len(),
    decreases ends.len(),
{
    if ends.len() > 0 {
        let rest = ends.drop_last();
        assert forall|e: int| 0 <= e < rest.len() implies (#[trigger] rest[e]).0 != rest[e].1 by {
            assert(rest[e] == ends[e]);
        }
        lemma_incident_edges_count(rest, a);
        assert(ends.last() == ends[ends.len() - 1]);
    }
}

/// Calls `Graph::with_capacity`, which creates a graph without nodes or edges.
#[verifier::external_body]
fn graph_with_capacity(nodes: usize, edges: usize) -> (graph: RelaxationGraph)
    ensures
        graph_nodes(graph) == Seq::<FactorOrigin>::empty(),
        graph_edges(graph) == Seq::<(usize, usize, AlignmentIndexing)>::empty(),
{
    RelaxationGraph { graph: DiGraph::with_capacity(nodes, edges) }
}

/// Calls `Graph::add_node`, which appends a node and returns its index.
#[verifier::external_body]
fn graph_add_node(graph: &mut RelaxationGraph, weight: FactorOrigin) -> (node: usize)
    ensures
        graph_nodes(*final(graph)) == graph_nodes(*old(graph)).push(weight),
        graph_edges(*final(graph)) == graph_edges(*old(graph)),
        node == graph_nodes(*old(graph)).len(),
{
    graph.graph.add_node(weight).index()
}

/// Calls `Graph::add_edge`, which appends an edge from `a` to `b` and returns its index; it
/// panics when a node does not exist.
#[verifier::external_body]
fn graph_add_edge(graph: &mut RelaxationGraph, a: usize, b: usize, weight: AlignmentIndexing) -> (edge: usize)
    requires
        a < graph_nodes(*old(graph)).len(),
        b < graph_nodes(*old(graph)).len(),
    ensures
        graph_nodes(*final(graph)) == graph_nodes(*old(graph)),
        graph_edges(*final(graph)) == graph_edges(*old(graph)).push((a, b, weight)),
        edge == graph_edges(*old(graph)).len(),
{
    graph.graph.add_edge(NodeIndex::new(a), NodeIndex::new(b), weight).index()
}

/// Calls `Graph::node_count`.
#[verifier::external_body]
fn graph_node_count(graph: &RelaxationGraph) -> (n: usize)
    ensures
        n == graph_nodes(*graph).len(),
{
    graph.graph.node_count()
}

/// Calls `Graph::edge_count`.
#[verifier::external_body]
fn graph_edge_count(graph: &RelaxationGraph) -> (n: usize)
    ensures
        n == graph_edges(*graph).len(),
{
    graph.graph.edge_count()
}

/// Calls `Graph::node_weight`, which returns the weight of an existing node.
#[verifier::external_body]
fn graph_node_weight(graph: &RelaxationGraph, a: usize) -> (weight: &FactorOrigin)
    requires
        a < graph_nodes(*graph).len(),
    ensures
        *weight == graph_nodes(*graph)[a as int],
{
    graph.graph.node_weight(NodeIndex::new(a)).unwrap()
}

/// Calls `Graph::edge_weight`, which returns the weight of an existing edge.
#[verifier::external_body]
fn graph_edge_weight(graph: &RelaxationGraph, e: usize) -> (weight: &AlignmentIndexing)
    requires
        e < graph_edges(*graph).len(),
    ensures
        *weight == graph_edges(*graph)[e as int].2,
{
    graph.graph.edge_weight(EdgeIndex::new(e)).unwrap()
}

/// Calls `Graph::edge_endpoints`, which returns the source and target of an existing edge.
#[verifier::external_body]
fn graph_edge_endpoints(graph: &RelaxationGraph, e: usize) -> (ends: (usize, usize))
    requires
        e < graph_edges(*graph).len(),
    ensures
        ends == edge_ends(graph_edges(*graph))[e as int],
{
    let (a, b) = graph.graph.edge_endpoints(EdgeIndex::new(e)).unwrap();
    (a.index(), b.index())
}

/// Calls `Graph::edges_directed` on an existing node, which lists the edges entering it
/// (`incoming`) or leaving it, the most recently added first; each is given as
/// (edge index, source, target).
#[verifier::external_body]
fn graph_edges_directed(graph: &RelaxationGraph, a: usize, incoming: bool) -> (edges: Vec<(usize, usize, usize)>)
    requires
        a < graph_nodes(*graph).len(),
    ensures
        edges@ == incident_edges(edge_ends(graph_edges(*graph)), a, incoming),
{
    let direction = if incoming { Direction::Incoming } else { Direction::Outgoing };
    graph.graph.edges_directed(NodeIndex::new(a), direction).map(
        |e| (e.id().index(), e.source().index(), e.target().index()),
    ).collect()
}

/// Calls `Graph::neighbors_directed` on an existing node, which lists the sources of the
/// edges entering it (`incoming`) or the targets of the edges leaving it, in the order of
/// `Graph::edges_directed`.
#[verifier::external_body]
fn graph_neighbors_directed(graph: &RelaxationGraph, a: usize, incoming: bool) -> (nodes: Vec<usize>)
    requires
        a < graph_nodes(*graph).len(),
    ensures
        nodes@ == incident_edges(edge_ends(graph_edges(*graph)), a, incoming).map_values(
            |e: (usize, usize, usize)| if incoming { e.1 } else { e.2 },
        ),
{
    let direction = if incoming { Direction::Incoming } else { Direction::Outgoing };
    graph.graph.neighbors_directed(NodeIndex::new(a), direction).map(|n| n.index()).collect()
}


/// Direction of the edges of a node: those leaving it or those entering it.
#[derive(Clone, Copy, PartialEq, Eq, Structural)]
pub enum EdgeDirection {
    Outgoing,
    Incoming,
}

/// `alignment` aligns the table of factor `alpha` with that of factor `beta` in `cfn`, as
/// `AlignmentIndexing::new` computes it.
pub open spec fn aligns<T>(
    cfn: &CostFunctionNetwork<T>,
    alpha: FactorOrigin,
    beta: FactorOrigin,
    alignment: AlignmentIndexing,
) -> bool {
    &&& indexes(
        alignment.spec_index_first(),
        cfn.domain_sizes(),
        cfn.origin_variables(alpha),
        cfn.origin_variables(beta),
        cfn.origin_table_len(beta),
    )
    &&& indexes(
        alignment.spec_index_second(),
        cfn.domain_sizes(),
        cfn.origin_variables(alpha),
        variables_difference(cfn.origin_variables(alpha), cfn.origin_variables(beta)),
        cfn.origin_table_len(alpha) / cfn.origin_table_len(beta),
    )
}

/// Indices, among `scopes`, of the factors over at least two variables, in order.
pub open spec fn non_unary_factors(scopes: Seq<Seq<usize>>) -> Seq<usize>
    decreases scopes.len(),
{
    if scopes.len() == 0 {
        Seq::empty()
    } else if scopes.last().len() >= 2 {
        non_unary_factors(scopes.drop_last()).push((scopes.len() - 1) as usize)
    } else {
        non_unary_factors(scopes.drop_last())
    }
}

/// The nodes of the minimal-edges relaxation of a network with `num_variables` variables and
/// factors over `scopes`: one per variable, then one per factor over at least two variables.
pub open spec fn minimal_edges_nodes(num_variables: nat, scopes: Seq<Seq<usize>>) -> Seq<FactorOrigin> {
    Seq::new(num_variables, |v: int| FactorOrigin::Variable(v as usize)) + non_unary_factors(scopes).map_values(
        |f: usize| FactorOrigin::NonUnaryFactor(f),
    )
}

/// The edges (source, target) of the minimal-edges relaxation: from the node of each factor
/// over at least two variables to the node of each of its variables, in order.
pub open spec fn minimal_edges_ends(num_variables: nat, scopes: Seq<Seq<usize>>) -> Seq<(usize, usize)>
    decreases scopes.len(),
{
    if scopes.len() == 0 {
        Seq::empty()
    } else {
        let before = minimal_edges_ends(num_variables, scopes.drop_last());
        let scope = scopes.last();
        if scope.len() >= 2 {
            let node = (num_variables + non_unary_factors(scopes.drop_last()).len()) as usize;
            before + scope.map_values(|v: usize| (node, v))
        } else {
            before
        }
    }
}

/// Some edge among `ends` goes from a node whose factor is `origin` to node `target`.
pub open spec fn has_edge(nodes: Seq<FactorOrigin>, ends: Seq<(usize, usize)>, origin: FactorOrigin, target: usize) -> bool {
    exists|e: int| 0 <= e < ends.len() && nodes[ends[e].0 as int] == origin && ends[e].1 == target
}

/// The number of variables over all scopes of at least two variables.
pub open spec fn non_unary_arity_total(scopes: Seq<Seq<usize>>) -> nat
    decreases scopes.len(),
{
    if scopes.len() == 0 {
        0
    } else {
        non_unary_arity_total(scopes.drop_last()) + if scopes.last().len() >= 2 {
            scopes.last().len()
        } else {
            0
        }
    }
}

proof fn lemma_non_unary_factors(scopes: Seq<Seq<usize>>)
    requires
        scopes.len() <= usize::MAX,
    ensures
        forall|k: int|
            0 <= k < non_unary_factors(scopes).len() ==> #[trigger] non_unary_factors(scopes)[k] < scopes.len()
                && scopes[non_unary_factors(scopes)[k] as int].len() >= 2,
    decreases scopes.len(),
{
    if scopes.len() > 0 {
        let rest = scopes.drop_last();
        lemma_non_unary_factors(rest);
        let all = non_unary_factors(scopes);
        let before = non_unary_factors(rest);
        if scopes.last().len() >= 2 {
            assert(all == before.push((scopes.len() - 1) as usize));
        } else {
            assert(all == before);
        }
        assert forall|k: int| 0 <= k < all.len() implies #[trigger] all[k] < scopes.len() && scopes[all[k] as int].len()
            >= 2 by {
            if k < before.len() {
                assert(all[k] == before[k]);
                assert(scopes[before[k] as int] == rest[before[k] as int]);
            } else {
                assert(all[k] == (scopes.len() - 1) as usize);
            }
        }
    }
}

/// The minimal-edges relaxation of a network with `num_variables` variables and factors over
/// `scopes` has, for every factor over at least two variables and every variable of its scope,
/// an edge from the node of the factor to that variable; every edge is of this kind, so there
/// are as many edges as variables over all such scopes, and the nodes of the variables come
/// first, one per variable.
pub proof fn lemma_minimal_edges(num_variables: nat, scopes: Seq<Seq<usize>>)
    requires
        num_variables + scopes.len() <= usize::MAX,
    ensures
        minimal_edges_ends(num_variables, scopes).len() == non_unary_arity_total(scopes),
        forall|v: int|
            0 <= v < num_variables ==> #[trigger] minimal_edges_nodes(num_variables, scopes)[v]
                == FactorOrigin::Variable(v as usize),
        forall|e: int|
            0 <= e < minimal_edges_ends(num_variables, scopes).len() ==> {
                let end = #[trigger] minimal_edges_ends(num_variables, scopes)[e];
                let nodes = minimal_edges_nodes(num_variables, scopes);
                &&& num_variables <= end.0 < nodes.len()
                &&& nodes[end.0 as int] is NonUnaryFactor
                &&& nodes[end.0 as int]->NonUnaryFactor_0 < scopes.len()
                &&& scopes[nodes[end.0 as int]->NonUnaryFactor_0 as int].len() >= 2
                &&& scopes[nodes[end.0 as int]->NonUnaryFactor_0 as int].contains(end.1)
            },
        forall|f: int, i: int|
            0 <= f < scopes.len() && scopes[f].len() >= 2 && 0 <= i < scopes[f].len() ==> has_edge(
                minimal_edges_nodes(num_variables, scopes),
                minimal_edges_ends(num_variables, scopes),
                FactorOrigin::NonUnaryFactor(f as usize),
                #[trigger] scopes[f][i],
            ),
    decreases scopes.len(),
{
    let nodes = minimal_edges_nodes(num_variables, scopes);
    let ends = minimal_edges_ends(num_variables, scopes);
    lemma_non_unary_factors(scopes);
    if scopes.len() == 0 {
        return;
    }
    let rest = scopes.drop_last();
    let last = (scopes.len() - 1) as int;
    lemma_minimal_edges(num_variables, rest);
    let nodes0 = minimal_edges_nodes(num_variables, rest);
    let ends0 = minimal_edges_ends(num_variables, rest);
    let nuf0 = non_unary_factors(rest);
    let node = (num_variables + nuf0.len()) as usize;
    assert(nuf0.len() <= rest.len()) by {
        lemma_non_unary_factors_len(rest);
    }
    assert forall|k: int| 0 <= k < nodes0.len() implies #[trigger] nodes[k] == nodes0[k] by {
        if k >= num_variables {
            assert(non_unary_factors(scopes)[k - num_variables] == nuf0[k - num_variables]);
        }
    }
    assert forall|f: int| 0 <= f < rest.len() implies #[trigger] rest[f] == scopes[f] by {}
    if scopes[last].len() >= 2 {
        let added = scopes[last].map_values(|v: usize| (node, v));
        assert(ends == ends0 + added);
        assert(non_unary_factors(scopes) == nuf0.push(last as usize));
        assert(nodes[node as int] == FactorOrigin::NonUnaryFactor(last as usize));
        assert forall|e: int| 0 <= e < ends.len() implies {
            let end = #[trigger] ends[e];
            &&& num_variables <= end.0 < nodes.len()
            &&& nodes[end.0 as int] is NonUnaryFactor
            &&& nodes[end.0 as int]->NonUnaryFactor_0 < scopes.len()
            &&& scopes[nodes[end.0 as int]->NonUnaryFactor_0 as int].len() >= 2
            &&& scopes[nodes[end.0 as int]->NonUnaryFactor_0 as int].contains(end.1)
        } by {
            if e < ends0.len() {
                assert(ends[e] == ends0[e]);
            } else {
                let i = e - ends0.len();
                assert(ends[e] == (node, scopes[last][i]));
            }
        }
        assert forall|f: int, i: int|
            0 <= f < scopes.len() && scopes[f].len() >= 2 && 0 <= i < scopes[f].len() implies has_edge(
                nodes,
                ends,
                FactorOrigin::NonUnaryFactor(f as usize),
                #[trigger] scopes[f][i],
            ) by {
            if f < last {
                assert(rest[f][i] == scopes[f][i]);
                assert(has_edge(nodes0, ends0, FactorOrigin::NonUnaryFactor(f as usize), rest[f][i]));
                let e = choose|e: int|
                    0 <= e < ends0.len() && nodes0[ends0[e].0 as int] == FactorOrigin::NonUnaryFactor(f as usize)
                        && ends0[e].1 == rest[f][i];
                assert(ends[e] == ends0[e]);
                assert(ends0[e].0 < nodes0.len());
                assert(nodes[ends0[e].0 as int] == nodes0[ends0[e].0 as int]);
                assert(0 <= e < ends.len() && nodes[ends[e].0 as int] == FactorOrigin::NonUnaryFactor(f as usize)
                    && ends[e].1 == scopes[f][i]);
            } else {
                let e = ends0.len() + i;
                assert(ends.len() == ends0.len() + scopes[last].len());
                assert(ends[e] == (node, scopes[last][i]));
                assert(0 <= e < ends.len() && nodes[ends[e].0 as int] == FactorOrigin::NonUnaryFactor(f as usize)
                    && ends[e].1 == scopes[f][i]);
            }
        }
    } else {
        assert(ends == ends0);
        assert(non_unary_factors(scopes) == nuf0);
        assert(nodes =~= nodes0);
        assert forall|f: int, i: int|
            0 <= f < scopes.len() && scopes[f].len() >= 2 && 0 <= i < scopes[f].len() implies has_edge(
                nodes,
                ends,
                FactorOrigin::NonUnaryFactor(f as usize),
                #[trigger] scopes[f][i],
            ) by {
            assert(f < last);
            assert(rest[f][i] == scopes[f][i]);
            assert(has_edge(nodes0, ends0, FactorOrigin::NonUnaryFactor(f as usize), rest[f][i]));
            let e = choose|e: int|
                0 <= e < ends0.len() && nodes0[ends0[e].0 as int] == FactorOrigin::NonUnaryFactor(f as usize)
                    && ends0[e].1 == rest[f][i];
            assert(0 <= e < ends.len() && nodes[ends[e].0 as int] == FactorOrigin::NonUnaryFactor(f as usize)
                && ends[e].1 == scopes[f][i]);
        }
        assert forall|e: int| 0 <= e < ends.len() implies {
            let end = #[trigger] ends[e];
            &&& num_variables <= end.0 < nodes.len()
            &&& nodes[end.0 as int] is NonUnaryFactor
            &&& nodes[end.0 as int]->NonUnaryFactor_0 < scopes.len()
            &&& scopes[nodes[end.0 as int]->NonUnaryFactor_0 as int].len() >= 2
            &&& scopes[nodes[end.0 as int]->NonUnaryFactor_0 as int].contains(end.1)
        } by {
            assert(ends[e] == ends0[e]);
        }
    }
}

proof fn lemma_non_unary_factors_len(scopes: Seq<Seq<usize>>)
    ensures
        non_unary_factors(scopes).len() <= scopes.len(),
    decreases scopes.len(),
{
    if scopes.len() > 0 {
        lemma_non_unary_factors_len(scopes.drop_last());
    }
}

/// The network can be relaxed with minimal edges: it is well formed and each factor over at
/// least two variables can be aligned with each of its variables.
pub open spec fn relaxable<T>(cfn: &CostFunctionNetwork<T>) -> bool {
    &&& cfn.wf()
    &&& forall|f: int, i: int|
        0 <= f < cfn.factor_list().len() && cfn.factor_list()[f].spec_variables().len() >= 2 && 0 <= i
            < cfn.factor_list()[f].spec_variables().len() ==> alignable(
            cfn,
            FactorOrigin::NonUnaryFactor(f as usize),
            FactorOrigin::Variable(#[trigger] cfn.factor_list()[f].spec_variables()[i]),
        )
}

/// The minimal-edges relaxation (the only kind of relaxation this library builds), as a
/// marker type.
pub struct MinimalEdges {}

/// A relaxation of a cost function network: a directed graph with a node per factor (each
/// variable standing for its unary factor) and an edge from each factor to each smaller factor
/// it is relaxed onto, carrying the alignment of their tables.
pub struct Relaxation<'a, T> {
    cfn: &'a CostFunctionNetwork<T>,
    graph: RelaxationGraph,
}

impl<'a, T> Relaxation<'a, T> {
    /// The network that is relaxed.
    pub closed spec fn spec_cfn(&self) -> &'a CostFunctionNetwork<T> {
        self.cfn
    }

    /// The factor of each node.
    pub closed spec fn nodes(&self) -> Seq<FactorOrigin> {
        graph_nodes(self.graph)
    }

    /// The source and target of each edge.
    pub closed spec fn ends(&self) -> Seq<(usize, usize)> {
        edge_ends(graph_edges(self.graph))
    }

    /// The alignment carried by each edge.
    pub closed spec fn alignments(&self) -> Seq<AlignmentIndexing> {
        graph_edges(self.graph).map_values(|e: (usize, usize, AlignmentIndexing)| e.2)
    }

    /// Edges go between distinct nodes of the graph, and each edge aligns the table of its source's
    /// factor with that of its target's factor.
    pub closed spec fn wf(&self) -> bool {
        &&& forall|e: int| 0 <= e < self.ends().len() ==> (#[trigger] self.ends()[e]).0 < self.nodes().len()
            && self.ends()[e].1 < self.nodes().len() && self.ends()[e].0 != self.ends()[e].1
        &&& forall|e: int| 0 <= e < self.ends().len() ==> aligns(
            self.cfn,
            self.nodes()[(#[trigger] self.ends()[e]).0 as int],
            self.nodes()[self.ends()[e].1 as int],
            self.alignments()[e],
        )
    }

    /// In a well-formed relaxation, edges go between distinct nodes of the graph and align the
    /// tables of their ends' factors.
    pub proof fn lemma_wf(&self)
        requires
            self.wf(),
        ensures
            forall|e: int| 0 <= e < self.ends().len() ==> (#[trigger] self.ends()[e]).0 < self.nodes().len()
                && self.ends()[e].1 < self.nodes().len() && self.ends()[e].0 != self.ends()[e].1,
            forall|e: int| 0 <= e < self.ends().len() ==> aligns(
                self.spec_cfn(),
                self.nodes()[(#[trigger] self.ends()[e]).0 as int],
                self.nodes()[self.ends()[e].1 as int],
                self.alignments()[e],
            ),
    {
    }

    /// The edges entering node `a` (`incoming`) or leaving it, as (edge index, source, target),
    /// the most recently added first.
    pub open spec fn spec_edges_directed(&self, a: usize, incoming: bool) -> Seq<(usize, usize, usize)> {
        incident_edges(self.ends(), a, incoming)
    }

    /// Returns the cost function network associated with this relaxation.
    pub fn cfn(&self) -> (cfn: &'a CostFunctionNetwork<T>)
        ensures
            cfn == self.spec_cfn(),
    {
        self.cfn
    }

    /// Returns the number of nodes.
    pub fn node_count(&self) -> (n: usize)
        ensures
            n == self.nodes().len(),
    {
        graph_node_count(&self.graph)
    }

    /// Returns the number of edges.
    pub fn edge_count(&self) -> (n: usize)
        ensures
            n == self.ends().len(),
    {
        graph_edge_count(&self.graph)
    }

    /// Returns the indices of all nodes, in increasing order.
    pub fn node_indices(&self) -> (indices: std::ops::Range<usize>)
        ensures
            indices.start == 0,
            indices.end == self.nodes().len(),
    {
        0..graph_node_count(&self.graph)
    }

    /// Returns the factor of a node.
    pub fn factor_origin(&self, node: usize) -> (origin: &FactorOrigin)
        requires
            node < self.nodes().len(),
        ensures
            *origin == self.nodes()[node as int],
    {
        graph_node_weight(&self.graph, node)
    }

    /// Whether the factor of a node is unary (a variable).
    pub fn is_unary_factor(&self, node: usize) -> (unary: bool)
        requires
            node < self.nodes().len(),
        ensures
            unary == self.nodes()[node as int] is Variable,
    {
        match self.factor_origin(node) {
            FactorOrigin::Variable(_) => true,
            FactorOrigin::NonUnaryFactor(_) => false,
        }
    }

    /// Returns the alignment carried by an edge.
    pub fn edge_data(&self, edge: usize) -> (alignment: &AlignmentIndexing)
        requires
            edge < self.ends().len(),
        ensures
            *alignment == self.alignments()[edge as int],
    {
        graph_edge_weight(&self.graph, edge)
    }

    /// Returns the source and target of an edge.
    pub fn edge_endpoints(&self, edge: usize) -> (ends: (usize, usize))
        requires
            edge < self.ends().len(),
        ensures
            ends == self.ends()[edge as int],
    {
        graph_edge_endpoints(&self.graph, edge)
    }

    /// Returns the edges entering a node (`Incoming`) or leaving it (`Outgoing`), as
    /// (edge index, source, target), the most recently added first.
    pub fn edges_directed(&self, node: usize, direction: EdgeDirection) -> (edges: Vec<(usize, usize, usize)>)
        requires
            node < self.nodes().len(),
        ensures
            edges@ == self.spec_edges_directed(node, direction == EdgeDirection::Incoming),
    {
        graph_edges_directed(&self.graph, node, direction == EdgeDirection::Incoming)
    }

    /// Returns the neighbors of a node: the sources of its entering edges (`Incoming`) or the
    /// targets of its leaving edges (`Outgoing`), in the order of `edges_directed`.
    pub fn neighbors(&self, node: usize, direction: EdgeDirection) -> (neighbors: Vec<usize>)
        requires
            node < self.nodes().len(),
        ensures
            neighbors@ == self.spec_edges_directed(node, direction == EdgeDirection::Incoming).map_values(
                |e: (usize, usize, usize)| if direction == EdgeDirection::Incoming { e.1 } else { e.2 },
            ),
    {
        graph_neighbors_directed(&self.graph, node, direction == EdgeDirection::Incoming)
    }

    /// Whether a node has an edge in the given direction.
    pub fn has_edges(&self, node: usize, direction: EdgeDirection) -> (has: bool)
        requires
            node < self.nodes().len(),
        ensures
            has == (self.spec_edges_directed(node, direction == EdgeDirection::Incoming).len() > 0),
    {
        self.neighbors(node, direction).len() > 0
    }

    /// Builds the minimal-edges relaxation of `cfn`: a node for each variable (its index is
    /// the variable), then a node for each factor over at least two variables, in the order
    /// of the factors, with an edge from it to the node of each of its variables, in order,
    /// carrying the alignment of the factor with that variable.
    pub fn new(cfn: &'a CostFunctionNetwork<T>) -> (relaxation: Self)
        requires
            relaxable(cfn),
        ensures
            relaxation.wf(),
            relaxation.spec_cfn() == cfn,
            relaxation.nodes() == minimal_edges_nodes(cfn.spec_num_variables(), cfn.factor_scopes()),
            relaxation.ends() == minimal_edges_ends(cfn.spec_num_variables(), cfn.factor_scopes()),
    {
        let factors = cfn.factors_iter();
        let ghost scopes = cfn.factor_scopes();
        let mut edge_capacity: usize = 0;
        for f in 0..factors.len() {
            if factors[f].arity() > 1 {
                edge_capacity = edge_capacity.saturating_add(factors[f].arity());
            }
        }
        let mut graph = graph_with_capacity(factors.len(), edge_capacity);
        let n = cfn.num_variables();
        let mut unary_nodes: Vec<usize> = Vec::with_capacity(n);
        for variable in 0..n
            invariant
                n == cfn.spec_num_variables(),
                unary_nodes@.len() == variable,
                forall|v: int| 0 <= v < variable ==> #[trigger] unary_nodes@[v] == v,
                graph_nodes(graph) == Seq::new(variable as nat, |v: int| FactorOrigin::Variable(v as usize)),
                graph_edges(graph) == Seq::<(usize, usize, AlignmentIndexing)>::empty(),
        {
            let node = graph_add_node(&mut graph, FactorOrigin::Variable(variable));
            unary_nodes.push(node);
            assert(graph_nodes(graph) =~= Seq::new((variable + 1) as nat, |v: int| FactorOrigin::Variable(v as usize)));
        }
        proof {
            assert(scopes.take(0) =~= Seq::<Seq<usize>>::empty());
            assert(minimal_edges_nodes(n as nat, scopes.take(0)) =~= graph_nodes(graph));
            assert(edge_ends(graph_edges(graph)) =~= minimal_edges_ends(n as nat, scopes.take(0)));
        }
        for f in 0..factors.len()
            invariant
                n == cfn.spec_num_variables(),
                relaxable(cfn),
                factors@ == cfn.factor_list(),
                scopes == cfn.factor_scopes(),
                unary_nodes@.len() == n,
                forall|v: int| 0 <= v < n ==> #[trigger] unary_nodes@[v] == v,
                graph_nodes(graph) == minimal_edges_nodes(n as nat, scopes.take(f as int)),
                edge_ends(graph_edges(graph)) == minimal_edges_ends(n as nat, scopes.take(f as int)),
                forall|e: int| 0 <= e < graph_edges(graph).len() ==> {
                    let edge = #[trigger] graph_edges(graph)[e];
                    &&& edge.0 < graph_nodes(graph).len()
                    &&& edge.1 < graph_nodes(graph).len()
                    &&& edge.0 != edge.1
                    &&& aligns(cfn, graph_nodes(graph)[edge.0 as int], graph_nodes(graph)[edge.1 as int], edge.2)
                },
        {
            proof {
                assert(scopes.take(f + 1).drop_last() =~= scopes.take(f as int));
                assert(scopes.take(f + 1).last() == factors@[f as int].spec_variables());
            }
            if factors[f].arity() >= 2 {
                let ghost nodes_before = graph_nodes(graph);
                let ghost edges_before = graph_edges(graph);
                let new_node = graph_add_node(&mut graph, FactorOrigin::NonUnaryFactor(f));
                proof {
                    assert(graph_nodes(graph) =~= minimal_edges_nodes(n as nat, scopes.take(f + 1)));
                    assert(new_node == n + non_unary_factors(scopes.take(f as int)).len());
                }
                let vars = factors[f].variables();
                for i in 0..vars.len()
                    invariant
                        n == cfn.spec_num_variables(),
                        relaxable(cfn),
                        factors@ == cfn.factor_list(),
                        f < factors@.len(),
                        vars@ == factors@[f as int].spec_variables(),
                        vars@.len() >= 2,
                        unary_nodes@.len() == n,
                        forall|v: int| 0 <= v < n ==> #[trigger] unary_nodes@[v] == v,
                        n <= new_node < graph_nodes(graph).len(),
                        graph_nodes(graph)[new_node as int] == FactorOrigin::NonUnaryFactor(f),
                        graph_nodes(graph) == minimal_edges_nodes(n as nat, scopes.take(f + 1)),
                        graph_nodes(graph).len() > n,
                        forall|v: int| 0 <= v < n ==> #[trigger] graph_nodes(graph)[v] == FactorOrigin::Variable(v as usize),
                        edge_ends(graph_edges(graph)) == edge_ends(edges_before) + vars@.take(i as int).map_values(
                            |v: usize| (new_node, v),
                        ),
                        forall|e: int| 0 <= e < graph_edges(graph).len() ==> {
                            let edge = #[trigger] graph_edges(graph)[e];
                            &&& edge.0 < graph_nodes(graph).len()
                            &&& edge.1 < graph_nodes(graph).len()
                            &&& edge.0 != edge.1
                            &&& aligns(cfn, graph_nodes(graph)[edge.0 as int], graph_nodes(graph)[edge.1 as int], edge.2)
                        },
                {
                    let variable = vars[i];
                    assert(alignable(
                        cfn,
                        FactorOrigin::NonUnaryFactor(f),
                        FactorOrigin::Variable(cfn.factor_list()[f as int].spec_variables()[i as int]),
                    ));
                    let variable_node = unary_nodes[variable];
                    let alpha = FactorOrigin::NonUnaryFactor(f);
                    let beta = FactorOrigin::Variable(variable);
                    let weight = AlignmentIndexing::new(cfn, &alpha, &beta);
                    let ghost edges_prev = graph_edges(graph);
                    graph_add_edge(&mut graph, new_node, variable_node, weight);
                    proof {
                        assert(vars@.take(i + 1).map_values(|v: usize| (new_node, v)) =~= vars@.take(i as int).map_values(
                            |v: usize| (new_node, v),
                        ).push((new_node, variable)));
                        assert(edge_ends(graph_edges(graph)) =~= edge_ends(edges_prev).push((new_node, variable_node)));
                        assert forall|e: int| 0 <= e < graph_edges(graph).len() implies {
                            let edge = #[trigger] graph_edges(graph)[e];
                            &&& edge.0 < graph_nodes(graph).len()
                            &&& edge.1 < graph_nodes(graph).len()
                            &&& edge.0 != edge.1
                            &&& aligns(cfn, graph_nodes(graph)[edge.0 as int], graph_nodes(graph)[edge.1 as int], edge.2)
                        } by {
                            if e < edges_prev.len() {
                                assert(graph_edges(graph)[e] == edges_prev[e]);
                            }
                        }
                    }
                }
                proof {
                    assert(vars@.take(vars@.len() as int) =~= vars@);
                    assert(minimal_edges_ends(n as nat, scopes.take(f + 1)) == minimal_edges_ends(n as nat, scopes.take(f as int))
                        + vars@.map_values(|v: usize| (new_node, v)));
                }
            } else {
                proof {
                    assert(graph_nodes(graph) =~= minimal_edges_nodes(n as nat, scopes.take(f + 1)));
                }
            }
        }
        proof {
            assert(scopes.take(factors@.len() as int) =~= scopes);
        }
        Relaxation { cfn, graph }
    }
}

} // verus!
