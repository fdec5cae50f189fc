use vstd::prelude::*;

use crate::cfn::cost_function_network::FactorOrigin;
use crate::cfn::relaxation::{incident_edges, is_incident, lemma_incident_edges, EdgeDirection, Relaxation};
use crate::data_structures::bits::{bitvec_index, bitvec_repeat, bitvec_set, bits, max_bits, BitStorage};

verus! {

/// The nodes below `k` that SRMP considers, in increasing order: the unary factors and the
/// factors with at least one entering edge.
pub open spec fn sequence_upto(nodes: Seq<FactorOrigin>, ends: Seq<(usize, usize)>, k: int) -> Seq<usize>
    decreases k,
{
    if k <= 0 {
        Seq::empty()
    } else {
        let before = sequence_upto(nodes, ends, k - 1);
        if nodes[k - 1] is Variable || incident_edges(ends, (k - 1) as usize, true).len() > 0 {
            before.push((k - 1) as usize)
        } else {
            before
        }
    }
}

pub open spec fn strictly_increasing_nodes(s: Seq<usize>) -> bool {
    forall|i: int, j: int| 0 <= i < j < s.len() ==> s[i] < s[j]
}

proof fn lemma_sequence_upto(nodes: Seq<FactorOrigin>, ends: Seq<(usize, usize)>, k: int)
    requires
        0 <= k <= usize::MAX,
    ensures
        strictly_increasing_nodes(sequence_upto(nodes, ends, k)),
        forall|i: int| 0 <= i < sequence_upto(nodes, ends, k).len() ==> #[trigger] sequence_upto(nodes, ends, k)[i] < k,
    decreases k,
{
    if k > 0 {
        lemma_sequence_upto(nodes, ends, k - 1);
    }
}

/// The nodes below `k` from which SRMP takes its initial lower bound, in increasing order: the
/// factors over at least two variables that no edge enters or leaves.
pub open spec fn isolated_upto(nodes: Seq<FactorOrigin>, ends: Seq<(usize, usize)>, k: int) -> Seq<usize>
    decreases k,
{
    if k <= 0 {
        Seq::empty()
    } else {
        let before = isolated_upto(nodes, ends, k - 1);
        if !(nodes[k - 1] is Variable) && incident_edges(ends, (k - 1) as usize, true).len() == 0
            && incident_edges(ends, (k - 1) as usize, false).len() == 0 {
            before.push((k - 1) as usize)
        } else {
            before
        }
    }
}

/// Returns, in increasing order, the nodes of `relaxation` from which SRMP takes its initial
/// lower bound: those of factors over at least two variables with no entering and no leaving
/// edge.
pub fn initial_bound_factors<T>(relaxation: &Relaxation<T>) -> (factors: Vec<usize>)
    ensures
        factors@ == isolated_upto(relaxation.nodes(), relaxation.ends(), relaxation.nodes().len() as int),
{
    let n = relaxation.node_count();
    let mut factors: Vec<usize> = Vec::new();
    for node in 0..n
        invariant
            n == relaxation.nodes().len(),
            factors@ == isolated_upto(relaxation.nodes(), relaxation.ends(), node as int),
    {
        if !relaxation.is_unary_factor(node) && !relaxation.has_edges(node, EdgeDirection::Incoming)
            && !relaxation.has_edges(node, EdgeDirection::Outgoing) {
            factors.push(node);
        }
    }
    factors
}

/// The sequence of factors that SRMP considers in its passes, as nodes of the relaxation, in
/// increasing order.
pub struct FactorSequence {
    sequence: Vec<usize>,
}

impl FactorSequence {
    #[verifier::type_invariant]
    spec fn increasing(self) -> bool {
        strictly_increasing_nodes(self.sequence@)
    }

    /// The nodes of the sequence, in order.
    pub closed spec fn spec_sequence(&self) -> Seq<usize> {
        self.sequence@
    }

    /// The sequence for `relaxation`: all unary factors and all factors with at least one
    /// entering edge, in increasing order.
    pub fn new<T>(relaxation: &Relaxation<T>) -> (sequence: Self)
        ensures
            sequence.spec_sequence() == sequence_upto(relaxation.nodes(), relaxation.ends(), relaxation.nodes().len() as int),
    {
        let n = relaxation.node_count();
        let mut sequence: Vec<usize> = Vec::new();
        for node in 0..n
            invariant
                n == relaxation.nodes().len(),
                sequence@ == sequence_upto(relaxation.nodes(), relaxation.ends(), node as int),
        {
            if relaxation.is_unary_factor(node) || relaxation.has_edges(node, EdgeDirection::Incoming) {
                sequence.push(node);
            }
        }
        proof {
            lemma_sequence_upto(relaxation.nodes(), relaxation.ends(), n as int);
        }
        FactorSequence { sequence }
    }

    /// Sorts the sequence in increasing order, which it already is.
    pub fn sort(self) -> (sorted: Self)
        ensures
            sorted.spec_sequence() == self.spec_sequence(),
            strictly_increasing_nodes(sorted.spec_sequence()),
    {
        proof {
            use_type_invariant(&self);
        }
        self
    }

    /// The nodes of the sequence, in order.
    pub fn iter(&self) -> (nodes: &[usize])
        ensures
            nodes@ == self.spec_sequence(),
    {
        self.sequence.as_slice()
    }
}


/// An edge from node `x` enters node `a`.
pub open spec fn enters(ends: Seq<(usize, usize)>, x: usize, a: usize) -> bool {
    exists|e: int| 0 <= e < ends.len() && #[trigger] ends[e] == (x, a)
}

/// Node `x` is one of the nodes at positions `lo..hi` of `seq`, or the source of an edge
/// entering one of them.
pub open spec fn touched_between(seq: Seq<usize>, ends: Seq<(usize, usize)>, lo: int, hi: int, x: usize) -> bool {
    exists|q: int| lo <= q < hi && (#[trigger] seq[q] == x || enters(ends, x, seq[q]))
}

/// Node `a` is at a position before `p` in `seq`.
pub open spec fn processed(seq: Seq<usize>, p: int, a: usize) -> bool {
    exists|q: int| 0 <= q < p && #[trigger] seq[q] == a
}

/// Node `a` is at position `p` or after in `seq`.
pub open spec fn processed_from(seq: Seq<usize>, p: int, a: usize) -> bool {
    exists|q: int| p <= q < seq.len() && #[trigger] seq[q] == a
}

/// Number of the listed edges that satisfy `pred`.
pub open spec fn count_edges(list: Seq<(usize, usize, usize)>, pred: spec_fn((usize, usize, usize)) -> bool) -> nat
    decreases list.len(),
{
    if list.len() == 0 {
        0
    } else {
        count_edges(list.drop_last(), pred) + if pred(list.last()) {
            1nat
        } else {
            0nat
        }
    }
}

proof fn lemma_count_edges_bound(list: Seq<(usize, usize, usize)>, pred: spec_fn((usize, usize, usize)) -> bool)
    ensures
        count_edges(list, pred) <= list.len(),
    decreases list.len(),
{
    if list.len() > 0 {
        lemma_count_edges_bound(list.drop_last(), pred);
    }
}

proof fn lemma_count_edges_congruent(
    list: Seq<(usize, usize, usize)>,
    pred1: spec_fn((usize, usize, usize)) -> bool,
    pred2: spec_fn((usize, usize, usize)) -> bool,
)
    requires
        forall|k: int| 0 <= k < list.len() ==> pred1(#[trigger] list[k]) == pred2(list[k]),
    ensures
        count_edges(list, pred1) == count_edges(list, pred2),
    decreases list.len(),
{
    if list.len() > 0 {
        let rest = list.drop_last();
        assert forall|k: int| 0 <= k < rest.len() implies pred1(#[trigger] rest[k]) == pred2(rest[k]) by {
            assert(rest[k] == list[k]);
        }
        lemma_count_edges_congruent(rest, pred1, pred2);
        assert(pred1(list[list.len() - 1]) == pred2(list[list.len() - 1]));
    }
}

/// Whether a listed edge is labeled forward in `seq` for the node at position `q`.
pub open spec fn forward_marked(seq: Seq<usize>, ends: Seq<(usize, usize)>, q: int) -> spec_fn((usize, usize, usize)) -> bool {
    |x: (usize, usize, usize)| forward_label(seq, ends, q, x.0 as int)
}

/// Whether a listed edge is labeled backward in `seq` for the node at position `q`.
pub open spec fn backward_marked(seq: Seq<usize>, ends: Seq<(usize, usize)>, q: int) -> spec_fn((usize, usize, usize)) -> bool {
    |x: (usize, usize, usize)| backward_label(seq, ends, q, x.0 as int)
}

/// Whether the bit of a listed edge is set in `marks`.
pub open spec fn edge_marked(marks: Seq<bool>) -> spec_fn((usize, usize, usize)) -> bool {
    |x: (usize, usize, usize)| marks[x.0 as int]
}

/// Whether the target of a listed edge is at position `q` or before in `seq`, or not.
pub open spec fn target_reached(seq: Seq<usize>, q: int, reached: bool) -> spec_fn((usize, usize, usize)) -> bool {
    |x: (usize, usize, usize)| processed(seq, q + 1, x.2) == reached
}

/// Whether the bit of the target of a listed edge is set in `marks`, or not.
pub open spec fn target_marked(marks: Seq<bool>, marked: bool) -> spec_fn((usize, usize, usize)) -> bool {
    |x: (usize, usize, usize)| marks[x.2 as int] == marked
}

/// The weight of a node with `total` entering edges, `marked` of them in the direction of
/// the pass, and `out` leaving edges towards nodes not yet reached in that direction: the larger
/// of the marked and the unmarked entering edges, plus `out`, or 1 where that and `marked`
/// are both 0.
pub open spec fn node_weight(total: int, marked: int, out: int) -> int {
    let w = (if total - marked >= marked {
        total - marked
    } else {
        marked
    }) + out;
    if w + marked == 0 {
        1
    } else {
        w
    }
}

/// An edge with the same ends as edge `e` was added after it.
pub open spec fn later_twin(ends: Seq<(usize, usize)>, e: int) -> bool {
    exists|e2: int| e < e2 < ends.len() && #[trigger] ends[e2] == ends[e]
}

/// Edge `e`, which enters the node at position `p` of `seq`, is a backward edge: its source
/// was met before, scanning `seq` forward and the edges entering each node from the most
/// recently added one.
pub open spec fn backward_label(seq: Seq<usize>, ends: Seq<(usize, usize)>, p: int, e: int) -> bool {
    touched_between(seq, ends, 0, p, ends[e].0) || ends[e].0 == seq[p] || later_twin(ends, e)
}

/// Edge `e`, which enters the node at position `p` of `seq`, is a forward edge: its source
/// was met before, scanning `seq` backward and the edges entering each node from the most
/// recently added one.
pub open spec fn forward_label(seq: Seq<usize>, ends: Seq<(usize, usize)>, p: int, e: int) -> bool {
    touched_between(seq, ends, p + 1, seq.len() as int, ends[e].0) || ends[e].0 == seq[p] || later_twin(ends, e)
}

/// An earlier entry of the list of edges entering `a` has the same source as entry `j` exactly
/// when a later edge has the same ends.
proof fn lemma_twin_in_list(ends: Seq<(usize, usize)>, a: usize, j: int)
    requires
        ends.len() <= usize::MAX,
        0 <= j < incident_edges(ends, a, true).len(),
    ensures
        (exists|j2: int| 0 <= j2 < j && #[trigger] incident_edges(ends, a, true)[j2].1 == incident_edges(ends, a, true)[j].1)
            == later_twin(ends, incident_edges(ends, a, true)[j].0 as int),
{
    lemma_incident_edges(ends, a, true);
    let list = incident_edges(ends, a, true);
    let e = list[j].0 as int;
    if exists|j2: int| 0 <= j2 < j && #[trigger] list[j2].1 == list[j].1 {
        let j2 = choose|j2: int| 0 <= j2 < j && #[trigger] list[j2].1 == list[j].1;
        assert(list[j2].0 > list[j].0);
        assert(ends[list[j2].0 as int] == ends[e]);
    }
    if later_twin(ends, e) {
        let e2 = choose|e2: int| e < e2 < ends.len() && #[trigger] ends[e2] == ends[e];
        assert(is_incident(ends[e2], a, true));
        let j2 = choose|j2: int| 0 <= j2 < list.len() && #[trigger] list[j2].0 == e2;
        if j2 >= j {
            if j2 > j {
                assert(list[j].0 > list[j2].0);
            }
        }
        assert(list[j2].1 == list[j].1);
    }
}


/// The attributes of the nodes and edges of a relaxation that the forward and backward passes
/// of SRMP use: which edges are forward, backward or update the lower bound, which nodes update
/// the lower bound, and the weights of the nodes.
pub struct NodeEdgeAttrs {
    edge_is_forward: BitStorage,
    edge_is_backward: BitStorage,
    edge_is_update_lb: BitStorage,
    node_is_update_lb: BitStorage,
    node_weight_forward: Vec<usize>,
    node_weight_backward: Vec<usize>,
    node_weight_update_lb: Vec<usize>,
}

impl NodeEdgeAttrs {
    pub closed spec fn spec_edge_is_forward(&self) -> Seq<bool> {
        bits(self.edge_is_forward)
    }

    pub closed spec fn spec_edge_is_backward(&self) -> Seq<bool> {
        bits(self.edge_is_backward)
    }

    pub closed spec fn spec_edge_is_update_lb(&self) -> Seq<bool> {
        bits(self.edge_is_update_lb)
    }

    pub closed spec fn spec_node_is_update_lb(&self) -> Seq<bool> {
        bits(self.node_is_update_lb)
    }

    pub closed spec fn spec_node_weight_forward(&self) -> Seq<usize> {
        self.node_weight_forward@
    }

    pub closed spec fn spec_node_weight_backward(&self) -> Seq<usize> {
        self.node_weight_backward@
    }

    pub closed spec fn spec_node_weight_update_lb(&self) -> Seq<usize> {
        self.node_weight_update_lb@
    }

    /// The attributes cover `num_nodes` nodes and `num_edges` edges.
    pub open spec fn sized(&self, num_nodes: nat, num_edges: nat) -> bool {
        &&& self.spec_edge_is_forward().len() == num_edges
        &&& self.spec_edge_is_backward().len() == num_edges
        &&& self.spec_edge_is_update_lb().len() == num_edges
        &&& self.spec_node_is_update_lb().len() == num_nodes
        &&& self.spec_node_weight_forward().len() == num_nodes
        &&& self.spec_node_weight_backward().len() == num_nodes
        &&& self.spec_node_weight_update_lb().len() == num_nodes
    }

    /// Each edge entering a node of `seq` is labeled backward (or else as updating the lower
    /// bound) and forward as the scans of `seq` decide; the other edges have no label.
    pub open spec fn edge_labels_hold(&self, seq: Seq<usize>, ends: Seq<(usize, usize)>) -> bool {
        &&& forall|q: int, e: int|
            0 <= q < seq.len() && 0 <= e < ends.len() && #[trigger] ends[e].1 == #[trigger] seq[q] ==> {
                &&& self.spec_edge_is_backward()[e] == backward_label(seq, ends, q, e)
                &&& self.spec_edge_is_update_lb()[e] == !backward_label(seq, ends, q, e)
                &&& self.spec_edge_is_forward()[e] == forward_label(seq, ends, q, e)
            }
        &&& forall|e: int|
            0 <= e < ends.len() && !processed(seq, seq.len() as int, #[trigger] ends[e].1) ==> {
                &&& !self.spec_edge_is_backward()[e]
                &&& !self.spec_edge_is_update_lb()[e]
                &&& !self.spec_edge_is_forward()[e]
            }
    }

    /// Each node of `seq` has the weights and the lower-bound flag that its edges give it;
    /// the other nodes have none.
    pub open spec fn node_attrs_hold(&self, seq: Seq<usize>, ends: Seq<(usize, usize)>, nodes: Seq<FactorOrigin>) -> bool {
        &&& forall|q: int| 0 <= q < seq.len() ==> self.node_attrs_at(seq, ends, nodes, q)
        &&& forall|x: int|
            0 <= x < nodes.len() && !processed(seq, seq.len() as int, x as usize) ==> {
                &&& !#[trigger] self.spec_node_is_update_lb()[x]
                &&& self.spec_node_weight_forward()[x] == 0
                &&& self.spec_node_weight_backward()[x] == 0
                &&& self.spec_node_weight_update_lb()[x] == 0
            }
    }

    /// The node at position `q` of `seq` has the weights and the lower-bound flag that its edges
    /// give it.
    pub open spec fn node_attrs_at(&self, seq: Seq<usize>, ends: Seq<(usize, usize)>, nodes: Seq<FactorOrigin>, q: int) -> bool {
        let alpha = seq[q];
        let in_list = incident_edges(ends, alpha, true);
        let out_list = incident_edges(ends, alpha, false);
        let in_fwd = count_edges(in_list, forward_marked(seq, ends, q));
        let in_bwd = count_edges(in_list, backward_marked(seq, ends, q));
        let out_fwd = count_edges(out_list, target_reached(seq, q, false));
        let out_bwd = count_edges(out_list, target_reached(seq, q, true));
        let wb = self.spec_node_weight_backward()[alpha as int];
        &&& self.spec_node_weight_forward()[alpha as int] == node_weight(in_list.len() as int, in_fwd as int, out_fwd as int)
        &&& wb == node_weight(in_list.len() as int, in_bwd as int, out_bwd as int)
        &&& self.spec_node_is_update_lb()[alpha as int] == ((!touched_between(seq, ends, 0, q, alpha)
            || nodes[alpha as int] is Variable) && wb > 0)
        &&& self.spec_node_weight_update_lb()[alpha as int] == wb - in_bwd
    }

    /// Whether edge `e` is a forward edge.
    pub fn edge_is_forward(&self, e: usize) -> (b: bool)
        requires
            e < self.spec_edge_is_forward().len(),
        ensures
            b == self.spec_edge_is_forward()[e as int],
    {
        *bitvec_index(&self.edge_is_forward, e)
    }

    /// Whether edge `e` is a backward edge.
    pub fn edge_is_backward(&self, e: usize) -> (b: bool)
        requires
            e < self.spec_edge_is_backward().len(),
        ensures
            b == self.spec_edge_is_backward()[e as int],
    {
        *bitvec_index(&self.edge_is_backward, e)
    }

    /// Whether the lower bound is updated through edge `e` in the backward pass.
    pub fn edge_is_update_lb(&self, e: usize) -> (b: bool)
        requires
            e < self.spec_edge_is_update_lb().len(),
        ensures
            b == self.spec_edge_is_update_lb()[e as int],
    {
        *bitvec_index(&self.edge_is_update_lb, e)
    }

    /// Whether the lower bound is updated through node `x` in the backward pass.
    pub fn node_is_update_lb(&self, x: usize) -> (b: bool)
        requires
            x < self.spec_node_is_update_lb().len(),
        ensures
            b == self.spec_node_is_update_lb()[x as int],
    {
        *bitvec_index(&self.node_is_update_lb, x)
    }

    /// The weight of node `x` in the forward pass.
    pub fn node_weight_forward(&self, x: usize) -> (w: usize)
        requires
            x < self.spec_node_weight_forward().len(),
        ensures
            w == self.spec_node_weight_forward()[x as int],
    {
        self.node_weight_forward[x]
    }

    /// The weight of node `x` in the backward pass.
    pub fn node_weight_backward(&self, x: usize) -> (w: usize)
        requires
            x < self.spec_node_weight_backward().len(),
        ensures
            w == self.spec_node_weight_backward()[x as int],
    {
        self.node_weight_backward[x]
    }

    /// The weight of node `x` for updating the lower bound in the backward pass.
    pub fn node_weight_update_lb(&self, x: usize) -> (w: usize)
        requires
            x < self.spec_node_weight_update_lb().len(),
        ensures
            w == self.spec_node_weight_update_lb()[x as int],
    {
        self.node_weight_update_lb[x]
    }

    /// All attributes false or zero, for `num_nodes` nodes and `num_edges` edges.
    pub fn zero(num_nodes: usize, num_edges: usize) -> (attrs: Self)
        requires
            num_nodes <= max_bits(),
            num_edges <= max_bits(),
        ensures
            attrs.spec_edge_is_forward() == Seq::new(num_edges as nat, |i: int| false),
            attrs.spec_edge_is_backward() == Seq::new(num_edges as nat, |i: int| false),
            attrs.spec_edge_is_update_lb() == Seq::new(num_edges as nat, |i: int| false),
            attrs.spec_node_is_update_lb() == Seq::new(num_nodes as nat, |i: int| false),
            attrs.spec_node_weight_forward() == Seq::new(num_nodes as nat, |i: int| 0usize),
            attrs.spec_node_weight_backward() == Seq::new(num_nodes as nat, |i: int| 0usize),
            attrs.spec_node_weight_update_lb() == Seq::new(num_nodes as nat, |i: int| 0usize),
    {
        let attrs = NodeEdgeAttrs {
            edge_is_forward: bitvec_repeat(false, num_edges),
            edge_is_backward: bitvec_repeat(false, num_edges),
            edge_is_update_lb: bitvec_repeat(false, num_edges),
            node_is_update_lb: bitvec_repeat(false, num_nodes),
            node_weight_forward: vec![0; num_nodes],
            node_weight_backward: vec![0; num_nodes],
            node_weight_update_lb: vec![0; num_nodes],
        };
        assert(attrs.node_weight_forward@ =~= Seq::new(num_nodes as nat, |i: int| 0usize));
        assert(attrs.node_weight_backward@ =~= Seq::new(num_nodes as nat, |i: int| 0usize));
        assert(attrs.node_weight_update_lb@ =~= Seq::new(num_nodes as nat, |i: int| 0usize));
        attrs
    }

    /// Labels the backward edges and the edges that update the lower bound, scanning the
    /// sequence forward, and flags the nodes that update the lower bound: a node not met before
    /// or unary.
    fn label_backward<T>(&mut self, relaxation: &Relaxation<T>, factor_sequence: &FactorSequence)
        requires
            relaxation.wf(),
            relaxation.nodes().len() <= max_bits(),
            bits(old(self).edge_is_backward) == Seq::new(relaxation.ends().len(), |i: int| false),
            bits(old(self).edge_is_update_lb) == Seq::new(relaxation.ends().len(), |i: int| false),
            bits(old(self).node_is_update_lb) == Seq::new(relaxation.nodes().len(), |i: int| false),
            forall|i: int| 0 <= i < factor_sequence.spec_sequence().len() ==> #[trigger] factor_sequence.spec_sequence()[i]
                < relaxation.nodes().len(),
        ensures
            final(self).edge_is_forward == old(self).edge_is_forward,
            final(self).node_weight_forward == old(self).node_weight_forward,
            final(self).node_weight_backward == old(self).node_weight_backward,
            final(self).node_weight_update_lb == old(self).node_weight_update_lb,
            ({
                let seq = factor_sequence.spec_sequence();
                let ends = relaxation.ends();
                &&& bits(final(self).edge_is_backward).len() == ends.len()
                &&& bits(final(self).edge_is_update_lb).len() == ends.len()
                &&& bits(final(self).node_is_update_lb).len() == relaxation.nodes().len()
                &&& forall|q: int, e: int|
                    0 <= q < seq.len() && 0 <= e < ends.len() && #[trigger] ends[e].1 == #[trigger] seq[q] ==> {
                        &&& bits(final(self).edge_is_backward)[e] == backward_label(seq, ends, q, e)
                        &&& bits(final(self).edge_is_update_lb)[e] == !backward_label(seq, ends, q, e)
                    }
                &&& forall|e: int|
                    0 <= e < ends.len() && !processed(seq, seq.len() as int, #[trigger] ends[e].1) ==> {
                        &&& !bits(final(self).edge_is_backward)[e]
                        &&& !bits(final(self).edge_is_update_lb)[e]
                    }
                &&& forall|q: int|
                    0 <= q < seq.len() ==> bits(final(self).node_is_update_lb)[#[trigger] seq[q] as int] == (
                    !touched_between(seq, ends, 0, q, seq[q]) || relaxation.nodes()[seq[q] as int] is Variable)
                &&& forall|x: int|
                    0 <= x < relaxation.nodes().len() && !processed(seq, seq.len() as int, x as usize)
                        ==> !#[trigger] bits(final(self).node_is_update_lb)[x]
            }),
    {
        proof {
            use_type_invariant(factor_sequence);
        }
        let n = relaxation.node_count();
        let m = relaxation.edge_count();
        let sequence = factor_sequence.iter();
        let ghost seq = sequence@;
        let ghost ends = relaxation.ends();
        let ghost nodes = relaxation.nodes();
        let mut touched = bitvec_repeat(false, n);
        for p in 0..sequence.len()
            invariant
                n == nodes.len(),
                m == ends.len(),
                nodes == relaxation.nodes(),
                ends == relaxation.ends(),
                seq == sequence@,
                relaxation.wf(),
                strictly_increasing_nodes(seq),
                forall|i: int| 0 <= i < seq.len() ==> #[trigger] seq[i] < n,
                self.edge_is_forward == old(self).edge_is_forward,
                self.node_weight_forward == old(self).node_weight_forward,
                self.node_weight_backward == old(self).node_weight_backward,
                self.node_weight_update_lb == old(self).node_weight_update_lb,
                bits(touched).len() == n,
                bits(self.edge_is_backward).len() == m,
                bits(self.edge_is_update_lb).len() == m,
                bits(self.node_is_update_lb).len() == n,
                forall|x: int| 0 <= x < n ==> #[trigger] bits(touched)[x] == touched_between(seq, ends, 0, p as int, x as usize),
                forall|q: int, e: int|
                    0 <= q < p && 0 <= e < m && #[trigger] ends[e].1 == #[trigger] seq[q] ==> {
                        &&& bits(self.edge_is_backward)[e] == backward_label(seq, ends, q, e)
                        &&& bits(self.edge_is_update_lb)[e] == !backward_label(seq, ends, q, e)
                    },
                forall|e: int|
                    0 <= e < m && !processed(seq, p as int, #[trigger] ends[e].1) ==> {
                        &&& !bits(self.edge_is_backward)[e]
                        &&& !bits(self.edge_is_update_lb)[e]
                    },
                forall|q: int|
                    0 <= q < p ==> bits(self.node_is_update_lb)[#[trigger] seq[q] as int] == (!touched_between(
                        seq,
                        ends,
                        0,
                        q,
                        seq[q],
                    ) || nodes[seq[q] as int] is Variable),
                forall|x: int| 0 <= x < n && !processed(seq, p as int, x as usize) ==> !#[trigger] bits(self.node_is_update_lb)[x],
        {
            let alpha = sequence[p];
            let unary = relaxation.is_unary_factor(alpha);
            let alpha_touched = *bitvec_index(&touched, alpha);
            let ghost flags_before = bits(self.node_is_update_lb);
            bitvec_set(&mut self.node_is_update_lb, alpha, !alpha_touched || unary);
            bitvec_set(&mut touched, alpha, true);
            proof {
                assert forall|q: int| 0 <= q < p + 1 implies bits(self.node_is_update_lb)[#[trigger] seq[q] as int]
                    == (!touched_between(seq, ends, 0, q, seq[q]) || nodes[seq[q] as int] is Variable) by {
                    if q < p {
                        assert(seq[q] < seq[p as int]);
                    }
                }
                assert forall|x: int| 0 <= x < n && !processed(seq, p + 1, x as usize) implies !#[trigger] bits(
                    self.node_is_update_lb,
                )[x] by {
                    assert(seq[p as int] != x as usize);
                    assert(!processed(seq, p as int, x as usize));
                }
            }
            let in_edges = relaxation.edges_directed(alpha, EdgeDirection::Incoming);
            let ghost list = in_edges@;
            proof {
                lemma_incident_edges(ends, alpha, true);
            }
            for j in 0..in_edges.len()
                invariant
                    n == nodes.len(),
                    m == ends.len(),
                    nodes == relaxation.nodes(),
                    ends == relaxation.ends(),
                    seq == sequence@,
                    relaxation.wf(),
                    strictly_increasing_nodes(seq),
                    forall|i: int| 0 <= i < seq.len() ==> #[trigger] seq[i] < n,
                    0 <= p < seq.len(),
                    alpha == seq[p as int],
                    list == in_edges@,
                    list == incident_edges(ends, alpha, true),
                    self.edge_is_forward == old(self).edge_is_forward,
                    self.node_weight_forward == old(self).node_weight_forward,
                    self.node_weight_backward == old(self).node_weight_backward,
                    self.node_weight_update_lb == old(self).node_weight_update_lb,
                    bits(touched).len() == n,
                    bits(self.edge_is_backward).len() == m,
                    bits(self.edge_is_update_lb).len() == m,
                    bits(self.node_is_update_lb).len() == n,
                    forall|x: int|
                        0 <= x < n ==> #[trigger] bits(touched)[x] == (touched_between(seq, ends, 0, p as int, x as usize)
                            || x == alpha || exists|j2: int| 0 <= j2 < j && #[trigger] list[j2].1 == x),
                    forall|q: int, e: int|
                        0 <= q < p && 0 <= e < m && #[trigger] ends[e].1 == #[trigger] seq[q] ==> {
                            &&& bits(self.edge_is_backward)[e] == backward_label(seq, ends, q, e)
                            &&& bits(self.edge_is_update_lb)[e] == !backward_label(seq, ends, q, e)
                        },
                    forall|j2: int|
                        0 <= j2 < j ==> {
                            let e = (#[trigger] list[j2]).0 as int;
                            &&& bits(self.edge_is_backward)[e] == backward_label(seq, ends, p as int, e)
                            &&& bits(self.edge_is_update_lb)[e] == !backward_label(seq, ends, p as int, e)
                        },
                    forall|e: int|
                        0 <= e < m && !processed(seq, p as int, #[trigger] ends[e].1) && (ends[e].1 != alpha || !exists|j2: int|
                            0 <= j2 < j && #[trigger] list[j2].0 == e) ==> {
                            &&& !bits(self.edge_is_backward)[e]
                            &&& !bits(self.edge_is_update_lb)[e]
                        },
                    forall|q: int|
                        0 <= q < p + 1 ==> bits(self.node_is_update_lb)[#[trigger] seq[q] as int] == (!touched_between(
                            seq,
                            ends,
                            0,
                            q,
                            seq[q],
                        ) || nodes[seq[q] as int] is Variable),
                    forall|x: int|
                        0 <= x < n && !processed(seq, p + 1, x as usize) ==> !#[trigger] bits(self.node_is_update_lb)[x],
            {
                proof {
                    lemma_incident_edges(ends, alpha, true);
                    relaxation.lemma_wf();
                }
                let (alpha_beta, beta, target) = in_edges[j];
                assert(list[j as int] == (alpha_beta, beta, target));
                let beta_touched = *bitvec_index(&touched, beta);
                proof {
                    lemma_twin_in_list(ends, alpha, j as int);
                    assert(ends[alpha_beta as int] == (beta, alpha));
                    assert(beta_touched == backward_label(seq, ends, p as int, alpha_beta as int));
                }
                let ghost bwd_before = bits(self.edge_is_backward);
                let ghost upd_before = bits(self.edge_is_update_lb);
                bitvec_set(&mut self.edge_is_backward, alpha_beta, beta_touched);
                bitvec_set(&mut self.edge_is_update_lb, alpha_beta, !beta_touched);
                bitvec_set(&mut touched, beta, true);
                proof {
                    assert forall|x: int| 0 <= x < n implies #[trigger] bits(touched)[x] == (touched_between(
                        seq,
                        ends,
                        0,
                        p as int,
                        x as usize,
                    ) || x == alpha || exists|j2: int| 0 <= j2 < j + 1 && #[trigger] list[j2].1 == x) by {
                        if x == beta {
                            assert(list[j as int].1 == x);
                        }
                    }
                    assert forall|q: int, e: int|
                        0 <= q < p && 0 <= e < m && #[trigger] ends[e].1 == #[trigger] seq[q] implies {
                            &&& bits(self.edge_is_backward)[e] == backward_label(seq, ends, q, e)
                            &&& bits(self.edge_is_update_lb)[e] == !backward_label(seq, ends, q, e)
                        } by {
                        assert(seq[q] < seq[p as int]);
                        assert(e != alpha_beta);
                    }
                    assert forall|j2: int| 0 <= j2 < j + 1 implies {
                        let e = (#[trigger] list[j2]).0 as int;
                        &&& bits(self.edge_is_backward)[e] == backward_label(seq, ends, p as int, e)
                        &&& bits(self.edge_is_update_lb)[e] == !backward_label(seq, ends, p as int, e)
                    } by {
                        if j2 < j {
                            assert(list[j2].0 > list[j as int].0);
                        }
                    }
                    assert forall|e: int|
                        0 <= e < m && !processed(seq, p as int, #[trigger] ends[e].1) && (ends[e].1 != alpha || !exists|j2: int|
                            0 <= j2 < j + 1 && #[trigger] list[j2].0 == e) implies {
                            &&& !bits(self.edge_is_backward)[e]
                            &&& !bits(self.edge_is_update_lb)[e]
                        } by {
                        if e == alpha_beta {
                            assert(list[j as int].0 == e);
                        }
                    }
                }
            }
            proof {
                lemma_incident_edges(ends, alpha, true);
                assert forall|x: int| 0 <= x < n implies #[trigger] bits(touched)[x] == touched_between(
                    seq,
                    ends,
                    0,
                    p + 1,
                    x as usize,
                ) by {
                    let b = touched_between(seq, ends, 0, p as int, x as usize) || x == alpha || exists|j2: int|
                        0 <= j2 < list.len() && #[trigger] list[j2].1 == x;
                    if touched_between(seq, ends, 0, p + 1, x as usize) {
                        let q = choose|q: int| 0 <= q < p + 1 && (#[trigger] seq[q] == x as usize || enters(ends, x as usize, seq[q]));
                        if q == p && seq[q] != x as usize {
                            let e = choose|e: int| 0 <= e < ends.len() && #[trigger] ends[e] == (x as usize, seq[q]);
                            assert(is_incident(ends[e], alpha, true));
                            let j2 = choose|j2: int| 0 <= j2 < list.len() && #[trigger] list[j2].0 == e;
                            assert(list[j2].1 == x);
                        }
                        if q < p {
                            assert(touched_between(seq, ends, 0, p as int, x as usize));
                        }
                    }
                    if b {
                        if x == alpha {
                            assert(seq[p as int] == x as usize);
                        } else if exists|j2: int| 0 <= j2 < list.len() && #[trigger] list[j2].1 == x {
                            let j2 = choose|j2: int| 0 <= j2 < list.len() && #[trigger] list[j2].1 == x;
                            assert(ends[list[j2].0 as int] == (x as usize, alpha));
                            assert(enters(ends, x as usize, seq[p as int]));
                        } else {
                            let q = choose|q: int| 0 <= q < p && (#[trigger] seq[q] == x as usize || enters(ends, x as usize, seq[q]));
                            assert(0 <= q < p + 1);
                        }
                    }
                }
                assert forall|q: int, e: int|
                    0 <= q < p + 1 && 0 <= e < m && #[trigger] ends[e].1 == #[trigger] seq[q] implies {
                        &&& bits(self.edge_is_backward)[e] == backward_label(seq, ends, q, e)
                        &&& bits(self.edge_is_update_lb)[e] == !backward_label(seq, ends, q, e)
                    } by {
                    if q == p {
                        assert(is_incident(ends[e], alpha, true));
                        let j2 = choose|j2: int| 0 <= j2 < list.len() && #[trigger] list[j2].0 == e;
                    }
                }
                assert forall|e: int| 0 <= e < m && !processed(seq, p + 1, #[trigger] ends[e].1) implies {
                    &&& !bits(self.edge_is_backward)[e]
                    &&& !bits(self.edge_is_update_lb)[e]
                } by {
                    assert(ends[e].1 != seq[p as int]);
                    assert(!processed(seq, p as int, ends[e].1));
                }
            }
        }
    }

    /// Labels the forward edges, scanning the sequence backward.
    fn label_forward<T>(&mut self, relaxation: &Relaxation<T>, factor_sequence: &FactorSequence)
        requires
            relaxation.wf(),
            relaxation.nodes().len() <= max_bits(),
            bits(old(self).edge_is_forward) == Seq::new(relaxation.ends().len(), |i: int| false),
            forall|i: int| 0 <= i < factor_sequence.spec_sequence().len() ==> #[trigger] factor_sequence.spec_sequence()[i]
                < relaxation.nodes().len(),
        ensures
            final(self).edge_is_backward == old(self).edge_is_backward,
            final(self).edge_is_update_lb == old(self).edge_is_update_lb,
            final(self).node_is_update_lb == old(self).node_is_update_lb,
            final(self).node_weight_forward == old(self).node_weight_forward,
            final(self).node_weight_backward == old(self).node_weight_backward,
            final(self).node_weight_update_lb == old(self).node_weight_update_lb,
            ({
                let seq = factor_sequence.spec_sequence();
                let ends = relaxation.ends();
                &&& bits(final(self).edge_is_forward).len() == ends.len()
                &&& forall|q: int, e: int|
                    0 <= q < seq.len() && 0 <= e < ends.len() && #[trigger] ends[e].1 == #[trigger] seq[q]
                        ==> bits(final(self).edge_is_forward)[e] == forward_label(seq, ends, q, e)
                &&& forall|e: int|
                    0 <= e < ends.len() && !processed(seq, seq.len() as int, #[trigger] ends[e].1)
                        ==> !bits(final(self).edge_is_forward)[e]
            }),
    {
        proof {
            use_type_invariant(factor_sequence);
        }
        let n = relaxation.node_count();
        let m = relaxation.edge_count();
        let sequence = factor_sequence.iter();
        let ghost seq = sequence@;
        let ghost ends = relaxation.ends();
        let ghost nodes = relaxation.nodes();
        let len = sequence.len();
        let mut touched = bitvec_repeat(false, n);
        let mut p = len;
        while p > 0
            invariant
                n == nodes.len(),
                m == ends.len(),
                len == seq.len(),
                nodes == relaxation.nodes(),
                ends == relaxation.ends(),
                seq == sequence@,
                relaxation.wf(),
                strictly_increasing_nodes(seq),
                forall|i: int| 0 <= i < seq.len() ==> #[trigger] seq[i] < n,
                p <= len,
                self.edge_is_backward == old(self).edge_is_backward,
                self.edge_is_update_lb == old(self).edge_is_update_lb,
                self.node_is_update_lb == old(self).node_is_update_lb,
                self.node_weight_forward == old(self).node_weight_forward,
                self.node_weight_backward == old(self).node_weight_backward,
                self.node_weight_update_lb == old(self).node_weight_update_lb,
                bits(touched).len() == n,
                bits(self.edge_is_forward).len() == m,
                forall|x: int| 0 <= x < n ==> #[trigger] bits(touched)[x] == touched_between(seq, ends, p as int, len as int, x as usize),
                forall|q: int, e: int|
                    p <= q < len && 0 <= e < m && #[trigger] ends[e].1 == #[trigger] seq[q] ==> bits(
                        self.edge_is_forward,
                    )[e] == forward_label(seq, ends, q, e),
                forall|e: int| 0 <= e < m && !processed_from(seq, p as int, #[trigger] ends[e].1) ==> !bits(self.edge_is_forward)[e],
            decreases p,
        {
            p = p - 1;
            let alpha = sequence[p];
            bitvec_set(&mut touched, alpha, true);
            let in_edges = relaxation.edges_directed(alpha, EdgeDirection::Incoming);
            let ghost list = in_edges@;
            for j in 0..in_edges.len()
                invariant
                    n == nodes.len(),
                    m == ends.len(),
                    len == seq.len(),
                    nodes == relaxation.nodes(),
                    ends == relaxation.ends(),
                    seq == sequence@,
                    relaxation.wf(),
                    strictly_increasing_nodes(seq),
                    forall|i: int| 0 <= i < seq.len() ==> #[trigger] seq[i] < n,
                    0 <= p < len,
                    alpha == seq[p as int],
                    list == in_edges@,
                    list == incident_edges(ends, alpha, true),
                    self.edge_is_backward == old(self).edge_is_backward,
                    self.edge_is_update_lb == old(self).edge_is_update_lb,
                    self.node_is_update_lb == old(self).node_is_update_lb,
                    self.node_weight_forward == old(self).node_weight_forward,
                    self.node_weight_backward == old(self).node_weight_backward,
                    self.node_weight_update_lb == old(self).node_weight_update_lb,
                    bits(touched).len() == n,
                    bits(self.edge_is_forward).len() == m,
                    forall|x: int|
                        0 <= x < n ==> #[trigger] bits(touched)[x] == (touched_between(seq, ends, p + 1, len as int, x as usize)
                            || x == alpha || exists|j2: int| 0 <= j2 < j && #[trigger] list[j2].1 == x),
                    forall|q: int, e: int|
                        p < q < len && 0 <= e < m && #[trigger] ends[e].1 == #[trigger] seq[q] ==> bits(
                            self.edge_is_forward,
                        )[e] == forward_label(seq, ends, q, e),
                    forall|j2: int|
                        0 <= j2 < j ==> bits(self.edge_is_forward)[(#[trigger] list[j2]).0 as int] == forward_label(
                            seq,
                            ends,
                            p as int,
                            list[j2].0 as int,
                        ),
                    forall|e: int|
                        0 <= e < m && !processed_from(seq, p + 1, #[trigger] ends[e].1) && (ends[e].1 != alpha || !exists|j2: int|
                            0 <= j2 < j && #[trigger] list[j2].0 == e) ==> !bits(self.edge_is_forward)[e],
            {
                proof {
                    lemma_incident_edges(ends, alpha, true);
                    relaxation.lemma_wf();
                }
                let (alpha_beta, beta, target) = in_edges[j];
                assert(list[j as int] == (alpha_beta, beta, target));
                let beta_touched = *bitvec_index(&touched, beta);
                proof {
                    lemma_twin_in_list(ends, alpha, j as int);
                    assert(ends[alpha_beta as int] == (beta, alpha));
                    assert(beta_touched == forward_label(seq, ends, p as int, alpha_beta as int));
                }
                bitvec_set(&mut self.edge_is_forward, alpha_beta, beta_touched);
                bitvec_set(&mut touched, beta, true);
                proof {
                    assert forall|x: int| 0 <= x < n implies #[trigger] bits(touched)[x] == (touched_between(
                        seq,
                        ends,
                        p + 1,
                        len as int,
                        x as usize,
                    ) || x == alpha || exists|j2: int| 0 <= j2 < j + 1 && #[trigger] list[j2].1 == x) by {
                        if x == beta {
                            assert(list[j as int].1 == x);
                        }
                    }
                    assert forall|q: int, e: int|
                        p < q < len && 0 <= e < m && #[trigger] ends[e].1 == #[trigger] seq[q] implies bits(
                            self.edge_is_forward,
                        )[e] == forward_label(seq, ends, q, e) by {
                        assert(seq[q] > seq[p as int]);
                        assert(e != alpha_beta);
                    }
                    assert forall|j2: int| 0 <= j2 < j + 1 implies bits(self.edge_is_forward)[(#[trigger] list[j2]).0 as int]
                        == forward_label(seq, ends, p as int, list[j2].0 as int) by {
                        if j2 < j {
                            assert(list[j2].0 > list[j as int].0);
                        }
                    }
                    assert forall|e: int|
                        0 <= e < m && !processed_from(seq, p + 1, #[trigger] ends[e].1) && (ends[e].1 != alpha || !exists|j2: int|
                            0 <= j2 < j + 1 && #[trigger] list[j2].0 == e) implies !bits(self.edge_is_forward)[e] by {
                        if e == alpha_beta {
                            assert(list[j as int].0 == e);
                        }
                    }
                }
            }
            proof {
                lemma_incident_edges(ends, alpha, true);
                assert forall|x: int| 0 <= x < n implies #[trigger] bits(touched)[x] == touched_between(
                    seq,
                    ends,
                    p as int,
                    len as int,
                    x as usize,
                ) by {
                    let b = touched_between(seq, ends, p + 1, len as int, x as usize) || x == alpha || exists|j2: int|
                        0 <= j2 < list.len() && #[trigger] list[j2].1 == x;
                    if touched_between(seq, ends, p as int, len as int, x as usize) {
                        let q = choose|q: int| p <= q < len && (#[trigger] seq[q] == x as usize || enters(ends, x as usize, seq[q]));
                        if q == p && seq[q] != x as usize {
                            let e = choose|e: int| 0 <= e < ends.len() && #[trigger] ends[e] == (x as usize, seq[q]);
                            assert(is_incident(ends[e], alpha, true));
                            let j2 = choose|j2: int| 0 <= j2 < list.len() && #[trigger] list[j2].0 == e;
                            assert(list[j2].1 == x);
                        }
                        if q > p {
                            assert(touched_between(seq, ends, p + 1, len as int, x as usize));
                        }
                    }
                    if b {
                        if x == alpha {
                            assert(seq[p as int] == x as usize);
                        } else if exists|j2: int| 0 <= j2 < list.len() && #[trigger] list[j2].1 == x {
                            let j2 = choose|j2: int| 0 <= j2 < list.len() && #[trigger] list[j2].1 == x;
                            assert(ends[list[j2].0 as int] == (x as usize, alpha));
                            assert(enters(ends, x as usize, seq[p as int]));
                        } else {
                            let q = choose|q: int| p + 1 <= q < len && (#[trigger] seq[q] == x as usize || enters(ends, x as usize, seq[q]));
                            assert(p <= q < len);
                        }
                    }
                }
                assert forall|q: int, e: int|
                    p <= q < len && 0 <= e < m && #[trigger] ends[e].1 == #[trigger] seq[q] implies bits(
                        self.edge_is_forward,
                    )[e] == forward_label(seq, ends, q, e) by {
                    if q == p {
                        assert(is_incident(ends[e], alpha, true));
                        let j2 = choose|j2: int| 0 <= j2 < list.len() && #[trigger] list[j2].0 == e;
                    }
                }
                assert forall|e: int| 0 <= e < m && !processed_from(seq, p as int, #[trigger] ends[e].1) implies !bits(
                    self.edge_is_forward,
                )[e] by {
                    assert(ends[e].1 != seq[p as int]);
                    assert(!processed_from(seq, p + 1, ends[e].1));
                }
            }
        }
        proof {
            assert forall|e: int| 0 <= e < m && !processed(seq, seq.len() as int, #[trigger] ends[e].1) implies !bits(
                self.edge_is_forward,
            )[e] by {
                if processed_from(seq, 0, ends[e].1) {
                    let q = choose|q: int| 0 <= q < seq.len() && #[trigger] seq[q] == ends[e].1;
                }
            }
        }
    }

    /// Computes the weights of the nodes of the sequence and settles which of them update the
    /// lower bound, from the labels of the edges.
    #[verifier::rlimit(60)]
    fn compute_weights<T>(&mut self, relaxation: &Relaxation<T>, factor_sequence: &FactorSequence)
        requires
            relaxation.wf(),
            relaxation.nodes().len() <= max_bits(),
            forall|i: int| 0 <= i < factor_sequence.spec_sequence().len() ==> #[trigger] factor_sequence.spec_sequence()[i]
                < relaxation.nodes().len(),
            bits(old(self).edge_is_forward).len() == relaxation.ends().len(),
            bits(old(self).edge_is_backward).len() == relaxation.ends().len(),
            bits(old(self).node_is_update_lb).len() == relaxation.nodes().len(),
            old(self).node_weight_forward@.len() == relaxation.nodes().len(),
            old(self).node_weight_backward@.len() == relaxation.nodes().len(),
            old(self).node_weight_update_lb@.len() == relaxation.nodes().len(),
        ensures
            final(self).edge_is_forward == old(self).edge_is_forward,
            final(self).edge_is_backward == old(self).edge_is_backward,
            final(self).edge_is_update_lb == old(self).edge_is_update_lb,
            ({
                let seq = factor_sequence.spec_sequence();
                let ends = relaxation.ends();
                let fwd = bits(old(self).edge_is_forward);
                let bwd = bits(old(self).edge_is_backward);
                &&& bits(final(self).node_is_update_lb).len() == relaxation.nodes().len()
                &&& final(self).node_weight_forward@.len() == relaxation.nodes().len()
                &&& final(self).node_weight_backward@.len() == relaxation.nodes().len()
                &&& final(self).node_weight_update_lb@.len() == relaxation.nodes().len()
                &&& forall|q: int|
                    0 <= q < seq.len() ==> {
                        let alpha = #[trigger] seq[q];
                        let in_list = incident_edges(ends, alpha, true);
                        let out_list = incident_edges(ends, alpha, false);
                        let in_fwd = count_edges(in_list, edge_marked(fwd));
                        let in_bwd = count_edges(in_list, edge_marked(bwd));
                        let out_fwd = count_edges(out_list, target_reached(seq, q, false));
                        let out_bwd = count_edges(out_list, target_reached(seq, q, true));
                        let wb = final(self).node_weight_backward@[alpha as int];
                        &&& final(self).node_weight_forward@[alpha as int] == node_weight(in_list.len() as int, in_fwd as int, out_fwd as int)
                        &&& wb == node_weight(in_list.len() as int, in_bwd as int, out_bwd as int)
                        &&& bits(final(self).node_is_update_lb)[alpha as int] == (bits(old(self).node_is_update_lb)[alpha as int] && wb > 0)
                        &&& final(self).node_weight_update_lb@[alpha as int] == wb - in_bwd
                    }
                &&& forall|x: int|
                    0 <= x < relaxation.nodes().len() && !processed(seq, seq.len() as int, x as usize) ==> {
                        &&& #[trigger] bits(final(self).node_is_update_lb)[x] == bits(old(self).node_is_update_lb)[x]
                        &&& final(self).node_weight_forward@[x] == old(self).node_weight_forward@[x]
                        &&& final(self).node_weight_backward@[x] == old(self).node_weight_backward@[x]
                        &&& final(self).node_weight_update_lb@[x] == old(self).node_weight_update_lb@[x]
                    }
            }),
    {
        proof {
            use_type_invariant(factor_sequence);
        }
        let n = relaxation.node_count();
        let m = relaxation.edge_count();
        let sequence = factor_sequence.iter();
        let ghost seq = sequence@;
        let ghost ends = relaxation.ends();
        let ghost nodes = relaxation.nodes();
        let ghost fwd = bits(self.edge_is_forward);
        let ghost bwd = bits(self.edge_is_backward);
        let ghost flags = bits(self.node_is_update_lb);
        let ghost old_self = *self;
        let mut touched = bitvec_repeat(false, n);
        for p in 0..sequence.len()
            invariant
                n == nodes.len(),
                m == ends.len(),
                nodes == relaxation.nodes(),
                ends == relaxation.ends(),
                seq == sequence@,
                relaxation.wf(),
                strictly_increasing_nodes(seq),
                forall|i: int| 0 <= i < seq.len() ==> #[trigger] seq[i] < n,
                self.edge_is_forward == old_self.edge_is_forward,
                self.edge_is_backward == old_self.edge_is_backward,
                self.edge_is_update_lb == old_self.edge_is_update_lb,
                fwd == bits(self.edge_is_forward),
                bwd == bits(self.edge_is_backward),
                flags == bits(old_self.node_is_update_lb),
                flags.len() == n,
                old_self.node_weight_forward@.len() == n,
                old_self.node_weight_backward@.len() == n,
                old_self.node_weight_update_lb@.len() == n,
                fwd.len() == m,
                bwd.len() == m,
                bits(touched).len() == n,
                bits(self.node_is_update_lb).len() == n,
                self.node_weight_forward@.len() == n,
                self.node_weight_backward@.len() == n,
                self.node_weight_update_lb@.len() == n,
                forall|x: int| 0 <= x < n ==> #[trigger] bits(touched)[x] == processed(seq, p as int, x as usize),
                forall|q: int|
                    0 <= q < p ==> {
                        let alpha = #[trigger] seq[q];
                        let in_list = incident_edges(ends, alpha, true);
                        let out_list = incident_edges(ends, alpha, false);
                        let in_fwd = count_edges(in_list, edge_marked(fwd));
                        let in_bwd = count_edges(in_list, edge_marked(bwd));
                        let out_fwd = count_edges(out_list, target_reached(seq, q, false));
                        let out_bwd = count_edges(out_list, target_reached(seq, q, true));
                        let wb = self.node_weight_backward@[alpha as int];
                        &&& self.node_weight_forward@[alpha as int] == node_weight(in_list.len() as int, in_fwd as int, out_fwd as int)
                        &&& wb == node_weight(in_list.len() as int, in_bwd as int, out_bwd as int)
                        &&& bits(self.node_is_update_lb)[alpha as int] == (flags[alpha as int] && wb > 0)
                        &&& self.node_weight_update_lb@[alpha as int] == wb - in_bwd
                    },
                forall|x: int|
                    0 <= x < n && !processed(seq, p as int, x as usize) ==> #[trigger] bits(self.node_is_update_lb)[x]
                        == flags[x],
                forall|x: int|
                    0 <= x < n && !processed(seq, p as int, x as usize) ==> #[trigger] self.node_weight_forward@[x]
                        == old_self.node_weight_forward@[x],
                forall|x: int|
                    0 <= x < n && !processed(seq, p as int, x as usize) ==> #[trigger] self.node_weight_backward@[x]
                        == old_self.node_weight_backward@[x],
                forall|x: int|
                    0 <= x < n && !processed(seq, p as int, x as usize) ==> #[trigger] self.node_weight_update_lb@[x]
                        == old_self.node_weight_update_lb@[x],
        {
            let alpha = sequence[p];
            let ghost prev = *self;
            proof {
                relaxation.lemma_wf();
                lemma_incident_edges(ends, alpha, true);
                lemma_incident_edges(ends, alpha, false);
                crate::cfn::relaxation::lemma_incident_edges_count(ends, alpha);
            }
            bitvec_set(&mut touched, alpha, true);
            assert forall|x: int| 0 <= x < n implies #[trigger] bits(touched)[x] == processed(seq, p + 1, x as usize) by {
                if x == alpha {
                    assert(seq[p as int] == x as usize);
                } else if processed(seq, p + 1, x as usize) {
                    let q = choose|q: int| 0 <= q < p + 1 && #[trigger] seq[q] == x as usize;
                    assert(q != p);
                }
            }
            let (out_forward, out_backward) = count_out_edges(relaxation, alpha, &touched);
            let (in_total, in_forward, in_backward) = self.count_in_edges(relaxation, alpha);
            proof {
                let out_list = incident_edges(ends, alpha, false);
                lemma_count_edges_congruent(
                    out_list,
                    target_marked(bits(touched), false),
                    target_reached(seq, p as int, false),
                );
                lemma_count_edges_congruent(
                    out_list,
                    target_marked(bits(touched), true),
                    target_reached(seq, p as int, true),
                );
            }
            let mut weight_forward = (if in_total - in_forward >= in_forward {
                in_total - in_forward
            } else {
                in_forward
            }) + out_forward;
            if weight_forward == 0 && in_forward == 0 {
                weight_forward = 1;
            }
            let mut weight_backward = (if in_total - in_backward >= in_backward {
                in_total - in_backward
            } else {
                in_backward
            }) + out_backward;
            if weight_backward == 0 && in_backward == 0 {
                weight_backward = 1;
            }
            self.node_weight_forward.set(alpha, weight_forward);
            self.node_weight_backward.set(alpha, weight_backward);
            let update_lb = *bitvec_index(&self.node_is_update_lb, alpha) && weight_backward > 0;
            bitvec_set(&mut self.node_is_update_lb, alpha, update_lb);
            self.node_weight_update_lb.set(alpha, weight_backward - in_backward);
            proof {
                assert forall|q: int| 0 <= q < p + 1 implies {
                    let a = #[trigger] seq[q];
                    let il = incident_edges(ends, a, true);
                    let ol = incident_edges(ends, a, false);
                    let i_f = count_edges(il, edge_marked(fwd));
                    let i_b = count_edges(il, edge_marked(bwd));
                    let o_f = count_edges(ol, target_reached(seq, q, false));
                    let o_b = count_edges(ol, target_reached(seq, q, true));
                    let wb = self.node_weight_backward@[a as int];
                    &&& self.node_weight_forward@[a as int] == node_weight(il.len() as int, i_f as int, o_f as int)
                    &&& wb == node_weight(il.len() as int, i_b as int, o_b as int)
                    &&& bits(self.node_is_update_lb)[a as int] == (flags[a as int] && wb > 0)
                    &&& self.node_weight_update_lb@[a as int] == wb - i_b
                } by {
                    if q < p {
                        assert(seq[q] < seq[p as int]);
                    } else {
                        assert(!processed(seq, p as int, alpha)) by {
                            if processed(seq, p as int, alpha) {
                                let q2 = choose|q2: int| 0 <= q2 < p && #[trigger] seq[q2] == alpha;
                                assert(seq[q2] < seq[p as int]);
                            }
                        }
                    }
                }
                assert forall|x: int| 0 <= x < n && #[trigger] processed(seq, p + 1, x as usize) == false implies x != alpha as int
                    && !processed(seq, p as int, x as usize) by {
                    assert(seq[p as int] != x as usize);
                }
                assert forall|x: int| 0 <= x < n && !processed(seq, p + 1, x as usize) implies #[trigger] bits(
                    self.node_is_update_lb,
                )[x] == flags[x] by {
                    assert(bits(prev.node_is_update_lb)[x] == flags[x]);
                }
                assert forall|x: int| 0 <= x < n && !processed(seq, p + 1, x as usize) implies #[trigger] self.node_weight_forward@[x]
                    == old_self.node_weight_forward@[x] by {
                    assert(prev.node_weight_forward@[x] == old_self.node_weight_forward@[x]);
                }
                assert forall|x: int| 0 <= x < n && !processed(seq, p + 1, x as usize) implies #[trigger] self.node_weight_backward@[x]
                    == old_self.node_weight_backward@[x] by {
                    assert(prev.node_weight_backward@[x] == old_self.node_weight_backward@[x]);
                }
                assert forall|x: int| 0 <= x < n && !processed(seq, p + 1, x as usize) implies #[trigger] self.node_weight_update_lb@[x]
                    == old_self.node_weight_update_lb@[x] by {
                    assert(prev.node_weight_update_lb@[x] == old_self.node_weight_update_lb@[x]);
                }
            }
        }
    }

    /// Computes the attributes for `relaxation` and the factor sequence: scanning the sequence
    /// forward, an edge entering a node is backward when its source was met before (and
    /// updates the lower bound otherwise), and a node updates the lower bound when it was not
    /// met before or is unary; scanning it backward, an edge entering a node is forward when
    /// its source was met before. Each node of the sequence then gets a forward and a backward
    /// weight from the number of its entering edges, those labeled in that direction, and its
    /// leaving edges towards nodes not reached (forward) or reached (backward) in the sequence
    /// up to it. All other attributes stay false or zero.
    pub fn new<T>(relaxation: &Relaxation<T>, factor_sequence: &FactorSequence) -> (attrs: Self)
        requires
            relaxation.wf(),
            relaxation.nodes().len() <= max_bits(),
            relaxation.ends().len() <= max_bits(),
            forall|i: int| 0 <= i < factor_sequence.spec_sequence().len() ==> #[trigger] factor_sequence.spec_sequence()[i]
                < relaxation.nodes().len(),
        ensures
            attrs.sized(relaxation.nodes().len(), relaxation.ends().len()),
            attrs.edge_labels_hold(factor_sequence.spec_sequence(), relaxation.ends()),
            attrs.node_attrs_hold(factor_sequence.spec_sequence(), relaxation.ends(), relaxation.nodes()),
    {
        let mut attrs = NodeEdgeAttrs::zero(relaxation.node_count(), relaxation.edge_count());
        let ghost zeroed = attrs;
        attrs.label_backward(relaxation, factor_sequence);
        let ghost after_backward = attrs;
        attrs.label_forward(relaxation, factor_sequence);
        let ghost labeled = attrs;
        attrs.compute_weights(relaxation, factor_sequence);
        proof {
            let seq = factor_sequence.spec_sequence();
            let ends = relaxation.ends();
            let fwd = bits(labeled.edge_is_forward);
            let bwd = bits(labeled.edge_is_backward);
            assert forall|q: int| 0 <= q < seq.len() implies {
                let alpha = #[trigger] seq[q];
                let in_list = incident_edges(ends, alpha, true);
                &&& count_edges(in_list, edge_marked(fwd)) == count_edges(
                    in_list,
                    forward_marked(seq, ends, q),
                )
                &&& count_edges(in_list, edge_marked(bwd)) == count_edges(
                    in_list,
                    backward_marked(seq, ends, q),
                )
            } by {
                let alpha = seq[q];
                let in_list = incident_edges(ends, alpha, true);
                relaxation.lemma_wf();
                lemma_incident_edges(ends, alpha, true);
                assert forall|k: int| 0 <= k < in_list.len() implies ends[(#[trigger] in_list[k]).0 as int].1 == seq[q] by {}
                lemma_count_edges_congruent(
                    in_list,
                    edge_marked(fwd),
                    forward_marked(seq, ends, q),
                );
                lemma_count_edges_congruent(
                    in_list,
                    edge_marked(bwd),
                    backward_marked(seq, ends, q),
                );
            }
            let nodes = relaxation.nodes();
            assert forall|q: int| 0 <= q < seq.len() implies attrs.node_attrs_at(seq, ends, nodes, q) by {
                let alpha = seq[q];
                assert(bits(after_backward.node_is_update_lb)[alpha as int] == (!touched_between(seq, ends, 0, q, alpha)
                    || nodes[alpha as int] is Variable));
                assert(bits(labeled.node_is_update_lb)[alpha as int] == bits(after_backward.node_is_update_lb)[alpha as int]);
            }
            assert(attrs.sized(nodes.len(), ends.len()));
            assert(forall|q: int, e: int|
                    0 <= q < seq.len() && 0 <= e < ends.len() && #[trigger] ends[e].1 == #[trigger] seq[q] ==> {
                        &&& attrs.spec_edge_is_backward()[e] == backward_label(seq, ends, q, e)
                        &&& attrs.spec_edge_is_update_lb()[e] == !backward_label(seq, ends, q, e)
                        &&& attrs.spec_edge_is_forward()[e] == forward_label(seq, ends, q, e)
                    });
            assert(forall|e: int|
                    0 <= e < ends.len() && !processed(seq, seq.len() as int, #[trigger] ends[e].1) ==> {
                        &&& !attrs.spec_edge_is_backward()[e]
                        &&& !attrs.spec_edge_is_update_lb()[e]
                        &&& !attrs.spec_edge_is_forward()[e]
                    });
            assert forall|x: int|
                    0 <= x < nodes.len() && !processed(seq, seq.len() as int, x as usize) implies {
                        &&& !#[trigger] attrs.spec_node_is_update_lb()[x]
                        &&& attrs.spec_node_weight_forward()[x] == 0
                        &&& attrs.spec_node_weight_backward()[x] == 0
                        &&& attrs.spec_node_weight_update_lb()[x] == 0
                    } by {
                assert(!bits(after_backward.node_is_update_lb)[x]);
                assert(bits(labeled.node_is_update_lb)[x] == bits(after_backward.node_is_update_lb)[x]);
                assert(bits(attrs.node_is_update_lb)[x] == bits(labeled.node_is_update_lb)[x]);
                assert(zeroed.node_weight_forward@[x] == 0);
                assert(labeled.node_weight_forward@[x] == 0);
                assert(attrs.node_weight_forward@[x] == 0);
                assert(zeroed.node_weight_backward@[x] == 0);
                assert(zeroed.node_weight_update_lb@[x] == 0);
            }
            assert(attrs.node_attrs_hold(seq, ends, nodes));
        }
        attrs
    }

    /// Counts the edges entering `alpha`, those labeled forward and those labeled backward.
    fn count_in_edges<T>(&self, relaxation: &Relaxation<T>, alpha: usize) -> (counts: (usize, usize, usize))
        requires
            relaxation.wf(),
            alpha < relaxation.nodes().len(),
            bits(self.edge_is_forward).len() == relaxation.ends().len(),
            bits(self.edge_is_backward).len() == relaxation.ends().len(),
        ensures
            ({
                let in_list = incident_edges(relaxation.ends(), alpha, true);
                let fwd = bits(self.edge_is_forward);
                let bwd = bits(self.edge_is_backward);
                &&& counts.0 == in_list.len()
                &&& counts.1 == count_edges(in_list, edge_marked(fwd))
                &&& counts.2 == count_edges(in_list, edge_marked(bwd))
                &&& counts.1 <= counts.0
                &&& counts.2 <= counts.0
            }),
    {
        let m = relaxation.edge_count();
        let ghost ends = relaxation.ends();
        let ghost fwd = bits(self.edge_is_forward);
        let ghost bwd = bits(self.edge_is_backward);
        proof {
            lemma_incident_edges(ends, alpha, true);
        }
        let in_edges = relaxation.edges_directed(alpha, EdgeDirection::Incoming);
        let ghost in_list = in_edges@;
        let mut in_forward: usize = 0;
        let mut in_backward: usize = 0;
        let mut in_total: usize = 0;
        for j in 0..in_edges.len()
            invariant
                m == ends.len(),
                in_list == in_edges@,
                forall|k: int| 0 <= k < in_list.len() ==> (#[trigger] in_list[k]).0 < m,
                fwd == bits(self.edge_is_forward),
                bwd == bits(self.edge_is_backward),
                fwd.len() == m,
                bwd.len() == m,
                in_forward == count_edges(in_list.take(j as int), edge_marked(fwd)),
                in_backward == count_edges(in_list.take(j as int), edge_marked(bwd)),
                in_forward <= j,
                in_backward <= j,
                in_total == j,
        {
            assert(in_list.take(j + 1).drop_last() =~= in_list.take(j as int));
            assert(in_list.take(j + 1).last() == in_list[j as int]);
            let alpha_beta = in_edges[j].0;
            if *bitvec_index(&self.edge_is_forward, alpha_beta) {
                in_forward = in_forward + 1;
            }
            if *bitvec_index(&self.edge_is_backward, alpha_beta) {
                in_backward = in_backward + 1;
            }
            in_total = in_total + 1;
        }
        assert(in_list.take(in_list.len() as int) =~= in_list);
        (in_total, in_forward, in_backward)
    }
}

/// Counts the edges leaving `alpha` towards nodes not marked in `touched` and towards marked
/// nodes.
fn count_out_edges<T>(relaxation: &Relaxation<T>, alpha: usize, touched: &BitStorage) -> (counts: (usize, usize))
    requires
        relaxation.wf(),
        alpha < relaxation.nodes().len(),
        bits(*touched).len() == relaxation.nodes().len(),
    ensures
        ({
            let out_list = incident_edges(relaxation.ends(), alpha, false);
            &&& counts.0 == count_edges(out_list, target_marked(bits(*touched), false))
            &&& counts.1 == count_edges(out_list, target_marked(bits(*touched), true))
            &&& counts.0 + counts.1 == out_list.len()
        }),
{
    let n = relaxation.node_count();
    let m = relaxation.edge_count();
    let ghost ends = relaxation.ends();
    proof {
        relaxation.lemma_wf();
        lemma_incident_edges(ends, alpha, false);
    }
    let out_edges = relaxation.edges_directed(alpha, EdgeDirection::Outgoing);
    let ghost out_list = out_edges@;
    let mut out_forward: usize = 0;
    let mut out_backward: usize = 0;
    for j in 0..out_edges.len()
        invariant
            n == relaxation.nodes().len(),
            out_list == out_edges@,
            forall|k: int| 0 <= k < out_list.len() ==> (#[trigger] out_list[k]).2 < n,
            bits(*touched).len() == n,
            out_forward == count_edges(out_list.take(j as int), target_marked(bits(*touched), false)),
            out_backward == count_edges(out_list.take(j as int), target_marked(bits(*touched), true)),
            out_forward + out_backward == j,
    {
        assert(out_list.take(j + 1).drop_last() =~= out_list.take(j as int));
        assert(out_list.take(j + 1).last() == out_list[j as int]);
        let (_, _, beta) = out_edges[j];
        if *bitvec_index(touched, beta) {
            out_backward = out_backward + 1;
        } else {
            out_forward = out_forward + 1;
        }
    }
    assert(out_list.take(out_list.len() as int) =~= out_list);
    (out_forward, out_backward)
}


/// A node weight as `node_weight` computes it is at least 1, and at least the number of
/// marked entering edges.
/// The weight of a node with `total` entering edges, `marked` of them in the direction of the
/// pass, and `out` leaving edges counted for the pass, is at least the unmarked entering edges
/// plus `out`, and at least the marked ones plus `out`; it is the larger of these two, except
/// where both are 0, when it is 1. So it is never 0.
pub proof fn lemma_node_weight(total: int, marked: int, out: int)
    requires
        0 <= marked <= total,
        0 <= out,
    ensures
        node_weight(total, marked, out) >= (total - marked) + out,
        node_weight(total, marked, out) >= marked + out,
        node_weight(total, marked, out) >= 1,
        node_weight(total, marked, out) == (total - marked) + out || node_weight(total, marked, out) == marked
            + out || (total == 0 && out == 0 && node_weight(total, marked, out) == 1),
{
}

/// Every node of the sequence gets a forward and a backward weight of at least 1 (so that
/// the passes can divide by them), and its weight for updating the lower bound is its backward
/// weight less its backward entering edges, which is not negative; so every node of the
/// sequence that was not met before, or is unary, updates the lower bound. In each direction
/// the weight of a node is at least its entering edges not labeled in that direction plus its
/// leaving edges counted for it, and at least the labeled ones plus those leaving edges.
pub proof fn lemma_node_weights_positive(
    attrs: NodeEdgeAttrs,
    seq: Seq<usize>,
    ends: Seq<(usize, usize)>,
    nodes: Seq<FactorOrigin>,
)
    requires
        attrs.node_attrs_hold(seq, ends, nodes),
    ensures
        forall|q: int|
            0 <= q < seq.len() ==> {
                let alpha = #[trigger] seq[q] as int;
                &&& attrs.spec_node_weight_forward()[alpha] >= 1
                &&& attrs.spec_node_weight_backward()[alpha] >= 1
                &&& attrs.spec_node_is_update_lb()[alpha] == (!touched_between(seq, ends, 0, q, seq[q])
                    || nodes[alpha] is Variable)
            },
        forall|q: int|
            0 <= q < seq.len() ==> {
                let alpha = #[trigger] seq[q];
                let in_list = incident_edges(ends, alpha, true);
                let out_list = incident_edges(ends, alpha, false);
                let in_fwd = count_edges(in_list, forward_marked(seq, ends, q)) as int;
                let in_bwd = count_edges(in_list, backward_marked(seq, ends, q)) as int;
                let out_fwd = count_edges(out_list, target_reached(seq, q, false)) as int;
                let out_bwd = count_edges(out_list, target_reached(seq, q, true)) as int;
                let wf = attrs.spec_node_weight_forward()[alpha as int] as int;
                let wb = attrs.spec_node_weight_backward()[alpha as int] as int;
                &&& wf >= (in_list.len() - in_fwd) + out_fwd
                &&& wf >= in_fwd + out_fwd
                &&& wb >= (in_list.len() - in_bwd) + out_bwd
                &&& wb >= in_bwd + out_bwd
                &&& attrs.spec_node_weight_update_lb()[alpha as int] == wb - in_bwd
            },
{
    assert forall|q: int| 0 <= q < seq.len() implies {
        let alpha = #[trigger] seq[q] as int;
        &&& attrs.spec_node_weight_forward()[alpha] >= 1
        &&& attrs.spec_node_weight_backward()[alpha] >= 1
        &&& attrs.spec_node_is_update_lb()[alpha] == (!touched_between(seq, ends, 0, q, seq[q])
            || nodes[alpha] is Variable)
    } by {
        assert(attrs.node_attrs_at(seq, ends, nodes, q));
        let alpha = seq[q];
        let in_list = incident_edges(ends, alpha, true);
        let out_list = incident_edges(ends, alpha, false);
        lemma_count_edges_bound(in_list, forward_marked(seq, ends, q));
        lemma_count_edges_bound(in_list, backward_marked(seq, ends, q));
        lemma_node_weight(
            in_list.len() as int,
            count_edges(in_list, forward_marked(seq, ends, q)) as int,
            count_edges(out_list, target_reached(seq, q, false)) as int,
        );
        lemma_node_weight(
            in_list.len() as int,
            count_edges(in_list, backward_marked(seq, ends, q)) as int,
            count_edges(out_list, target_reached(seq, q, true)) as int,
        );
    }
    assert forall|q: int| 0 <= q < seq.len() implies {
        let alpha = #[trigger] seq[q];
        let in_list = incident_edges(ends, alpha, true);
        let out_list = incident_edges(ends, alpha, false);
        let in_fwd = count_edges(in_list, forward_marked(seq, ends, q)) as int;
        let in_bwd = count_edges(in_list, backward_marked(seq, ends, q)) as int;
        let out_fwd = count_edges(out_list, target_reached(seq, q, false)) as int;
        let out_bwd = count_edges(out_list, target_reached(seq, q, true)) as int;
        let wf = attrs.spec_node_weight_forward()[alpha as int] as int;
        let wb = attrs.spec_node_weight_backward()[alpha as int] as int;
        &&& wf >= (in_list.len() - in_fwd) + out_fwd
        &&& wf >= in_fwd + out_fwd
        &&& wb >= (in_list.len() - in_bwd) + out_bwd
        &&& wb >= in_bwd + out_bwd
        &&& attrs.spec_node_weight_update_lb()[alpha as int] == wb - in_bwd
    } by {
        assert(attrs.node_attrs_at(seq, ends, nodes, q));
        let alpha = seq[q];
        let in_list = incident_edges(ends, alpha, true);
        let out_list = incident_edges(ends, alpha, false);
        lemma_count_edges_bound(in_list, forward_marked(seq, ends, q));
        lemma_count_edges_bound(in_list, backward_marked(seq, ends, q));
        lemma_node_weight(
            in_list.len() as int,
            count_edges(in_list, forward_marked(seq, ends, q)) as int,
            count_edges(out_list, target_reached(seq, q, false)) as int,
        );
        lemma_node_weight(
            in_list.len() as int,
            count_edges(in_list, backward_marked(seq, ends, q)) as int,
            count_edges(out_list, target_reached(seq, q, true)) as int,
        );
    }
}

} // verus!
