use vstd::prelude::*;

use crate::graph::{ComputationGraph, OperationId, OperationType, Subgraph, TensorId};
use crate::input_format::DeviceParameters;

verus! {

/// `x / y` rounded up.
pub open spec fn spec_ceil_div(x: int, y: int) -> int {
    (x + y - 1) / y
}

/// `x / y` rounded up, for a nonnegative `x` and a positive `y`.
pub fn ceil_div(x: i64, y: i64) -> (r: i64)
    requires
        0 <= x,
        0 < y,
        x + y - 1 <= i64::MAX,
    ensures
        r == spec_ceil_div(x as int, y as int),
        0 <= r <= x,
        x > 0 ==> r >= 1,
{
    let r = (x + (y - 1)) / y;
    assert(r <= x) by (nonlinear_arith)
        requires
            r == (x + y - 1) / (y as int),
            0 <= x,
            0 < y,
    ;
    assert(x > 0 ==> r >= 1) by (nonlinear_arith)
        requires
            r == (x + y - 1) / (y as int),
            0 <= x,
            0 < y,
    ;
    r
}

#[derive(Clone, Copy, Debug, PartialEq, Eq, Structural)]
pub enum SearchError {
    /// The subgraph has no output to tile.
    Inconsistent,
    /// No tile size satisfies the constraints.
    NotFound,
}

#[derive(Clone, Copy, Debug, PartialEq, Eq, Structural)]
pub enum SliceRole {
    LhsRowStrip,
    RhsColStrip,
    OutAccumulator,
    PointwiseTile,
}

#[derive(Clone, Copy, Debug, PartialEq, Eq, Structural)]
pub struct SliceIndex {
    pub spatial_row: i64,
    pub spatial_col: i64,
    pub k_step: i64,
}

#[derive(Clone, Copy, Debug, PartialEq, Eq, Structural)]
pub struct SliceShape {
    pub rows: i64,
    pub cols: i64,
}

impl SliceShape {
    pub open spec fn spec_elements(&self) -> int {
        self.rows * self.cols
    }

    pub fn elements(&self) -> (r: i64)
        requires
            i64::MIN <= self.rows * self.cols <= i64::MAX,
        ensures
            r == self.spec_elements(),
    {
        self.rows * self.cols
    }
}

/// A named slice of fast-memory residency: a whole tensor, or one slice of it.
#[derive(Clone, Copy, Debug, PartialEq, Eq, Structural)]
pub enum SliceName {
    Whole(TensorId),
    Partial { tensor: TensorId, role: SliceRole, index: SliceIndex, shape: SliceShape },
}

impl SliceName {
    pub open spec fn spec_tensor_id(&self) -> TensorId {
        match self {
            SliceName::Whole(t) => *t,
            SliceName::Partial { tensor, .. } => *tensor,
        }
    }

    pub fn tensor_id(&self) -> (r: TensorId)
        ensures
            r == self.spec_tensor_id(),
    {
        match self {
            SliceName::Whole(t) => *t,
            SliceName::Partial { tensor, .. } => *tensor,
        }
    }

    /// Number of elements of the slice, given the size of the whole tensor.
    pub fn elements(&self, whole_size: i64) -> (r: i64)
        requires
            self matches SliceName::Partial { shape, .. } ==> i64::MIN <= shape.rows * shape.cols <= i64::MAX,
        ensures
            r == match self {
                SliceName::Whole(_) => whole_size as int,
                SliceName::Partial { shape, .. } => shape.spec_elements(),
            },
    {
        match self {
            SliceName::Whole(_) => whole_size,
            SliceName::Partial { shape, .. } => shape.elements(),
        }
    }
}

/// The slices resident in fast memory.
pub struct ResidencySet {
    names: Vec<SliceName>,
}

impl ResidencySet {
    pub closed spec fn name_set(&self) -> Set<SliceName> {
        self.names@.to_set()
    }

    /// `name` is covered: it is resident, or the whole of its tensor is.
    pub open spec fn covers(&self, name: SliceName) -> bool {
        self.name_set().contains(name) || (name is Partial && self.name_set().contains(
            SliceName::Whole(name.spec_tensor_id()),
        ))
    }

    pub fn new() -> (r: Self)
        ensures
            r.name_set() == Set::<SliceName>::empty(),
    {
        let r = ResidencySet { names: Vec::new() };
        assert(r.names@.to_set() =~= Set::<SliceName>::empty());
        r
    }

    fn holds(&self, name: &SliceName) -> (r: bool)
        ensures
            r == self.name_set().contains(*name),
    {
        for i in 0..self.names.len()
            invariant
                forall|k: int| 0 <= k < i ==> self.names@[k] != *name,
        {
            if self.names[i] == *name {
                assert(self.names@.contains(*name));
                return true;
            }
        }
        false
    }

    /// Whether `name` is satisfied by the current residency: a resident whole
    /// tensor covers any slice of it.
    pub fn matches(&self, name: &SliceName) -> (r: bool)
        ensures
            r == self.covers(*name),
    {
        if self.holds(name) {
            return true;
        }
        match name {
            SliceName::Partial { tensor, .. } => self.holds(&SliceName::Whole(*tensor)),
            SliceName::Whole(_) => false,
        }
    }

    /// Makes exactly the given slices resident.
    pub fn replace(&mut self, names: Vec<SliceName>)
        ensures
            final(self).name_set() == names@.to_set(),
    {
        self.names = names;
    }
}

/// The positive divisors of `value` that are at most `limit`, in increasing order.
pub open spec fn divisors_upto(value: int, limit: int) -> Seq<i64> {
    counting(
        if value < limit {
            if value < 0 { 0nat } else { value as nat }
        } else {
            if limit < 0 { 0nat } else { limit as nat }
        },
    ).filter(|d: i64| value >= 1 && (value as int) % (d as int) == 0)
}

/// Returns the sorted divisors of `value` that are at most `limit`.
pub fn divisors_le(value: i64, limit: i64) -> (r: Vec<i64>)
    requires
        value < i64::MAX,
    ensures
        r@ == divisors_upto(value as int, limit as int),
        forall|d: i64| r@.contains(d) <==> (1 <= d <= limit && value >= 1 && value % d == 0),
        forall|i: int, j: int| 0 <= i < j < r.len() ==> r@[i] < r@[j],
{
    let bound = if value < limit { value } else { limit };
    let ghost pred = |d: i64| value >= 1 && (value as int) % (d as int) == 0;
    let mut out: Vec<i64> = Vec::new();
    let mut i: i64 = 1;
    while i <= bound
        invariant
            1 <= i,
            bound <= value,
            bound <= limit,
            value < i64::MAX,
            bound >= 1 ==> i <= bound + 1,
            bound < 1 ==> i == 1,
            pred == (|d: i64| value >= 1 && (value as int) % (d as int) == 0),
            out@ == counting((i - 1) as nat).filter(pred),
        decreases (bound as int) + 1 - (i as int),
    {
        proof {
            reveal(Seq::filter);
            let s = counting(i as nat);
            assert(s.drop_last() =~= counting((i - 1) as nat));
            assert(s.last() == i);
        }
        if value % i == 0 {
            out.push(i);
        }
        i += 1;
    }
    proof {
        let n = if value < limit {
            if value < 0 { 0nat } else { value as nat }
        } else {
            if limit < 0 { 0nat } else { limit as nat }
        };
        assert(counting((i - 1) as nat) =~= counting(n)) by {
            if bound >= 1 {
                assert(i == bound + 1);
            }
        }
        lemma_counting_filter(n, pred);
        assert forall|d: i64| out@.contains(d) <==> (1 <= d <= limit && value >= 1 && value % d == 0) by {
            if 1 <= d <= limit && value >= 1 && value % d == 0 {
                assert(d <= value) by (nonlinear_arith)
                    requires
                        1 <= d,
                        value >= 1,
                        value % d == 0,
                ;
            }
        }
    }
    out
}

/// The sequence `1, 2, ..., n`.
pub open spec fn counting(n: nat) -> Seq<i64> {
    Seq::new(n, |j: int| (j + 1) as i64)
}

/// Filtering the counting sequence `1, 2, ..., n`.
proof fn lemma_counting_filter(n: nat, pred: spec_fn(i64) -> bool)
    requires
        n <= i64::MAX,
    ensures
        forall|d: i64| #[trigger] counting(n).filter(pred).contains(d) <==> (1 <= d <= n && pred(d)),
        forall|i: int, j: int|
            0 <= i < j < counting(n).filter(pred).len() ==> #[trigger] counting(n).filter(pred)[i]
                < #[trigger] counting(n).filter(pred)[j],
        forall|i: int|
            0 <= i < counting(n).filter(pred).len() ==> 1 <= #[trigger] counting(n).filter(pred)[i] <= n,
    decreases n,
{
    reveal(Seq::filter);
    let s = counting(n);
    let f = s.filter(pred);
    if n > 0 {
        let s0 = counting((n - 1) as nat);
        assert(s.drop_last() =~= s0);
        lemma_counting_filter((n - 1) as nat, pred);
        let f0 = s0.filter(pred);
        assert forall|d: i64| f.contains(d) <==> (1 <= d <= n && pred(d)) by {
            if f.contains(d) {
                let k = choose|k: int| 0 <= k < f.len() && f[k] == d;
                if k < f0.len() {
                    assert(f0[k] == d);
                    assert(f0.contains(d));
                }
            }
            if 1 <= d <= n && pred(d) {
                if d < n {
                    assert(f0.contains(d));
                    let k = choose|k: int| 0 <= k < f0.len() && f0[k] == d;
                    assert(f[k] == d);
                } else {
                    assert(f[f.len() - 1] == d);
                }
            }
        }
        assert forall|i: int, j: int| 0 <= i < j < f.len() implies f[i] < f[j] by {
            if j < f0.len() {
                assert(f[i] == f0[i] && f[j] == f0[j]);
            } else {
                assert(f[i] == f0[i]);
            }
        }
        assert forall|i: int| 0 <= i < f.len() implies 1 <= #[trigger] f[i] <= n by {
            if i < f0.len() {
                assert(f[i] == f0[i]);
            }
        }
    }
}

/// Largest tensor dimension the tile search handles; it keeps the search's
/// products of dimensions within `i64`.
pub const MAX_DIM: i64 = 1048576;

/// Every tensor dimension lies in `0..=MAX_DIM`.
pub open spec fn dims_bounded(g: ComputationGraph) -> bool {
    forall|t: int|
        0 <= t < g.num_tensors() ==> 0 <= (#[trigger] g.tensor_seq()[t]).width <= MAX_DIM && 0
            <= g.tensor_seq()[t].height <= MAX_DIM
}

pub open spec fn kind_of(g: ComputationGraph, op: OperationId) -> OperationType {
    g.ops()[op.0 as int].kind
}

/// Reduction length of a matrix multiplication: the width of its left operand.
pub open spec fn k_op_of(g: ComputationGraph, op: OperationId) -> i64 {
    g.tensor_seq()[g.ins()[op.0 as int][0].0 as int].width
}

/// Every operation of the subgraph has an output, and every matrix
/// multiplication has two operands.
pub open spec fn shaped(sg: Subgraph) -> bool {
    forall|op: OperationId|
        #[trigger] sg.has(op) ==> sg.graph().outs()[op.0 as int].len() >= 1 && (kind_of(sg.graph(), op)
            == OperationType::MatMul ==> sg.graph().ins()[op.0 as int].len() >= 2)
}

/// The kind of `op_id`, read from the producer of its first output.
pub(crate) fn op_kind(graph: &ComputationGraph, op_id: OperationId) -> (r: OperationType)
    requires
        graph.wf(),
        op_id.0 < graph.num_ops(),
        graph.outs()[op_id.0 as int].len() >= 1,
    ensures
        r == kind_of(*graph, op_id),
{
    let any_output = graph.output_ids_for(op_id)[0];
    proof {
        let t = graph.outs()[op_id.0 as int][0];
        assert(t.0 < graph.num_tensors());
        assert(graph.producer_is(t.0 as int, graph.prods()[t.0 as int]));
        assert(TensorId(t.0) == t);
        assert(graph.outs()[op_id.0 as int].contains(t));
        if graph.prods()[t.0 as int] is None {
        } else {
            let p = graph.prods()[t.0 as int].unwrap();
            let m = choose|m: int| 0 <= m < graph.outs()[p.0 as int].len() && graph.outs()[p.0 as int][m] == t;
            assert(graph.outs()[p.0 as int][m] == graph.outs()[op_id.0 as int][0]);
        }
    }
    graph.producer_of(any_output).unwrap().kind
}

/// Reduction length of the matrix multiplication `op_id`.
pub(crate) fn k_op(graph: &ComputationGraph, op_id: OperationId) -> (r: i64)
    requires
        graph.wf(),
        op_id.0 < graph.num_ops(),
        graph.ins()[op_id.0 as int].len() >= 1,
    ensures
        r == k_op_of(*graph, op_id),
{
    let lhs = graph.input_ids_for(op_id)[0];
    assert(graph.ins()[op_id.0 as int][0].0 < graph.num_tensors());
    graph.tensors()[lhs.0].width
}

/// The first operation of `l` that is in the subgraph.
pub open spec fn first_in(sg: Subgraph, l: Seq<OperationId>) -> Option<OperationId>
    decreases l.len(),
{
    if l.len() == 0 {
        None
    } else if sg.has(l[0]) {
        Some(l[0])
    } else {
        first_in(sg, l.drop_first())
    }
}

/// Per-operation tile dimensions `(m, n, k_split)` of `op`, given those of the
/// operations after it: a producer of a subgraph output takes the granule
/// `(h, w, k)` itself; another operation inherits the dimensions of its first
/// consumer inside the subgraph, transposed through a matrix multiplication's
/// operand; an operation without such a consumer takes `(h, w, 1)`.
pub open spec fn dims_step(
    sg: Subgraph,
    m: Map<OperationId, (i64, i64, i64)>,
    op: OperationId,
    h: i64,
    w: i64,
    k: i64,
) -> (i64, i64, i64) {
    let g = sg.graph();
    if exists|i: int| 0 <= i < g.outs()[op.0 as int].len() && sg.is_output_tensor(#[trigger] g.outs()[op.0 as int][i]) {
        if kind_of(g, op) == OperationType::MatMul {
            (h, w, k)
        } else {
            (h, w, 1)
        }
    } else {
        let t0 = g.outs()[op.0 as int][0];
        match first_in(sg, g.cons()[t0.0 as int]) {
            None => (h, w, 1),
            Some(c) => {
                let (mc, nc, kc) = m[c];
                let (mo, no) = if kind_of(g, c) == OperationType::Pointwise {
                    (mc, nc)
                } else if g.ins()[c.0 as int][0] == t0 {
                    (mc, kc)
                } else {
                    (kc, nc)
                };
                let ko = if kind_of(g, op) == OperationType::MatMul {
                    k_op_of(g, op)
                } else {
                    1
                };
                (mo, no, ko)
            },
        }
    }
}

/// The dimensions of the nodes from index `j` on, computed from the last node back.
pub open spec fn dims_from(sg: Subgraph, h: i64, w: i64, k: i64, j: int) -> Map<OperationId, (i64, i64, i64)>
    decreases sg.node_seq().len() - j,
{
    if j < 0 || j >= sg.node_seq().len() {
        Map::empty()
    } else {
        let m = dims_from(sg, h, w, k, j + 1);
        m.insert(sg.node_seq()[j], dims_step(sg, m, sg.node_seq()[j], h, w, k))
    }
}

/// Per-operation tile dimensions of all nodes of the subgraph.
pub open spec fn op_dims(sg: Subgraph, h: i64, w: i64, k: i64) -> Map<OperationId, (i64, i64, i64)> {
    dims_from(sg, h, w, k, 0)
}

proof fn lemma_dims_from_dom(sg: Subgraph, h: i64, w: i64, k: i64, j: int)
    requires
        0 <= j <= sg.node_seq().len(),
    ensures
        forall|op: OperationId|
            #[trigger] dims_from(sg, h, w, k, j).dom().contains(op) <==> exists|i: int|
                j <= i < sg.node_seq().len() && sg.node_seq()[i] == op,
    decreases sg.node_seq().len() - j,
{
    if j < sg.node_seq().len() {
        lemma_dims_from_dom(sg, h, w, k, j + 1);
        assert forall|op: OperationId|
            #[trigger] dims_from(sg, h, w, k, j).dom().contains(op) <==> exists|i: int|
                j <= i < sg.node_seq().len() && sg.node_seq()[i] == op by {
            if dims_from(sg, h, w, k, j + 1).dom().contains(op) {
                let i = choose|i: int| j + 1 <= i < sg.node_seq().len() && sg.node_seq()[i] == op;
            }
            if exists|i: int| j <= i < sg.node_seq().len() && sg.node_seq()[i] == op {
                let i = choose|i: int| j <= i < sg.node_seq().len() && sg.node_seq()[i] == op;
                if i > j {
                    assert(exists|i: int| j + 1 <= i < sg.node_seq().len() && sg.node_seq()[i] == op);
                }
            }
        }
    }
}

/// Entries of `dims_from(j)` are the values computed at their own node.
proof fn lemma_dims_from_value(sg: Subgraph, h: i64, w: i64, k: i64, j: int, i: int)
    requires
        sg.wf(),
        0 <= j <= i < sg.node_seq().len(),
    ensures
        dims_from(sg, h, w, k, j)[sg.node_seq()[i]] == dims_from(sg, h, w, k, i)[sg.node_seq()[i]],
    decreases i - j,
{
    if j < i {
        lemma_dims_from_value(sg, h, w, k, j + 1, i);
        crate::subgraph::lemma_pos_injective(&sg.graph(), sg.node_seq()[j], sg.node_seq()[i]);
    }
}

/// Index of the first operation of `l` that is in the subgraph.
fn first_consumer_in(sg: &Subgraph, l: &[OperationId]) -> (r: Option<OperationId>)
    requires
        sg.wf(),
        forall|i: int| 0 <= i < l@.len() ==> (#[trigger] l@[i]).0 < sg.graph().num_ops(),
    ensures
        r == first_in(*sg, l@),
{
    let mut i: usize = 0;
    assert(l@.skip(0) =~= l@);
    while i < l.len()
        invariant
            sg.wf(),
            i <= l@.len(),
            forall|i: int| 0 <= i < l@.len() ==> (#[trigger] l@[i]).0 < sg.graph().num_ops(),
            first_in(*sg, l@) == first_in(*sg, l@.skip(i as int)),
        decreases l@.len() - i,
    {
        assert(l@.skip(i as int).drop_first() =~= l@.skip(i + 1));
        assert(l@.skip(i as int)[0] == l@[i as int]);
        if sg.contains(l[i]) {
            return Some(l[i]);
        }
        i += 1;
    }
    assert(l@.skip(i as int).len() == 0);
    None
}

/// The dimensions of every node, indexed by operation id.
#[verifier::loop_isolation(false)]
fn propagate_op_dims(subgraph: &Subgraph, outputs: &Vec<TensorId>, h: i64, w: i64, k: i64) -> (r: Vec<(i64, i64, i64)>)
    requires
        subgraph.wf(),
        subgraph.graph().is_acyclic(),
        shaped(*subgraph),
        forall|t: TensorId| outputs@.contains(t) <==> subgraph.is_output_tensor(t),
    ensures
        r.len() == subgraph.graph().num_ops(),
        forall|op: OperationId| #[trigger] subgraph.has(op) ==> r@[op.0 as int] == op_dims(*subgraph, h, w, k)[op],
{
    let graph = subgraph.parent();
    let ghost g = subgraph.graph();
    let ghost sg = *subgraph;
    let ghost nodes = subgraph.node_seq();
    let n = graph.num_operations();
    let mut dims: Vec<(i64, i64, i64)> = Vec::new();
    let mut known: Vec<bool> = Vec::new();
    for i in 0..n
        invariant
            dims.len() == i,
            known.len() == i,
            forall|q: int| 0 <= q < i ==> !known@[q],
    {
        dims.push((0, 0, 0));
        known.push(false);
    }
    let len = subgraph.nodes().len();
    let mut idx = len;
    proof {
        lemma_dims_from_dom(sg, h, w, k, len as int);
    }
    while idx > 0
        invariant
            idx <= len,
            len == nodes.len(),
            dims.len() == n,
            known.len() == n,
            forall|q: int|
                0 <= q < n ==> (#[trigger] known@[q] <==> dims_from(sg, h, w, k, idx as int).dom().contains(
                    OperationId(q as usize),
                )),
            forall|q: int|
                0 <= q < n && known@[q] ==> #[trigger] dims@[q] == dims_from(sg, h, w, k, idx as int)[OperationId(
                    q as usize,
                )],
        decreases idx,
    {
        idx -= 1;
        let ghost m = dims_from(sg, h, w, k, idx + 1);
        let op_id = subgraph.nodes()[idx];
        assert(sg.has(op_id));
        assert(op_id.0 < n);
        let op_outputs = graph.output_ids_for(op_id);
        let kind = op_kind(graph, op_id);
        let any_output = op_outputs[0];
        let mut boundary = false;
        for i in 0..op_outputs.len()
            invariant
                boundary == exists|q: int| 0 <= q < i && sg.is_output_tensor(#[trigger] g.outs()[op_id.0 as int][q]),
        {
            if crate::subgraph::contains_tensor(outputs, op_outputs[i]) {
                boundary = true;
            }
        }
        let d = if boundary {
            match kind {
                OperationType::MatMul => (h, w, k),
                OperationType::Pointwise => (h, w, 1),
            }
        } else {
            assert(g.outs()[op_id.0 as int][0].0 < g.num_tensors());
            let consumers = graph.consumer_ids_for(any_output);
            proof {
                assert forall|i: int| 0 <= i < consumers@.len() implies (#[trigger] consumers@[i]).0 < g.num_ops() by {
                    crate::graph::lemma_consumer_list_bound(g.ins(), any_output, i);
                }
            }
            match first_consumer_in(subgraph, consumers) {
                None => (h, w, 1),
                Some(consumer_id) => {
                    proof {
                        lemma_first_in_props(sg, consumers@);
                        let q = choose|q: int| 0 <= q < consumers@.len() && consumers@[q] == consumer_id;
                        assert(g.cons()[any_output.0 as int] == crate::graph::consumer_list(g.ins(), TensorId(any_output.0)));
                        crate::graph::lemma_consumer_list_contains(g.ins(), any_output, consumer_id.0 as int);
                        crate::graph::lemma_edge_from_tensor(&g, op_id.0 as int, 0, consumer_id.0 as int);
                        let ci = choose|ci: int| 0 <= ci < nodes.len() && nodes[ci] == consumer_id;
                        if ci <= idx {
                            if ci < idx {
                                assert(g.pos(nodes[ci]) < g.pos(nodes[idx as int]));
                            }
                            assert(false);
                        }
                        lemma_dims_from_dom(sg, h, w, k, idx + 1);
                        assert(idx + 1 <= ci < nodes.len() && nodes[ci] == consumer_id);
                        assert(m.dom().contains(consumer_id));
                        assert(OperationId(consumer_id.0 as usize) == consumer_id);
                    }
                    let (m_c, n_c, k_split_c) = dims[consumer_id.0];
                    let consumer_kind = op_kind(graph, consumer_id);
                    let (m_o, n_o) = match consumer_kind {
                        OperationType::Pointwise => (m_c, n_c),
                        OperationType::MatMul => {
                            let consumer_inputs = graph.input_ids_for(consumer_id);
                            if consumer_inputs[0] == any_output {
                                (m_c, k_split_c)
                            } else {
                                (k_split_c, n_c)
                            }
                        },
                    };
                    let k_split_o = match kind {
                        OperationType::MatMul => k_op(graph, op_id),
                        OperationType::Pointwise => 1,
                    };
                    (m_o, n_o, k_split_o)
                },
            }
        };
        assert(d == dims_step(sg, m, op_id, h, w, k));
        dims.set(op_id.0, d);
        known.set(op_id.0, true);
        proof {
            lemma_dims_from_dom(sg, h, w, k, idx as int);
            lemma_dims_from_dom(sg, h, w, k, idx + 1);
            assert forall|q: int|
                0 <= q < n implies (#[trigger] known@[q] <==> dims_from(sg, h, w, k, idx as int).dom().contains(
                    OperationId(q as usize),
                )) by {
                if q == op_id.0 {
                    assert(OperationId(q as usize) == op_id);
                }
            }
        }
    }
    proof {
        assert forall|op: OperationId| #[trigger] subgraph.has(op) implies dims@[op.0 as int] == op_dims(*subgraph, h, w, k)[op] by {
            let i = choose|i: int| 0 <= i < nodes.len() && nodes[i] == op;
            assert(op.0 < n);
            assert(OperationId(op.0 as usize) == op);
            lemma_dims_from_dom(sg, h, w, k, 0);
            assert(dims_from(sg, h, w, k, 0).dom().contains(op));
        }
    }
    dims
}

proof fn lemma_first_in_props(sg: Subgraph, l: Seq<OperationId>)
    ensures
        first_in(sg, l) matches Some(c) ==> sg.has(c) && l.contains(c),
    decreases l.len(),
{
    if l.len() > 0 && !sg.has(l[0]) {
        lemma_first_in_props(sg, l.drop_first());
        if first_in(sg, l.drop_first()) is Some {
            let c = first_in(sg, l.drop_first()).unwrap();
            let q = choose|q: int| 0 <= q < l.drop_first().len() && l.drop_first()[q] == c;
            assert(l[q + 1] == c);
        }
    } else if l.len() > 0 {
        assert(l[0] == l[0]);
    }
}

/// An operation's first consumer inside the subgraph comes after it.
proof fn lemma_first_consumer_later(sg: Subgraph, i: int)
    requires
        sg.wf(),
        sg.graph().is_acyclic(),
        shaped(sg),
        0 <= i < sg.node_seq().len(),
        first_in(sg, sg.graph().cons()[sg.graph().outs()[sg.node_seq()[i].0 as int][0].0 as int]) is Some,
    ensures
        exists|ci: int|
            i < ci < sg.node_seq().len() && sg.node_seq()[ci] == first_in(
                sg,
                sg.graph().cons()[sg.graph().outs()[sg.node_seq()[i].0 as int][0].0 as int],
            ).unwrap(),
{
    let g = sg.graph();
    let op = sg.node_seq()[i];
    assert(sg.has(op));
    let t0 = g.outs()[op.0 as int][0];
    assert(t0.0 < g.num_tensors());
    let l = g.cons()[t0.0 as int];
    lemma_first_in_props(sg, l);
    let c = first_in(sg, l).unwrap();
    let q = choose|q: int| 0 <= q < l.len() && l[q] == c;
    assert(g.cons()[t0.0 as int] == crate::graph::consumer_list(g.ins(), TensorId(t0.0)));
    crate::graph::lemma_consumer_list_contains(g.ins(), t0, c.0 as int);
    crate::graph::lemma_edge_from_tensor(&g, op.0 as int, 0, c.0 as int);
    let ci = choose|ci: int| 0 <= ci < sg.node_seq().len() && sg.node_seq()[ci] == c;
    if ci <= i {
        if ci < i {
            assert(g.pos(sg.node_seq()[ci]) < g.pos(sg.node_seq()[i]));
        }
        assert(false);
    }
}

/// The dimensions are between 0 and the largest of `h`, `w`, `k` and `MAX_DIM`.
proof fn lemma_dims_bounded(sg: Subgraph, h: i64, w: i64, k: i64, j: int)
    requires
        sg.wf(),
        sg.graph().is_acyclic(),
        shaped(sg),
        dims_bounded(sg.graph()),
        0 <= h <= MAX_DIM,
        0 <= w <= MAX_DIM,
        0 <= k <= MAX_DIM,
        0 <= j <= sg.node_seq().len(),
    ensures
        forall|op: OperationId|
            #[trigger] dims_from(sg, h, w, k, j).dom().contains(op) ==> {
                let d = dims_from(sg, h, w, k, j)[op];
                0 <= d.0 <= MAX_DIM && 0 <= d.1 <= MAX_DIM && 0 <= d.2 <= MAX_DIM
            },
    decreases sg.node_seq().len() - j,
{
    let g = sg.graph();
    lemma_dims_from_dom(sg, h, w, k, j);
    if j < sg.node_seq().len() {
        lemma_dims_bounded(sg, h, w, k, j + 1);
        lemma_dims_from_dom(sg, h, w, k, j + 1);
        let op = sg.node_seq()[j];
        let m = dims_from(sg, h, w, k, j + 1);
        assert(sg.has(op));
        let d = dims_step(sg, m, op, h, w, k);
        if !(exists|i: int| 0 <= i < g.outs()[op.0 as int].len() && sg.is_output_tensor(#[trigger] g.outs()[op.0 as int][i])) {
            let t0 = g.outs()[op.0 as int][0];
            if first_in(sg, g.cons()[t0.0 as int]) is Some {
                lemma_first_consumer_later(sg, j);
                let c = first_in(sg, g.cons()[t0.0 as int]).unwrap();
                let ci = choose|ci: int| j < ci < sg.node_seq().len() && sg.node_seq()[ci] == c;
                assert(m.dom().contains(c));
                if kind_of(g, op) == OperationType::MatMul {
                    assert(g.ins()[op.0 as int][0].0 < g.num_tensors());
                }
            }
        }
        assert(0 <= d.0 <= MAX_DIM && 0 <= d.1 <= MAX_DIM && 0 <= d.2 <= MAX_DIM);
    }
}

/// A residency entry: tensor, role, size, and whether the tensor crosses the
/// subgraph boundary (only such entries occupy fast memory).
pub open spec fn entry(t: TensorId, role: SliceRole, size: int, counts: bool) -> (TensorId, SliceRole, int, bool) {
    (t, role, size, counts)
}

/// The residency entries of one operation with dimensions `d`.
pub open spec fn op_entries(sg: Subgraph, d: (i64, i64, i64), op: OperationId) -> Seq<(TensorId, SliceRole, int, bool)> {
    let g = sg.graph();
    let ins = g.ins()[op.0 as int];
    let input_part = if kind_of(g, op) == OperationType::MatMul {
        seq![
            entry(ins[0], SliceRole::LhsRowStrip, d.0 * k_op_of(g, op), sg.is_input_tensor(ins[0])),
            entry(ins[1], SliceRole::RhsColStrip, d.2 * d.1, sg.is_input_tensor(ins[1])),
        ]
    } else {
        ins.map_values(|t: TensorId| entry(t, SliceRole::PointwiseTile, d.0 * d.1, sg.is_input_tensor(t)))
    };
    input_part + g.outs()[op.0 as int].map_values(
        |t: TensorId| entry(t, SliceRole::OutAccumulator, d.0 * d.1, sg.is_output_tensor(t)),
    )
}

/// The residency entries of the first `j` nodes, in order.
pub open spec fn entries_upto(sg: Subgraph, h: i64, w: i64, k: i64, j: int) -> Seq<(TensorId, SliceRole, int, bool)>
    decreases j,
{
    if j <= 0 {
        Seq::empty()
    } else {
        entries_upto(sg, h, w, k, j - 1) + op_entries(
            sg,
            op_dims(sg, h, w, k)[sg.node_seq()[j - 1]],
            sg.node_seq()[j - 1],
        )
    }
}

/// Some counting entry of `e` has tensor `t` and role `role`.
pub open spec fn counted_before(e: Seq<(TensorId, SliceRole, int, bool)>, t: TensorId, role: SliceRole) -> bool {
    exists|i: int| 0 <= i < e.len() && (#[trigger] e[i]).3 && e[i].0 == t && e[i].1 == role
}

/// Sum of the sizes of the counting entries, each (tensor, role) pair once, at
/// its first occurrence.
pub open spec fn counted_total(e: Seq<(TensorId, SliceRole, int, bool)>) -> int
    decreases e.len(),
{
    if e.len() == 0 {
        0
    } else {
        counted_total(e.drop_last()) + if e.last().3 && !counted_before(e.drop_last(), e.last().0, e.last().1) {
            e.last().2
        } else {
            0
        }
    }
}

/// Conservative bound on the fast memory a subgraph occupies at any step at
/// granule `(w, h, k)`.
pub open spec fn peak_spec(sg: Subgraph, w: i64, h: i64, k: i64) -> int {
    counted_total(entries_upto(sg, h, w, k, sg.node_seq().len() as int))
}

proof fn lemma_counted_total_prefix(e: Seq<(TensorId, SliceRole, int, bool)>, j: int)
    requires
        0 <= j <= e.len(),
        forall|i: int| 0 <= i < e.len() ==> (#[trigger] e[i]).2 >= 0,
    ensures
        0 <= counted_total(e.take(j)) <= counted_total(e),
    decreases e.len(),
{
    if j < e.len() {
        assert(e.drop_last().take(j) =~= e.take(j));
        lemma_counted_total_prefix(e.drop_last(), j);
    } else {
        assert(e.take(j) =~= e);
        if e.len() > 0 {
            lemma_counted_total_prefix(e.drop_last(), j - 1);
            assert(e.drop_last().take(j - 1) =~= e.drop_last());
        }
    }
}

proof fn lemma_entries_upto_prefix(sg: Subgraph, h: i64, w: i64, k: i64, i: int, j: int)
    requires
        0 <= i <= j,
    ensures
        entries_upto(sg, h, w, k, j).len() >= entries_upto(sg, h, w, k, i).len(),
        entries_upto(sg, h, w, k, j).take(entries_upto(sg, h, w, k, i).len() as int) == entries_upto(sg, h, w, k, i),
    decreases j - i,
{
    if i < j {
        lemma_entries_upto_prefix(sg, h, w, k, i, j - 1);
        let a = entries_upto(sg, h, w, k, j - 1);
        let b = entries_upto(sg, h, w, k, j);
        let c = entries_upto(sg, h, w, k, i);
        assert(b.take(a.len() as int) =~= a);
        assert(b.take(c.len() as int) =~= a.take(c.len() as int));
    } else {
        assert(entries_upto(sg, h, w, k, j).take(entries_upto(sg, h, w, k, i).len() as int) =~= entries_upto(sg, h, w, k, i));
    }
}

proof fn lemma_entries_nonneg(sg: Subgraph, h: i64, w: i64, k: i64, j: int)
    requires
        sg.wf(),
        sg.graph().is_acyclic(),
        shaped(sg),
        dims_bounded(sg.graph()),
        0 <= h <= MAX_DIM,
        0 <= w <= MAX_DIM,
        0 <= k <= MAX_DIM,
        0 <= j <= sg.node_seq().len(),
    ensures
        forall|i: int| 0 <= i < entries_upto(sg, h, w, k, j).len() ==> (#[trigger] entries_upto(sg, h, w, k, j)[i]).2 >= 0,
    decreases j,
{
    if j > 0 {
        lemma_entries_nonneg(sg, h, w, k, j - 1);
        lemma_dims_bounded(sg, h, w, k, 0);
        lemma_dims_from_dom(sg, h, w, k, 0);
        let op = sg.node_seq()[j - 1];
        let g = sg.graph();
        assert(sg.has(op));
        assert(op_dims(sg, h, w, k).dom().contains(op));
        let d = op_dims(sg, h, w, k)[op];
        let e0 = entries_upto(sg, h, w, k, j - 1);
        let oe = op_entries(sg, d, op);
        let e = entries_upto(sg, h, w, k, j);
        if kind_of(g, op) == OperationType::MatMul {
            assert(g.ins()[op.0 as int][0].0 < g.num_tensors());
            assert(d.0 * k_op_of(g, op) >= 0) by (nonlinear_arith)
                requires
                    d.0 >= 0,
                    k_op_of(g, op) >= 0,
            ;
        }
        assert(d.0 * d.1 >= 0) by (nonlinear_arith)
            requires
                d.0 >= 0,
                d.1 >= 0,
        ;
        assert(d.2 * d.1 >= 0) by (nonlinear_arith)
            requires
                d.2 >= 0,
                d.1 >= 0,
        ;
        assert forall|i: int| 0 <= i < e.len() implies (#[trigger] e[i]).2 >= 0 by {
            if i < e0.len() {
                assert(e[i] == e0[i]);
            } else {
                assert(e[i] == oe[i - e0.len()]);
            }
        }
    }
}

proof fn lemma_counted_push(e: Seq<(TensorId, SliceRole, int, bool)>, x: (TensorId, SliceRole, int, bool))
    ensures
        forall|t: TensorId, role: SliceRole|
            #[trigger] counted_before(e.push(x), t, role) <==> (counted_before(e, t, role) || (x.3 && x.0 == t
                && x.1 == role)),
        counted_total(e.push(x)) == counted_total(e) + if x.3 && !counted_before(e, x.0, x.1) {
            x.2
        } else {
            0
        },
{
    let f = e.push(x);
    assert(f.drop_last() =~= e);
    assert forall|t: TensorId, role: SliceRole|
        #[trigger] counted_before(f, t, role) <==> (counted_before(e, t, role) || (x.3 && x.0 == t && x.1 == role)) by {
        if counted_before(f, t, role) {
            let i = choose|i: int| 0 <= i < f.len() && (#[trigger] f[i]).3 && f[i].0 == t && f[i].1 == role;
            if i < e.len() {
                assert(e[i] == f[i]);
            }
        }
        if counted_before(e, t, role) {
            let i = choose|i: int| 0 <= i < e.len() && (#[trigger] e[i]).3 && e[i].0 == t && e[i].1 == role;
            assert(f[i] == e[i]);
        }
        if x.3 && x.0 == t && x.1 == role {
            assert(f[e.len() as int] == x);
        }
    }
}

/// Records `(t, role)` as resident when `eligible` and not yet recorded.
fn tally(
    counted: &mut Vec<(TensorId, SliceRole)>,
    Ghost(done): Ghost<Seq<(TensorId, SliceRole, int, bool)>>,
    t: TensorId,
    role: SliceRole,
    eligible: bool,
    Ghost(size): Ghost<int>,
) -> (added: bool)
    requires
        forall|key: (TensorId, SliceRole)| old(counted)@.contains(key) <==> counted_before(done, key.0, key.1),
    ensures
        added == (eligible && !counted_before(done, t, role)),
        forall|key: (TensorId, SliceRole)|
            final(counted)@.contains(key) <==> counted_before(done.push(entry(t, role, size, eligible)), key.0, key.1),
{
    proof {
        lemma_counted_push(done, entry(t, role, size, eligible));
    }
    if !eligible {
        return false;
    }
    let mut found = false;
    for i in 0..counted.len()
        invariant
            found == exists|q: int| 0 <= q < i && counted@[q] == (t, role),
    {
        if counted[i].0 == t && counted[i].1 == role {
            found = true;
        }
    }
    if found {
        let ghost q = choose|q: int| 0 <= q < counted@.len() && counted@[q] == (t, role);
        assert(counted@.contains((t, role)));
        return false;
    }
    assert(!counted@.contains((t, role)));
    assert(!counted_before(done, t, role));
    let ghost c0 = counted@;
    counted.push((t, role));
    proof {
        assert forall|key: (TensorId, SliceRole)|
            counted@.contains(key) <==> counted_before(done.push(entry(t, role, size, eligible)), key.0, key.1) by {
            if counted@.contains(key) {
                let q = choose|q: int| 0 <= q < counted@.len() && counted@[q] == key;
                if q < c0.len() {
                    assert(c0[q] == key);
                    assert(c0.contains(key));
                }
            }
            if counted_before(done.push(entry(t, role, size, eligible)), key.0, key.1) {
                if counted_before(done, key.0, key.1) {
                    assert(c0.contains(key));
                    let q = choose|q: int| 0 <= q < c0.len() && c0[q] == key;
                    assert(counted@[q] == key);
                } else {
                    assert(key == (t, role));
                    assert(counted@[c0.len() as int] == key);
                }
            }
        }
        assert forall|key: (TensorId, SliceRole)| counted@.contains(key) <==> (c0.contains(key) || key == (t, role)) by {
            if counted@.contains(key) {
                let q = choose|q: int| 0 <= q < counted@.len() && counted@[q] == key;
                if q < c0.len() {
                    assert(c0[q] == key);
                }
            }
            if c0.contains(key) {
                let q = choose|q: int| 0 <= q < c0.len() && c0[q] == key;
                assert(counted@[q] == key);
            }
            if key == (t, role) {
                assert(counted@[c0.len() as int] == key);
            }
        }
    }
    true
}

/// Bounds the running total after one more entry of node `i`.
proof fn lemma_peak_step(sg: Subgraph, h: i64, w: i64, k: i64, i: int, q: int)
    requires
        sg.wf(),
        sg.graph().is_acyclic(),
        shaped(sg),
        dims_bounded(sg.graph()),
        0 <= h <= MAX_DIM,
        0 <= w <= MAX_DIM,
        0 <= k <= MAX_DIM,
        0 <= i < sg.node_seq().len(),
        0 <= q < op_entries(sg, op_dims(sg, h, w, k)[sg.node_seq()[i]], sg.node_seq()[i]).len(),
    ensures
        ({
            let oe = op_entries(sg, op_dims(sg, h, w, k)[sg.node_seq()[i]], sg.node_seq()[i]);
            let pre = entries_upto(sg, h, w, k, i) + oe.take(q);
            &&& 0 <= counted_total(pre)
            &&& counted_total(pre.push(oe[q])) <= peak_spec(sg, w, h, k)
            &&& oe[q].2 >= 0
        }),
{
    let n = sg.node_seq().len() as int;
    let oe = op_entries(sg, op_dims(sg, h, w, k)[sg.node_seq()[i]], sg.node_seq()[i]);
    let e0 = entries_upto(sg, h, w, k, i);
    let e1 = entries_upto(sg, h, w, k, i + 1);
    let full = entries_upto(sg, h, w, k, n);
    let pre = e0 + oe.take(q);
    lemma_entries_upto_prefix(sg, h, w, k, i + 1, n);
    lemma_entries_nonneg(sg, h, w, k, n);
    assert(e1 == e0 + oe);
    assert(pre.push(oe[q]) =~= e1.take(e0.len() + q + 1));
    assert(pre =~= e1.take(e0.len() + q));
    assert(e1.take(e0.len() + q + 1) =~= full.take(e0.len() + q + 1));
    assert(e1.take(e0.len() + q) =~= full.take(e0.len() + q));
    lemma_counted_total_prefix(full, e0.len() + q + 1);
    lemma_counted_total_prefix(full, e0.len() + q);
    assert(oe[q] == full[e0.len() + q]);
}

/// Conservative upper bound on resident elements at any iteration: the row
/// strip of a matrix multiplication's left operand and the k-strip of its right
/// operand, each tile of a pointwise operand, and each output accumulator,
/// counting each (tensor, role) once and only for tensors that cross the
/// subgraph boundary.
/// Adds the residency entries of node `i` to the running tally.
#[verifier::loop_isolation(false)]
#[verifier::spinoff_prover]
#[verifier::rlimit(60)]
fn tally_op(
    subgraph: &Subgraph,
    inputs: &Vec<TensorId>,
    outputs: &Vec<TensorId>,
    counted: &mut Vec<(TensorId, SliceRole)>,
    total: i64,
    i: usize,
    d: (i64, i64, i64),
    h: i64,
    w: i64,
    k: i64,
) -> (r: i64)
    requires
        subgraph.wf(),
        subgraph.graph().is_acyclic(),
        shaped(*subgraph),
        dims_bounded(subgraph.graph()),
        0 <= h <= MAX_DIM,
        0 <= w <= MAX_DIM,
        0 <= k <= MAX_DIM,
        i < subgraph.node_seq().len(),
        peak_spec(*subgraph, w, h, k) <= i64::MAX,
        forall|t: TensorId| inputs@.contains(t) <==> subgraph.is_input_tensor(t),
        forall|t: TensorId| outputs@.contains(t) <==> subgraph.is_output_tensor(t),
        d == op_dims(*subgraph, h, w, k)[subgraph.node_seq()[i as int]],
        0 <= d.0 <= MAX_DIM && 0 <= d.1 <= MAX_DIM && 0 <= d.2 <= MAX_DIM,
        total == counted_total(entries_upto(*subgraph, h, w, k, i as int)),
        forall|key: (TensorId, SliceRole)|
            old(counted)@.contains(key) <==> counted_before(entries_upto(*subgraph, h, w, k, i as int), key.0, key.1),
    ensures
        r == counted_total(entries_upto(*subgraph, h, w, k, i + 1)),
        forall|key: (TensorId, SliceRole)|
            final(counted)@.contains(key) <==> counted_before(entries_upto(*subgraph, h, w, k, i + 1), key.0, key.1),
{
    let graph = subgraph.parent();
    let ghost sg = *subgraph;
    let ghost g = subgraph.graph();
    let (m_o, n_o, k_split_o) = d;
    let mut total = total;
    let op_id = subgraph.nodes()[i];
    assert(sg.has(op_id));
    assert(op_id.0 < g.num_ops());
    let ghost oe = op_entries(sg, d, op_id);
    let ghost e0 = entries_upto(sg, h, w, k, i as int);
    let ghost mut done = e0;
    assert(e0.len() + oe.len() == entries_upto(sg, h, w, k, i + 1).len());
    let kind = op_kind(graph, op_id);
    let op_inputs = graph.input_ids_for(op_id);
    let ghost n_in: int = if kind == OperationType::MatMul { 2 } else { op_inputs@.len() as int };
    match kind {
        OperationType::MatMul => {
            let lhs = op_inputs[0];
            let rhs = op_inputs[1];
            assert(g.ins()[op_id.0 as int][0].0 < g.num_tensors());
            let k_op_o = graph.tensors()[lhs.0].width;
            let ghost x0 = entry(lhs, SliceRole::LhsRowStrip, d.0 * k_op_of(g, op_id), sg.is_input_tensor(lhs));
            proof {
                assert(oe[0] == x0);
                lemma_peak_step(sg, h, w, k, i as int, 0);
                assert(oe.take(0) =~= Seq::<(TensorId, SliceRole, int, bool)>::empty());
                assert(done + oe.take(0) =~= done);
                lemma_counted_push(done, x0);
            }
            let added = tally(counted, Ghost(done), lhs, SliceRole::LhsRowStrip, crate::subgraph::contains_tensor(inputs, lhs), Ghost(d.0 * k_op_of(g, op_id)));
            if added {
                total = total + m_o * k_op_o;
            }
            proof {
                done = done.push(x0);
            }
            let ghost x1 = entry(rhs, SliceRole::RhsColStrip, d.2 * d.1, sg.is_input_tensor(rhs));
            proof {
                assert(oe[1] == x1);
                lemma_peak_step(sg, h, w, k, i as int, 1);
                assert(e0 + oe.take(1) =~= done);
                lemma_counted_push(done, x1);
            }
            let added = tally(counted, Ghost(done), rhs, SliceRole::RhsColStrip, crate::subgraph::contains_tensor(inputs, rhs), Ghost(d.2 * d.1));
            if added {
                total = total + k_split_o * n_o;
            }
            proof {
                done = done.push(x1);
                assert(done =~= e0 + oe.take(2));
            }
        },
        OperationType::Pointwise => {
            for q in 0..op_inputs.len()
                invariant
                    n_in == op_inputs@.len(),
                    done == e0 + oe.take(q as int),
                    total == counted_total(done),
                    forall|key: (TensorId, SliceRole)| counted@.contains(key) <==> counted_before(done, key.0, key.1),
            {
                let input = op_inputs[q];
                let ghost x = entry(input, SliceRole::PointwiseTile, d.0 * d.1, sg.is_input_tensor(input));
                proof {
                    assert(oe[q as int] == x);
                    lemma_peak_step(sg, h, w, k, i as int, q as int);
                    lemma_counted_push(done, x);
                }
                let added = tally(counted, Ghost(done), input, SliceRole::PointwiseTile, crate::subgraph::contains_tensor(inputs, input), Ghost(d.0 * d.1));
                if added {
                    total = total + m_o * n_o;
                }
                proof {
                    done = done.push(x);
                    assert(done =~= e0 + oe.take(q + 1));
                }
            }
        },
    }
    let op_outputs = graph.output_ids_for(op_id);
    for q in 0..op_outputs.len()
        invariant
            n_in + op_outputs@.len() == oe.len(),
            0 <= n_in,
            done == e0 + oe.take(n_in + q),
            total == counted_total(done),
            forall|key: (TensorId, SliceRole)| counted@.contains(key) <==> counted_before(done, key.0, key.1),
    {
        let out = op_outputs[q];
        let ghost x = entry(out, SliceRole::OutAccumulator, d.0 * d.1, sg.is_output_tensor(out));
        proof {
            assert(oe[n_in + q] == x);
            lemma_peak_step(sg, h, w, k, i as int, n_in + q);
            lemma_counted_push(done, x);
        }
        let added = tally(counted, Ghost(done), out, SliceRole::OutAccumulator, crate::subgraph::contains_tensor(outputs, out), Ghost(d.0 * d.1));
        if added {
            total = total + m_o * n_o;
        }
        proof {
            done = done.push(x);
            assert(done =~= e0 + oe.take(n_in + q + 1));
        }
    }
    proof {
        assert(oe.take(oe.len() as int) =~= oe);
        assert(done =~= entries_upto(sg, h, w, k, i + 1));
    }
    total
}

/// Conservative upper bound on resident elements at any iteration: the row
/// strip of a matrix multiplication's left operand and the k-strip of its right
/// operand, each tile of a pointwise operand, and each output accumulator,
/// counting each (tensor, role) once and only for tensors that cross the
/// subgraph boundary.
fn peak_working_set(subgraph: &Subgraph, w: i64, h: i64, k: i64) -> (r: i64)
    requires
        subgraph.wf(),
        subgraph.graph().is_acyclic(),
        shaped(*subgraph),
        dims_bounded(subgraph.graph()),
        0 <= h <= MAX_DIM,
        0 <= w <= MAX_DIM,
        0 <= k <= MAX_DIM,
        peak_spec(*subgraph, w, h, k) <= i64::MAX,
    ensures
        r == peak_spec(*subgraph, w, h, k),
{
    let ghost sg = *subgraph;
    let inputs = subgraph.input_tensor_ids();
    let outputs = subgraph.output_tensor_ids();
    let dims = propagate_op_dims(subgraph, &outputs, h, w, k);
    proof {
        lemma_dims_bounded(sg, h, w, k, 0);
        lemma_dims_from_dom(sg, h, w, k, 0);
        assert forall|op: OperationId| #[trigger] sg.has(op) implies op_dims(sg, h, w, k).dom().contains(op) by {
            let q = choose|q: int| 0 <= q < sg.node_seq().len() && sg.node_seq()[q] == op;
        }
    }
    let mut counted: Vec<(TensorId, SliceRole)> = Vec::new();
    let mut total: i64 = 0;
    let len = subgraph.nodes().len();
    for i in 0..len
        invariant
            subgraph.wf(),
            sg.graph().is_acyclic(),
            shaped(sg),
            dims_bounded(sg.graph()),
            0 <= h <= MAX_DIM,
            0 <= w <= MAX_DIM,
            0 <= k <= MAX_DIM,
            sg == *subgraph,
            len == sg.node_seq().len(),
            peak_spec(sg, w, h, k) <= i64::MAX,
            forall|t: TensorId| inputs@.contains(t) <==> sg.is_input_tensor(t),
            forall|t: TensorId| outputs@.contains(t) <==> sg.is_output_tensor(t),
            dims.len() == sg.graph().num_ops(),
            forall|op: OperationId| #[trigger] sg.has(op) ==> dims@[op.0 as int] == op_dims(sg, h, w, k)[op],
            forall|op: OperationId|
                #[trigger] op_dims(sg, h, w, k).dom().contains(op) ==> {
                    let d = op_dims(sg, h, w, k)[op];
                    0 <= d.0 <= MAX_DIM && 0 <= d.1 <= MAX_DIM && 0 <= d.2 <= MAX_DIM
                },
            forall|op: OperationId| #[trigger] sg.has(op) ==> op_dims(sg, h, w, k).dom().contains(op),
            total == counted_total(entries_upto(sg, h, w, k, i as int)),
            forall|key: (TensorId, SliceRole)|
                counted@.contains(key) <==> counted_before(entries_upto(sg, h, w, k, i as int), key.0, key.1),
    {
        let op_id = subgraph.nodes()[i];
        assert(sg.has(op_id));
        assert(op_id.0 < sg.graph().num_ops());
        let d = dims[op_id.0];
        total = tally_op(subgraph, &inputs, &outputs, &mut counted, total, i, d, h, w, k);
    }
    total
}

/// Operand `side` (0: left, 1: right) of the matrix multiplication `op` may be
/// produced by a pointwise operation of the subgraph only if the tile covers
/// the whole reduction: `w >= K_op` on the left, `h >= K_op` on the right.
pub open spec fn side_ok(sg: Subgraph, op: OperationId, side: int, w: i64, h: i64) -> bool {
    let g = sg.graph();
    let t = g.ins()[op.0 as int][side];
    let kop = k_op_of(g, op);
    match g.producer_spec(t) {
        Some(p) => (sg.has(p) && kind_of(g, p) == OperationType::Pointwise) ==> if side == 0 {
            w >= kop
        } else {
            h >= kop
        },
        None => true,
    }
}

/// Split-k (`k < K_op`) is allowed only where no pointwise prologue forbids it.
pub open spec fn fusion_ok(sg: Subgraph, w: i64, h: i64, k: i64) -> bool {
    forall|op: OperationId|
        #[trigger] sg.has(op) && kind_of(sg.graph(), op) == OperationType::MatMul && k < k_op_of(sg.graph(), op)
            ==> side_ok(sg, op, 0, w, h) && side_ok(sg, op, 1, w, h)
}

/// Whether operand `side` of `op_id` satisfies the prologue rule.
fn side_valid(subgraph: &Subgraph, op_id: OperationId, side: usize, w: i64, h: i64, k_op_local: i64) -> (r: bool)
    requires
        subgraph.wf(),
        shaped(*subgraph),
        subgraph.has(op_id),
        kind_of(subgraph.graph(), op_id) == OperationType::MatMul,
        side < 2,
        k_op_local == k_op_of(subgraph.graph(), op_id),
    ensures
        r == side_ok(*subgraph, op_id, side as int, w, h),
{
    let graph = subgraph.parent();
    let ghost g = subgraph.graph();
    assert(op_id.0 < g.num_ops());
    let side_input = graph.input_ids_for(op_id)[side];
    let producer_id = match graph.producer_id_of(side_input) {
        Some(p) => p,
        None => {
            return true;
        },
    };
    if !subgraph.contains(producer_id) {
        return true;
    }
    assert(g.outs()[producer_id.0 as int].len() >= 1);
    if op_kind(graph, producer_id) != OperationType::Pointwise {
        return true;
    }
    if side == 0 {
        w >= k_op_local
    } else {
        h >= k_op_local
    }
}

/// Mixed pointwise / matrix multiplication fusion validity: where the
/// reduction is split (`k < K_op`), a pointwise operation that feeds an
/// operand must produce tiles covering the whole reduction.
fn mixed_fusion_valid(subgraph: &Subgraph, w: i64, h: i64, k: i64) -> (r: bool)
    requires
        subgraph.wf(),
        shaped(*subgraph),
    ensures
        r == fusion_ok(*subgraph, w, h, k),
{
    let graph = subgraph.parent();
    let ghost sg = *subgraph;
    let ghost g = subgraph.graph();
    let nodes = subgraph.nodes();
    for i in 0..nodes.len()
        invariant
            subgraph.wf(),
            shaped(sg),
            sg == *subgraph,
            g == sg.graph(),
            *graph == g,
            nodes@ == sg.node_seq(),
            forall|j: int|
                0 <= j < i ==> {
                    let op = #[trigger] nodes@[j];
                    kind_of(g, op) == OperationType::MatMul && k < k_op_of(g, op) ==> side_ok(sg, op, 0, w, h)
                        && side_ok(sg, op, 1, w, h)
                },
    {
        let op_id = nodes[i];
        assert(sg.has(op_id));
        assert(op_id.0 < g.num_ops());
        if op_kind(graph, op_id) == OperationType::MatMul {
            let k_op_local = k_op(graph, op_id);
            if k < k_op_local {
                if !side_valid(subgraph, op_id, 0, w, h, k_op_local) {
                    return false;
                }
                if !side_valid(subgraph, op_id, 1, w, h, k_op_local) {
                    return false;
                }
            }
        }
    }
    proof {
        assert forall|op: OperationId|
            #[trigger] sg.has(op) && kind_of(g, op) == OperationType::MatMul && k < k_op_of(g, op) implies side_ok(
                sg,
                op,
                0,
                w,
                h,
            ) && side_ok(sg, op, 1, w, h) by {
            let j = choose|j: int| 0 <= j < nodes@.len() && nodes@[j] == op;
        }
    }
    true
}

/// Enough walking depth to go through every node of the subgraph once.
pub open spec fn walk_depth(sg: Subgraph) -> nat {
    sg.node_seq().len() + 1
}

/// Elements of subgraph inputs loaded to produce a `rows x cols` slice of `t`
/// in one iteration for output `out_id` at reduction step `k`: walking back
/// through the producers inside the subgraph, a pointwise operation needs the
/// same slice of each operand; a matrix multiplication needs a `rows x inner`
/// slice of its left and an `inner x cols` slice of its right operand, where
/// `inner` is `k` at the output itself and the full reduction further back.
/// Retained inputs cost nothing.
pub open spec fn walk_bytes(
    sg: Subgraph,
    out_id: TensorId,
    t: TensorId,
    rows: int,
    cols: int,
    k: int,
    retained: Seq<TensorId>,
    depth: nat,
) -> int
    decreases depth, 0nat,
{
    let g = sg.graph();
    if depth == 0 {
        0
    } else if sg.is_input_tensor(t) {
        if retained.contains(t) {
            0
        } else {
            rows * cols
        }
    } else {
        match g.producer_spec(t) {
            None => 0,
            Some(p) => if !sg.has(p) {
                0
            } else if kind_of(g, p) == OperationType::Pointwise {
                walk_list(sg, out_id, g.ins()[p.0 as int], rows, cols, k, retained, (depth - 1) as nat)
            } else {
                let lhs = g.ins()[p.0 as int][0];
                let rhs = g.ins()[p.0 as int][1];
                let inner = if t == out_id {
                    k
                } else {
                    g.tensor_seq()[lhs.0 as int].width as int
                };
                walk_bytes(sg, out_id, lhs, rows, inner, k, retained, (depth - 1) as nat) + walk_bytes(
                    sg,
                    out_id,
                    rhs,
                    inner,
                    cols,
                    k,
                    retained,
                    (depth - 1) as nat,
                )
            },
        }
    }
}

/// `walk_bytes` summed over the tensors `ts`.
pub open spec fn walk_list(
    sg: Subgraph,
    out_id: TensorId,
    ts: Seq<TensorId>,
    rows: int,
    cols: int,
    k: int,
    retained: Seq<TensorId>,
    depth: nat,
) -> int
    decreases depth, ts.len(),
{
    if ts.len() == 0 {
        0
    } else {
        walk_list(sg, out_id, ts.drop_last(), rows, cols, k, retained, depth) + walk_bytes(
            sg,
            out_id,
            ts.last(),
            rows,
            cols,
            k,
            retained,
            depth,
        )
    }
}

proof fn lemma_walk_nonneg(
    sg: Subgraph,
    out_id: TensorId,
    t: TensorId,
    rows: int,
    cols: int,
    k: int,
    retained: Seq<TensorId>,
    depth: nat,
)
    requires
        sg.wf(),
        shaped(sg),
        dims_bounded(sg.graph()),
        rows >= 0,
        cols >= 0,
        k >= 0,
    ensures
        walk_bytes(sg, out_id, t, rows, cols, k, retained, depth) >= 0,
    decreases depth, 0nat,
{
    let g = sg.graph();
    if depth > 0 && !sg.is_input_tensor(t) {
        if let Some(p) = g.producer_spec(t) {
            if sg.has(p) {
                if kind_of(g, p) == OperationType::Pointwise {
                    lemma_walk_list_nonneg(sg, out_id, g.ins()[p.0 as int], rows, cols, k, retained, (depth - 1) as nat);
                } else {
                    let lhs = g.ins()[p.0 as int][0];
                    let rhs = g.ins()[p.0 as int][1];
                    assert(p.0 < g.num_ops());
                    assert(g.ins()[p.0 as int][0].0 < g.num_tensors());
                    let inner = if t == out_id {
                        k
                    } else {
                        g.tensor_seq()[lhs.0 as int].width as int
                    };
                    lemma_walk_nonneg(sg, out_id, lhs, rows, inner, k, retained, (depth - 1) as nat);
                    lemma_walk_nonneg(sg, out_id, rhs, inner, cols, k, retained, (depth - 1) as nat);
                }
            }
        }
    } else if depth > 0 {
        assert(rows * cols >= 0) by (nonlinear_arith)
            requires
                rows >= 0,
                cols >= 0,
        ;
    }
}

proof fn lemma_walk_list_nonneg(
    sg: Subgraph,
    out_id: TensorId,
    ts: Seq<TensorId>,
    rows: int,
    cols: int,
    k: int,
    retained: Seq<TensorId>,
    depth: nat,
)
    requires
        sg.wf(),
        shaped(sg),
        dims_bounded(sg.graph()),
        rows >= 0,
        cols >= 0,
        k >= 0,
    ensures
        walk_list(sg, out_id, ts, rows, cols, k, retained, depth) >= 0,
    decreases depth, ts.len(),
{
    if ts.len() > 0 {
        lemma_walk_list_nonneg(sg, out_id, ts.drop_last(), rows, cols, k, retained, depth);
        lemma_walk_nonneg(sg, out_id, ts.last(), rows, cols, k, retained, depth);
    }
}

/// Elements of subgraph inputs loaded per iteration for output `out_id`.
fn walk_per_iter_bytes(
    subgraph: &Subgraph,
    out_id: TensorId,
    t: TensorId,
    rows: i64,
    cols: i64,
    k: i64,
    inputs: &Vec<TensorId>,
    retained: &[TensorId],
    depth: usize,
) -> (r: i64)
    requires
        subgraph.wf(),
        shaped(*subgraph),
        dims_bounded(subgraph.graph()),
        0 <= rows <= MAX_DIM,
        0 <= cols <= MAX_DIM,
        0 <= k <= MAX_DIM,
        forall|x: TensorId| inputs@.contains(x) <==> subgraph.is_input_tensor(x),
        walk_bytes(*subgraph, out_id, t, rows as int, cols as int, k as int, retained@, depth as nat) <= i64::MAX,
    ensures
        r == walk_bytes(*subgraph, out_id, t, rows as int, cols as int, k as int, retained@, depth as nat),
    decreases depth,
{
    let graph = subgraph.parent();
    let ghost sg = *subgraph;
    let ghost g = subgraph.graph();
    if depth == 0 {
        return 0;
    }
    if crate::subgraph::contains_tensor(inputs, t) {
        if contains_id(retained, t) {
            return 0;
        }
        assert(rows * cols <= MAX_DIM * MAX_DIM) by (nonlinear_arith)
            requires
                0 <= rows <= MAX_DIM,
                0 <= cols <= MAX_DIM,
        ;
        return rows * cols;
    }
    let producer_id = match graph.producer_id_of(t) {
        Some(id) => id,
        None => {
            return 0;
        },
    };
    if !subgraph.contains(producer_id) {
        return 0;
    }
    assert(g.outs()[producer_id.0 as int].len() >= 1);
    let kind = op_kind(graph, producer_id);
    let op_inputs = graph.input_ids_for(producer_id);
    match kind {
        OperationType::Pointwise => {
            let ghost ts = op_inputs@;
            let mut bytes: i64 = 0;
            for q in 0..op_inputs.len()
                invariant
                    subgraph.wf(),
                    shaped(sg),
                    dims_bounded(g),
                    sg == *subgraph,
                    g == sg.graph(),
                    ts == op_inputs@,
                    0 <= rows <= MAX_DIM,
                    0 <= cols <= MAX_DIM,
                    0 <= k <= MAX_DIM,
                    depth > 0,
                    forall|x: TensorId| inputs@.contains(x) <==> sg.is_input_tensor(x),
                    walk_list(sg, out_id, ts, rows as int, cols as int, k as int, retained@, (depth - 1) as nat) <= i64::MAX,
                    bytes == walk_list(sg, out_id, ts.take(q as int), rows as int, cols as int, k as int, retained@, (depth - 1) as nat),
            {
                proof {
                    assert(ts.take(q + 1).drop_last() =~= ts.take(q as int));
                    assert(ts.take(q + 1).last() == ts[q as int]);
                    lemma_walk_list_prefix(sg, out_id, ts, rows as int, cols as int, k as int, retained@, (depth - 1) as nat, q + 1);
                    lemma_walk_list_nonneg(sg, out_id, ts.take(q as int), rows as int, cols as int, k as int, retained@, (depth - 1) as nat);
                    lemma_walk_nonneg(sg, out_id, ts[q as int], rows as int, cols as int, k as int, retained@, (depth - 1) as nat);
                }
                let b = walk_per_iter_bytes(subgraph, out_id, op_inputs[q], rows, cols, k, inputs, retained, depth - 1);
                bytes = bytes + b;
            }
            assert(ts.take(ts.len() as int) =~= ts);
            bytes
        },
        OperationType::MatMul => {
            let lhs = op_inputs[0];
            let rhs = op_inputs[1];
            assert(g.ins()[producer_id.0 as int][0].0 < g.num_tensors());
            let k_op_local = graph.tensors()[lhs.0].width;
            let inner_k = if t == out_id {
                k
            } else {
                k_op_local
            };
            proof {
                lemma_walk_nonneg(sg, out_id, lhs, rows as int, inner_k as int, k as int, retained@, (depth - 1) as nat);
                lemma_walk_nonneg(sg, out_id, rhs, inner_k as int, cols as int, k as int, retained@, (depth - 1) as nat);
            }
            let a = walk_per_iter_bytes(subgraph, out_id, lhs, rows, inner_k, k, inputs, retained, depth - 1);
            let b = walk_per_iter_bytes(subgraph, out_id, rhs, inner_k, cols, k, inputs, retained, depth - 1);
            a + b
        },
    }
}

proof fn lemma_walk_list_prefix(
    sg: Subgraph,
    out_id: TensorId,
    ts: Seq<TensorId>,
    rows: int,
    cols: int,
    k: int,
    retained: Seq<TensorId>,
    depth: nat,
    q: int,
)
    requires
        sg.wf(),
        shaped(sg),
        dims_bounded(sg.graph()),
        rows >= 0,
        cols >= 0,
        k >= 0,
        0 <= q <= ts.len(),
    ensures
        walk_list(sg, out_id, ts.take(q), rows, cols, k, retained, depth) <= walk_list(
            sg,
            out_id,
            ts,
            rows,
            cols,
            k,
            retained,
            depth,
        ),
    decreases ts.len(),
{
    if q < ts.len() {
        lemma_walk_list_prefix(sg, out_id, ts.drop_last(), rows, cols, k, retained, depth, q);
        assert(ts.drop_last().take(q) =~= ts.take(q));
        lemma_walk_nonneg(sg, out_id, ts.last(), rows, cols, k, retained, depth);
    } else {
        assert(ts.take(q) =~= ts);
    }
}

/// Whether `t` occurs in `v`.
pub(crate) fn contains_id(v: &[TensorId], t: TensorId) -> (r: bool)
    ensures
        r == v@.contains(t),
{
    for i in 0..v.len()
        invariant
            forall|q: int| 0 <= q < i ==> v@[q] != t,
    {
        if v[i] == t {
            return true;
        }
    }
    false
}

/// Reduction length of the producer of output `o`: `K_op` for a matrix
/// multiplication, 1 for a pointwise operation.
pub open spec fn reduction_of(sg: Subgraph, o: TensorId) -> int {
    let g = sg.graph();
    let p = g.producer_spec(o).unwrap();
    if kind_of(g, p) == OperationType::MatMul {
        k_op_of(g, p) as int
    } else {
        1
    }
}

/// Traffic for output `o` at granule `(w, h, k)`: per spatial tile and
/// reduction step the walked input slices, plus the evicted output tile unless
/// the output is retained.
pub open spec fn output_traffic(sg: Subgraph, o: TensorId, w: i64, h: i64, k: i64, retained: Seq<TensorId>) -> int {
    let t = sg.graph().tensor_seq()[o.0 as int];
    let spatial = spec_ceil_div(t.height as int, h as int) * spec_ceil_div(t.width as int, w as int);
    let kop = reduction_of(sg, o);
    let k_steps = if kop == 1 {
        1
    } else {
        spec_ceil_div(kop, k as int)
    };
    let per_iter = walk_bytes(sg, o, o, h as int, w as int, k as int, retained, walk_depth(sg));
    let evict = if retained.contains(o) {
        0
    } else {
        h * w
    };
    spatial * k_steps * per_iter + spatial * evict
}

/// `output_traffic` summed over the outputs `outs`.
pub open spec fn traffic_over(sg: Subgraph, outs: Seq<TensorId>, w: i64, h: i64, k: i64, retained: Seq<TensorId>) -> int
    decreases outs.len(),
{
    if outs.len() == 0 {
        0
    } else {
        traffic_over(sg, outs.drop_last(), w, h, k, retained) + output_traffic(sg, outs.last(), w, h, k, retained)
    }
}

/// Memory traffic (elements loaded and evicted) of the subgraph at granule
/// `(w, h, k)` in raster order, crediting no reuse between iterations.
pub open spec fn traffic_spec(sg: Subgraph, w: i64, h: i64, k: i64, retained: Seq<TensorId>) -> int {
    traffic_over(sg, sg.output_seq(), w, h, k, retained)
}

/// The traffic, and every walk it sums, fit in `i64`.
pub open spec fn traffic_fits(sg: Subgraph, w: i64, h: i64, k: i64, retained: Seq<TensorId>) -> bool {
    &&& traffic_spec(sg, w, h, k, retained) <= i64::MAX
    &&& forall|i: int|
        0 <= i < sg.output_seq().len() ==> walk_bytes(
            sg,
            #[trigger] sg.output_seq()[i],
            sg.output_seq()[i],
            h as int,
            w as int,
            k as int,
            retained,
            walk_depth(sg),
        ) <= i64::MAX
}

proof fn lemma_output_traffic_parts(sg: Subgraph, o: TensorId, w: i64, h: i64, k: i64, retained: Seq<TensorId>)
    requires
        sg.wf(),
        shaped(sg),
        dims_bounded(sg.graph()),
        1 <= w <= MAX_DIM,
        1 <= h <= MAX_DIM,
        1 <= k <= MAX_DIM,
        o.0 < sg.graph().num_tensors(),
        0 <= reduction_of(sg, o) <= MAX_DIM,
    ensures
        ({
            let t = sg.graph().tensor_seq()[o.0 as int];
            let spatial = spec_ceil_div(t.height as int, h as int) * spec_ceil_div(t.width as int, w as int);
            let kop = reduction_of(sg, o);
            let k_steps = if kop == 1 {
                1
            } else {
                spec_ceil_div(kop, k as int)
            };
            let per_iter = walk_bytes(sg, o, o, h as int, w as int, k as int, retained, walk_depth(sg));
            &&& 0 <= spatial <= MAX_DIM * MAX_DIM
            &&& 0 <= k_steps <= MAX_DIM
            &&& 0 <= spatial * k_steps <= MAX_DIM * MAX_DIM * MAX_DIM
            &&& per_iter >= 0
            &&& 0 <= spatial * k_steps * per_iter
            &&& per_iter > 0 ==> spatial * k_steps <= spatial * k_steps * per_iter
            &&& 0 <= spatial * (h * w)
            &&& 0 <= output_traffic(sg, o, w, h, k, retained)
            &&& spatial * k_steps * per_iter <= output_traffic(sg, o, w, h, k, retained)
        }),
{
    let t = sg.graph().tensor_seq()[o.0 as int];
    let a = spec_ceil_div(t.height as int, h as int);
    let b = spec_ceil_div(t.width as int, w as int);
    assert(0 <= a <= t.height) by (nonlinear_arith)
        requires
            a == (t.height + h - 1) / (h as int),
            0 <= t.height,
            1 <= h,
    ;
    assert(0 <= b <= t.width) by (nonlinear_arith)
        requires
            b == (t.width + w - 1) / (w as int),
            0 <= t.width,
            1 <= w,
    ;
    let spatial = a * b;
    assert(0 <= spatial <= MAX_DIM * MAX_DIM) by (nonlinear_arith)
        requires
            0 <= a <= MAX_DIM,
            0 <= b <= MAX_DIM,
            spatial == a * b,
    ;
    let kop = reduction_of(sg, o);
    if kop != 1 {
        assert(0 <= spec_ceil_div(kop, k as int) <= kop) by (nonlinear_arith)
            requires
                0 <= kop,
                1 <= k,
        ;
    }
    let k_steps = if kop == 1 {
        1
    } else {
        spec_ceil_div(kop, k as int)
    };
    assert(0 <= spatial * k_steps <= MAX_DIM * MAX_DIM * MAX_DIM) by (nonlinear_arith)
        requires
            0 <= spatial <= MAX_DIM * MAX_DIM,
            0 <= k_steps <= MAX_DIM,
    ;
    let per_iter = walk_bytes(sg, o, o, h as int, w as int, k as int, retained, walk_depth(sg));
    lemma_walk_nonneg(sg, o, o, h as int, w as int, k as int, retained, walk_depth(sg));
    let sk = spatial * k_steps;
    assert(0 <= sk * per_iter) by (nonlinear_arith)
        requires
            0 <= sk,
            0 <= per_iter,
    ;
    assert(per_iter > 0 ==> sk <= sk * per_iter) by (nonlinear_arith)
        requires
            0 <= sk,
            0 <= per_iter,
    ;
    assert(0 <= spatial * (h * w)) by (nonlinear_arith)
        requires
            0 <= spatial,
            1 <= h,
            1 <= w,
    ;
}

proof fn lemma_traffic_over_prefix(sg: Subgraph, outs: Seq<TensorId>, w: i64, h: i64, k: i64, retained: Seq<TensorId>, q: int)
    requires
        sg.wf(),
        shaped(sg),
        dims_bounded(sg.graph()),
        1 <= w <= MAX_DIM,
        1 <= h <= MAX_DIM,
        1 <= k <= MAX_DIM,
        0 <= q <= outs.len(),
        forall|i: int|
            0 <= i < outs.len() ==> (#[trigger] outs[i]).0 < sg.graph().num_tensors() && 0 <= reduction_of(sg, outs[i])
                <= MAX_DIM,
    ensures
        0 <= traffic_over(sg, outs.take(q), w, h, k, retained) <= traffic_over(sg, outs, w, h, k, retained),
    decreases outs.len(),
{
    if outs.len() > 0 {
        lemma_output_traffic_parts(sg, outs.last(), w, h, k, retained);
        if q < outs.len() {
            lemma_traffic_over_prefix(sg, outs.drop_last(), w, h, k, retained, q);
            assert(outs.drop_last().take(q) =~= outs.take(q));
        } else {
            assert(outs.take(q) =~= outs);
            lemma_traffic_over_prefix(sg, outs.drop_last(), w, h, k, retained, q - 1);
            assert(outs.drop_last().take(q - 1) =~= outs.drop_last());
        }
    } else {
        assert(outs.take(q) =~= outs);
    }
}

/// The reduction length of each output's producer is within `0..=MAX_DIM`.
pub(crate) proof fn lemma_reduction_bounded(sg: Subgraph, o: TensorId)
    requires
        sg.wf(),
        shaped(sg),
        dims_bounded(sg.graph()),
        sg.is_output_tensor(o),
    ensures
        o.0 < sg.graph().num_tensors(),
        sg.graph().producer_spec(o) is Some,
        sg.has(sg.graph().producer_spec(o).unwrap()),
        0 <= reduction_of(sg, o) <= MAX_DIM,
{
    let g = sg.graph();
    let op = choose|op: OperationId| #[trigger] sg.has(op) && g.outs()[op.0 as int].contains(o);
    let j = choose|j: int| 0 <= j < sg.node_seq().len() && sg.node_seq()[j] == op;
    let m = choose|m: int| 0 <= m < g.outs()[op.0 as int].len() && g.outs()[op.0 as int][m] == o;
    assert(op.0 < g.num_ops());
    assert(g.outs()[op.0 as int][m].0 < g.num_tensors());
    assert(g.producer_is(o.0 as int, g.prods()[o.0 as int]));
    assert(TensorId(o.0) == o);
    if g.prods()[o.0 as int] is None {
        assert(!g.outs()[op.0 as int].contains(TensorId(o.0)));
    } else {
        let p = g.prods()[o.0 as int].unwrap();
        let m2 = choose|m2: int| 0 <= m2 < g.outs()[p.0 as int].len() && g.outs()[p.0 as int][m2] == o;
        assert(g.outs()[p.0 as int][m2] == g.outs()[op.0 as int][m]);
        assert(p == op);
        if kind_of(g, p) == OperationType::MatMul {
            assert(g.ins()[p.0 as int][0].0 < g.num_tensors());
        }
    }
}

/// Memory traffic estimate (elements loaded and evicted) at granule
/// `(w, h, k)` under raster traversal, the objective of the tile search.
#[verifier::loop_isolation(false)]
fn memory_traffic(subgraph: &Subgraph, w: i64, h: i64, k: i64, retained: &[TensorId]) -> (r: i64)
    requires
        subgraph.wf(),
        shaped(*subgraph),
        dims_bounded(subgraph.graph()),
        1 <= w <= MAX_DIM,
        1 <= h <= MAX_DIM,
        1 <= k <= MAX_DIM,
        traffic_fits(*subgraph, w, h, k, retained@),
    ensures
        r == traffic_spec(*subgraph, w, h, k, retained@),
{
    let graph = subgraph.parent();
    let ghost sg = *subgraph;
    let ghost g = subgraph.graph();
    let inputs = subgraph.input_tensor_ids();
    let outputs = subgraph.output_tensor_ids();
    let ghost outs = outputs@;
    proof {
        assert forall|i: int| 0 <= i < outs.len() implies (#[trigger] outs[i]).0 < g.num_tensors() && 0
            <= reduction_of(sg, outs[i]) <= MAX_DIM by {
            assert(outs.contains(outs[i]));
            lemma_reduction_bounded(sg, outs[i]);
        }
    }
    let mut total: i64 = 0;
    for i in 0..outputs.len()
        invariant
            outs == outputs@,
            outs == sg.output_seq(),
            total == traffic_over(sg, outs.take(i as int), w, h, k, retained@),
    {
        let output_id = outputs[i];
        proof {
            assert(outs.contains(outs[i as int]));
            lemma_reduction_bounded(sg, output_id);
            lemma_output_traffic_parts(sg, output_id, w, h, k, retained@);
            lemma_traffic_over_prefix(sg, outs, w, h, k, retained@, i + 1);
            lemma_traffic_over_prefix(sg, outs, w, h, k, retained@, i as int);
            assert(outs.take(i + 1).drop_last() =~= outs.take(i as int));
            assert(outs.take(i + 1).last() == output_id);
        }
        let out_t = graph.tensors()[output_id.0];
        let producer_id = graph.producer_id_of(output_id).unwrap();
        assert(g.outs()[producer_id.0 as int].len() >= 1);
        let k_op_for_output = match op_kind(graph, producer_id) {
            OperationType::MatMul => k_op(graph, producer_id),
            OperationType::Pointwise => 1,
        };
        let spatial_tiles = ceil_div(out_t.height, h) * ceil_div(out_t.width, w);
        let k_steps = if k_op_for_output == 1 {
            1
        } else {
            ceil_div(k_op_for_output, k)
        };
        proof {
            subgraph.lemma_len_bound();
        }
        let per_iter_input_bytes = walk_per_iter_bytes(
            subgraph,
            output_id,
            output_id,
            h,
            w,
            k,
            &inputs,
            retained,
            subgraph.nodes().len() + 1,
        );
        proof {
            subgraph.lemma_len_bound();
        }
        let evict_bytes = if contains_id(retained, output_id) {
            0
        } else {
            assert(h * w <= MAX_DIM * MAX_DIM) by (nonlinear_arith)
                requires
                    1 <= h <= MAX_DIM,
                    1 <= w <= MAX_DIM,
            ;
            h * w
        };
        let in_traffic = spatial_tiles * k_steps * per_iter_input_bytes;
        let out_traffic = spatial_tiles * evict_bytes;
        total = total + (in_traffic + out_traffic);
    }
    proof {
        assert(outs.take(outs.len() as int) =~= outs);
    }
    total
}

/// Tile width `w` divides the width of every output and is at most the
/// native width (`by_width`), or likewise for heights.
pub open spec fn spatial_candidate(sg: Subgraph, native: i64, d: i64, by_width: bool) -> bool {
    &&& 1 <= d <= native
    &&& forall|i: int|
        0 <= i < sg.output_seq().len() ==> {
            let t = sg.graph().tensor_seq()[(#[trigger] sg.output_seq()[i]).0 as int];
            let extent = if by_width {
                t.width
            } else {
                t.height
            };
            extent >= 1 && extent % d == 0
        }
}

/// `op` is a matrix multiplication of the subgraph.
pub open spec fn is_matmul_node(sg: Subgraph, op: OperationId) -> bool {
    sg.has(op) && kind_of(sg.graph(), op) == OperationType::MatMul
}

/// The reduction step `k` divides every matrix multiplication's `K_op` and is
/// at most the smaller native dimension; without matrix multiplications it is 1.
pub open spec fn k_candidate(sg: Subgraph, native_k: i64, k: i64) -> bool {
    if exists|op: OperationId| is_matmul_node(sg, op) {
        &&& 1 <= k <= native_k
        &&& forall|op: OperationId|
            #[trigger] is_matmul_node(sg, op) ==> k <= k_op_of(sg.graph(), op) && k_op_of(sg.graph(), op) % k == 0
    } else {
        k == 1
    }
}

/// The smaller native dimension, which caps the reduction step.
pub open spec fn native_k_of(dev: DeviceParameters) -> i64 {
    if dev.native_granularity.0 < dev.native_granularity.1 {
        dev.native_granularity.0
    } else {
        dev.native_granularity.1
    }
}

/// A granule `(w, h, k)` the search considers.
pub open spec fn is_candidate(sg: Subgraph, dev: DeviceParameters, c: (i64, i64, i64)) -> bool {
    &&& spatial_candidate(sg, dev.native_granularity.0, c.0, true)
    &&& spatial_candidate(sg, dev.native_granularity.1, c.1, false)
    &&& k_candidate(sg, native_k_of(dev), c.2)
}

/// Elements of the distinct retained tensors.
pub open spec fn retained_size(g: ComputationGraph, retained: Seq<TensorId>) -> int
    decreases retained.len(),
{
    if retained.len() == 0 {
        0
    } else {
        retained_size(g, retained.drop_last()) + if retained.drop_last().contains(retained.last()) {
            0
        } else {
            g.tensor_seq()[retained.last().0 as int].spec_size()
        }
    }
}

/// Fast memory left for tiles once the retained tensors are kept resident.
pub open spec fn capacity_spec(g: ComputationGraph, dev: DeviceParameters, retained: Seq<TensorId>) -> int {
    dev.fast_memory_capacity - retained_size(g, retained)
}

/// A candidate that obeys the fusion rule and fits in the remaining fast memory.
pub open spec fn is_feasible(sg: Subgraph, dev: DeviceParameters, retained: Seq<TensorId>, c: (i64, i64, i64)) -> bool {
    &&& is_candidate(sg, dev, c)
    &&& capacity_spec(sg.graph(), dev, retained) > 0
    &&& fusion_ok(sg, c.0, c.1, c.2)
    &&& peak_spec(sg, c.0, c.1, c.2) <= capacity_spec(sg.graph(), dev, retained)
}

/// Lexicographic order on granules.
pub open spec fn lex_lt(a: (i64, i64, i64), b: (i64, i64, i64)) -> bool {
    a.0 < b.0 || (a.0 == b.0 && (a.1 < b.1 || (a.1 == b.1 && a.2 < b.2)))
}

/// Granule `c` is at least as good as `x`: less traffic, or the same traffic
/// and not lexicographically smaller.
pub open spec fn no_worse(sg: Subgraph, retained: Seq<TensorId>, c: (i64, i64, i64), x: (i64, i64, i64)) -> bool {
    let tc = traffic_spec(sg, c.0, c.1, c.2, retained);
    let tx = traffic_spec(sg, x.0, x.1, x.2, retained);
    tc < tx || (tc == tx && !lex_lt(c, x))
}

/// `c` has the least traffic among feasible granules, and is the largest
/// granule among those with that traffic.
pub open spec fn is_best(sg: Subgraph, dev: DeviceParameters, retained: Seq<TensorId>, c: (i64, i64, i64)) -> bool {
    &&& is_feasible(sg, dev, retained, c)
    &&& forall|x: (i64, i64, i64)| #[trigger] is_feasible(sg, dev, retained, x) ==> no_worse(sg, retained, c, x)
}

/// The candidate tile extents along widths (`by_width`) or heights, in
/// increasing order.
fn spatial_candidates(subgraph: &Subgraph, outputs: &Vec<TensorId>, native: i64, by_width: bool) -> (r: Vec<i64>)
    requires
        subgraph.wf(),
        dims_bounded(subgraph.graph()),
        outputs@ == subgraph.output_seq(),
        outputs.len() > 0,
        forall|i: int| 0 <= i < outputs.len() ==> (#[trigger] outputs@[i]).0 < subgraph.graph().num_tensors(),
    ensures
        forall|d: i64| r@.contains(d) <==> spatial_candidate(*subgraph, native, d, by_width),
        forall|i: int, j: int| 0 <= i < j < r.len() ==> r@[i] < r@[j],
        forall|i: int| 0 <= i < r.len() ==> 1 <= #[trigger] r@[i] <= MAX_DIM,
{
    let graph = subgraph.parent();
    let ghost g = subgraph.graph();
    let t0 = graph.tensors()[outputs[0].0];
    let e0 = if by_width { t0.width } else { t0.height };
    let first = divisors_le(e0, native);
    let mut r: Vec<i64> = Vec::new();
    for i in 0..first.len()
        invariant
            subgraph.wf(),
            dims_bounded(g),
            g == subgraph.graph(),
            *graph == g,
            outputs@ == subgraph.output_seq(),
            outputs.len() > 0,
            forall|i: int| 0 <= i < outputs.len() ==> (#[trigger] outputs@[i]).0 < g.num_tensors(),
            e0 == (if by_width { g.tensor_seq()[outputs@[0].0 as int].width } else { g.tensor_seq()[outputs@[0].0 as int].height }),
            forall|d: i64| first@.contains(d) <==> (1 <= d <= native && e0 >= 1 && e0 % d == 0),
            forall|i: int, j: int| 0 <= i < j < first.len() ==> first@[i] < first@[j],
            forall|a: int, b: int| 0 <= a < b < r.len() ==> r@[a] < r@[b],
            i == 0 ==> r.len() == 0,
            i > 0 ==> forall|a: int| 0 <= a < r.len() ==> r@[a] <= first@[i - 1],
            forall|d: i64| r@.contains(d) <==> (exists|q: int| 0 <= q < i && first@[q] == d) && spatial_candidate(*subgraph, native, d, by_width),
    {
        let d = first[i];
        assert(first@.contains(d));
        let mut ok = true;
        for q in 0..outputs.len()
            invariant
                g == subgraph.graph(),
                *graph == g,
                forall|i: int| 0 <= i < outputs.len() ==> (#[trigger] outputs@[i]).0 < g.num_tensors(),
                1 <= d,
                ok == forall|m: int| 0 <= m < q ==> {
                    let t = g.tensor_seq()[(#[trigger] outputs@[m]).0 as int];
                    let extent = if by_width { t.width } else { t.height };
                    extent >= 1 && extent % d == 0
                },
        {
            let t = graph.tensors()[outputs[q].0];
            let extent = if by_width { t.width } else { t.height };
            if !(extent >= 1 && extent % d == 0) {
                ok = false;
            }
        }
        let ghost r0 = r@;
        if ok {
            r.push(d);
        }
        proof {
            assert forall|x: i64| r@.contains(x) <==> (exists|q: int| 0 <= q < i + 1 && first@[q] == x) && spatial_candidate(*subgraph, native, x, by_width) by {
                if r@.contains(x) && !r0.contains(x) {
                    assert(r@[r@.len() - 1] == d);
                }
                if r0.contains(x) {
                    let m = choose|m: int| 0 <= m < r0.len() && r0[m] == x;
                    assert(r@[m] == x);
                }
                if (exists|q: int| 0 <= q < i + 1 && first@[q] == x) && spatial_candidate(*subgraph, native, x, by_width) {
                    let q = choose|q: int| 0 <= q < i + 1 && first@[q] == x;
                    if q == i {
                        assert(r@[r@.len() - 1] == d);
                    } else {
                        assert(r0.contains(x));
                    }
                }
            }
            assert forall|a: int| 0 <= a < r.len() implies r@[a] <= first@[i as int] by {
                if a < r0.len() {
                    assert(r@[a] == r0[a]);
                    assert(first@[i - 1] < first@[i as int]);
                }
            }
            assert forall|a: int, b: int| 0 <= a < b < r.len() implies r@[a] < r@[b] by {
                if b == r.len() - 1 && ok {
                    assert(r@[a] == r0[a]);
                    assert(first@[i - 1] < first@[i as int]);
                } else {
                    assert(r@[a] == r0[a] && r@[b] == r0[b]);
                }
            }
        }
    }
    proof {
        assert forall|x: i64| r@.contains(x) <==> spatial_candidate(*subgraph, native, x, by_width) by {
            if spatial_candidate(*subgraph, native, x, by_width) {
                assert(g.tensor_seq()[outputs@[0].0 as int] == g.tensor_seq()[(subgraph.output_seq()[0]).0 as int]);
                assert(first@.contains(x));
            }
        }
        assert forall|a: int| 0 <= a < r.len() implies 1 <= #[trigger] r@[a] <= MAX_DIM by {
            assert(r@.contains(r@[a]));
            let t = g.tensor_seq()[(subgraph.output_seq()[0]).0 as int];
            let extent = if by_width { t.width } else { t.height };
            assert(extent % r@[a] == 0);
            assert(r@[a] <= extent) by (nonlinear_arith)
                requires
                    extent >= 1,
                    r@[a] >= 1,
                    extent % r@[a] == 0,
            ;
        }
    }
    r
}

/// The candidate reduction steps, in increasing order: divisors of every
/// matrix multiplication's `K_op` up to the smaller native dimension, or just
/// 1 when the subgraph has no matrix multiplication.
fn k_candidates(subgraph: &Subgraph, native_k: i64) -> (r: Vec<i64>)
    requires
        subgraph.wf(),
        shaped(*subgraph),
        dims_bounded(subgraph.graph()),
    ensures
        forall|k: i64| r@.contains(k) <==> k_candidate(*subgraph, native_k, k),
        forall|i: int| 0 <= i < r.len() ==> 1 <= #[trigger] r@[i] <= MAX_DIM,
{
    let graph = subgraph.parent();
    let ghost sg = *subgraph;
    let ghost g = sg.graph();
    let nodes = subgraph.nodes();
    let mut kops: Vec<i64> = Vec::new();
    let ghost mut src: Seq<OperationId> = Seq::empty();
    for i in 0..nodes.len()
        invariant
            subgraph.wf(),
            shaped(sg),
            dims_bounded(g),
            sg == *subgraph,
            g == sg.graph(),
            *graph == g,
            nodes@ == sg.node_seq(),
            src.len() == kops.len(),
            forall|m: int| 0 <= m < kops.len() ==> is_matmul_node(sg, #[trigger] src[m]) && kops@[m] == k_op_of(g, src[m]),
            forall|j: int| 0 <= j < i && is_matmul_node(sg, #[trigger] nodes@[j]) ==> src.contains(nodes@[j]),
    {
        let op_id = nodes[i];
        assert(sg.has(op_id));
        assert(op_id.0 < g.num_ops());
        let ghost src0 = src;
        if op_kind(graph, op_id) == OperationType::MatMul {
            let kop = k_op(graph, op_id);
            kops.push(kop);
            proof {
                src = src.push(op_id);
                assert(src[src.len() - 1] == op_id);
            }
        }
        proof {
            assert forall|j: int| 0 <= j < i + 1 && is_matmul_node(sg, #[trigger] nodes@[j]) implies src.contains(
                nodes@[j],
            ) by {
                if j < i {
                    let q = choose|q: int| 0 <= q < src0.len() && src0[q] == nodes@[j];
                    assert(src[q] == src0[q]);
                } else {
                    assert(src[src.len() - 1] == op_id);
                }
            }
        }
    }
    proof {
        assert forall|op: OperationId| #[trigger] is_matmul_node(sg, op) implies src.contains(op) by {
            let j = choose|j: int| 0 <= j < nodes@.len() && nodes@[j] == op;
        }
        assert forall|m: int| 0 <= m < kops.len() implies 0 <= #[trigger] kops@[m] <= MAX_DIM by {
            let op = src[m];
            assert(sg.has(op));
            assert(g.ins()[op.0 as int][0].0 < g.num_tensors());
        }
    }
    if kops.len() == 0 {
        proof {
            assert forall|op: OperationId| !is_matmul_node(sg, op) by {
                if is_matmul_node(sg, op) {
                    assert(src.contains(op));
                }
            }
        }
        let r = vec![1i64];
        assert(r@[0] == 1);
        return r;
    }
    let mut min_k_op = kops[0];
    for m in 1..kops.len()
        invariant
            1 <= kops.len(),
            forall|j: int| 0 <= j < m ==> min_k_op <= #[trigger] kops@[j],
            exists|j: int| 0 <= j < kops.len() && min_k_op == #[trigger] kops@[j],
    {
        if kops[m] < min_k_op {
            min_k_op = kops[m];
        }
    }
    let limit = if native_k < min_k_op { native_k } else { min_k_op };
    let divs = divisors_le(min_k_op, limit);
    let mut r: Vec<i64> = Vec::new();
    for i in 0..divs.len()
        invariant
            forall|d: i64| divs@.contains(d) <==> (1 <= d <= limit && min_k_op >= 1 && min_k_op % d == 0),
            forall|d: i64|
                r@.contains(d) <==> (exists|j: int| 0 <= j < i && divs@[j] == d) && forall|m: int|
                    0 <= m < kops.len() ==> (#[trigger] kops@[m]) % d == 0,
            forall|j: int| 0 <= j < r.len() ==> divs@.contains(#[trigger] r@[j]),
            forall|m: int| 0 <= m < kops.len() ==> 0 <= #[trigger] kops@[m] <= MAX_DIM,
    {
        let d = divs[i];
        assert(divs@.contains(d));
        let mut all = true;
        for m in 0..kops.len()
            invariant
                d >= 1,
                forall|m: int| 0 <= m < kops.len() ==> 0 <= #[trigger] kops@[m] <= MAX_DIM,
                all == forall|q: int| 0 <= q < m ==> (#[trigger] kops@[q]) % d == 0,
        {
            if kops[m] % d != 0 {
                all = false;
            }
        }
        let ghost r0 = r@;
        if all {
            r.push(d);
        }
        proof {
            assert forall|x: i64|
                r@.contains(x) <==> (exists|j: int| 0 <= j < i + 1 && divs@[j] == x) && forall|m: int|
                    0 <= m < kops.len() ==> (#[trigger] kops@[m]) % x == 0 by {
                if r0.contains(x) {
                    let q = choose|q: int| 0 <= q < r0.len() && r0[q] == x;
                    assert(r@[q] == x);
                }
                if r@.contains(x) && !r0.contains(x) {
                    assert(r@[r@.len() - 1] == d);
                    assert(divs@[i as int] == x);
                }
                if (exists|j: int| 0 <= j < i + 1 && divs@[j] == x) && forall|m: int|
                    0 <= m < kops.len() ==> (#[trigger] kops@[m]) % x == 0 {
                    let j = choose|j: int| 0 <= j < i + 1 && divs@[j] == x;
                    if j == i {
                        assert(r@[r@.len() - 1] == d);
                    } else {
                        assert(r0.contains(x));
                    }
                }
            }
        }
    }
    proof {
        let jm = choose|j: int| 0 <= j < kops.len() && min_k_op == #[trigger] kops@[j];
        assert(exists|op: OperationId| is_matmul_node(sg, op)) by {
            assert(is_matmul_node(sg, src[0]));
        }
        assert forall|k: i64| r@.contains(k) <==> k_candidate(sg, native_k, k) by {
            if r@.contains(k) {
                let jj = choose|j: int| 0 <= j < divs@.len() && divs@[j] == k;
                assert(divs@.contains(k));
                assert forall|op: OperationId| #[trigger] is_matmul_node(sg, op) implies k <= k_op_of(g, op) && k_op_of(
                    g,
                    op,
                ) % k == 0 by {
                    let m = choose|m: int| 0 <= m < src.len() && src[m] == op;
                    assert(kops@[m] % k == 0);
                    assert(min_k_op <= kops@[m]);
                }
            }
            if k_candidate(sg, native_k, k) {
                assert(is_matmul_node(sg, src[jm]));
                assert(k <= kops@[jm] && kops@[jm] % k == 0);
                assert(divs@.contains(k));
                let jd = choose|j: int| 0 <= j < divs@.len() && divs@[j] == k;
                assert forall|m: int| 0 <= m < kops.len() implies (#[trigger] kops@[m]) % k == 0 by {
                    assert(is_matmul_node(sg, src[m]));
                }
            }
        }
        assert forall|j: int| 0 <= j < r.len() implies 1 <= #[trigger] r@[j] <= MAX_DIM by {
            assert(divs@.contains(r@[j]));
        }
    }
    r
}

/// Fast memory left once the distinct retained tensors are resident, or
/// `None` when that leaves nothing.
fn remaining_capacity(graph: &ComputationGraph, capacity: i64, retained: &[TensorId]) -> (r: Option<i64>)
    requires
        graph.wf(),
        dims_bounded(*graph),
        forall|i: int| 0 <= i < retained.len() ==> (#[trigger] retained@[i]).0 < graph.num_tensors(),
    ensures
        match r {
            Some(c) => c == capacity - retained_size(*graph, retained@) && c > 0,
            None => capacity - retained_size(*graph, retained@) <= 0,
        },
{
    let ghost g = *graph;
    if capacity <= 0 {
        proof {
            lemma_retained_size_mono(g, retained@, 0);
            assert(retained@.take(0).len() == 0);
        }
        return None;
    }
    let mut reserved: i64 = 0;
    for i in 0..retained.len()
        invariant
            graph.wf(),
            dims_bounded(g),
            g == *graph,
            forall|i: int| 0 <= i < retained.len() ==> (#[trigger] retained@[i]).0 < g.num_tensors(),
            reserved == retained_size(g, retained@.take(i as int)),
            0 <= reserved < capacity,
    {
        let tid = retained[i];
        let mut seen = false;
        for j in 0..i
            invariant
                i < retained.len(),
                tid == retained@[i as int],
                seen == retained@.take(j as int).contains(tid),
        {
            proof {
                lemma_take_step(retained@, j as int, tid);
            }
            if retained[j] == tid {
                seen = true;
            }
        }
        let ghost s1 = retained@.take(i + 1);
        proof {
            assert(s1.drop_last() =~= retained@.take(i as int));
            assert(s1.last() == tid);
            lemma_retained_size_nonneg(g, retained@.take(i as int));
        }
        if !seen {
            let t = graph.tensors()[tid.0];
            assert(t == g.tensor_seq()[tid.0 as int]);
            assert(0 <= t.width * t.height <= MAX_DIM * MAX_DIM) by (nonlinear_arith)
                requires
                    0 <= t.width <= MAX_DIM,
                    0 <= t.height <= MAX_DIM,
            ;
            let size = t.size();
            if size >= capacity - reserved {
                proof {
                    lemma_retained_size_mono(g, retained@, i + 1);
                }
                return None;
            }
            reserved = reserved + size;
        }
    }
    assert(retained@.take(retained.len() as int) =~= retained@);
    Some(capacity - reserved)
}

/// `s.take(i + 1)` holds `v` exactly when `s.take(i)` does or `s[i]` is `v`.
proof fn lemma_take_step<T>(s: Seq<T>, i: int, v: T)
    requires
        0 <= i < s.len(),
    ensures
        s.take(i + 1).contains(v) <==> (s.take(i).contains(v) || s[i] == v),
{
    let t1 = s.take(i + 1);
    let t0 = s.take(i);
    if t1.contains(v) {
        let q = choose|q: int| 0 <= q < t1.len() && t1[q] == v;
        if q < i {
            assert(t0[q] == v);
        }
    }
    if t0.contains(v) {
        let q = choose|q: int| 0 <= q < t0.len() && t0[q] == v;
        assert(t1[q] == v);
    }
    if s[i] == v {
        assert(t1[i] == v);
    }
}

proof fn lemma_retained_size_nonneg(g: ComputationGraph, s: Seq<TensorId>)
    requires
        dims_bounded(g),
        forall|i: int| 0 <= i < s.len() ==> (#[trigger] s[i]).0 < g.num_tensors(),
    ensures
        retained_size(g, s) >= 0,
    decreases s.len(),
{
    if s.len() > 0 {
        lemma_retained_size_nonneg(g, s.drop_last());
        let t = g.tensor_seq()[s.last().0 as int];
        assert(s[s.len() - 1] == s.last());
        assert(t.width * t.height >= 0) by (nonlinear_arith)
            requires
                t.width >= 0,
                t.height >= 0,
        ;
    }
}

/// Retaining more tensors never frees memory.
proof fn lemma_retained_size_mono(g: ComputationGraph, s: Seq<TensorId>, i: int)
    requires
        dims_bounded(g),
        0 <= i <= s.len(),
        forall|j: int| 0 <= j < s.len() ==> (#[trigger] s[j]).0 < g.num_tensors(),
    ensures
        retained_size(g, s.take(i)) <= retained_size(g, s),
    decreases s.len() - i,
{
    if i < s.len() {
        let s1 = s.take(i + 1);
        assert(s1.drop_last() =~= s.take(i));
        assert(s1.last() == s[i]);
        let t = g.tensor_seq()[s[i].0 as int];
        assert(t.width * t.height >= 0) by (nonlinear_arith)
            requires
                t.width >= 0,
                t.height >= 0,
        ;
        lemma_retained_size_mono(g, s, i + 1);
    } else {
        assert(s.take(i) =~= s);
    }
}

/// Granule `x` has been examined once the search has gone through widths
/// `cw[..a]`, heights `ch[..b]` at width `w`, and steps `ck[..c]` at `(w, h)`.
pub open spec fn examined(
    cw: Seq<i64>,
    a: int,
    ch: Seq<i64>,
    b: int,
    ck: Seq<i64>,
    c: int,
    w: i64,
    h: i64,
    x: (i64, i64, i64),
) -> bool {
    ||| cw.take(a).contains(x.0)
    ||| (x.0 == w && ch.take(b).contains(x.1))
    ||| (x.0 == w && x.1 == h && ck.take(c).contains(x.2))
}

/// Whether `best` is no worse than every feasible granule in `seen`.
pub open spec fn best_so_far(
    sg: Subgraph,
    dev: DeviceParameters,
    retained: Seq<TensorId>,
    best: Option<(i64, i64, i64)>,
    seen: spec_fn((i64, i64, i64)) -> bool,
) -> bool {
    &&& (best matches Some(b) ==> is_feasible(sg, dev, retained, b))
    &&& forall|x: (i64, i64, i64)|
        #[trigger] is_feasible(sg, dev, retained, x) && seen(x) ==> (best matches Some(b) && no_worse(
            sg,
            retained,
            b,
            x,
        ))
}

/// Goes through every candidate granule and keeps the best feasible one.
#[verifier::loop_isolation(false)]
fn best_granule(
    subgraph: &Subgraph,
    dev: &DeviceParameters,
    retained: &[TensorId],
    cw: &Vec<i64>,
    ch: &Vec<i64>,
    ck: &Vec<i64>,
    capacity: i64,
) -> (r: Option<(i64, i64, i64)>)
    requires
        subgraph.wf(),
        subgraph.graph().is_acyclic(),
        shaped(*subgraph),
        dims_bounded(subgraph.graph()),
        capacity == capacity_spec(subgraph.graph(), *dev, retained@),
        capacity > 0,
        forall|d: i64| cw@.contains(d) <==> spatial_candidate(*subgraph, dev.native_granularity.0, d, true),
        forall|d: i64| ch@.contains(d) <==> spatial_candidate(*subgraph, dev.native_granularity.1, d, false),
        forall|k: i64| ck@.contains(k) <==> k_candidate(*subgraph, native_k_of(*dev), k),
        forall|i: int| 0 <= i < cw.len() ==> 1 <= #[trigger] cw@[i] <= MAX_DIM,
        forall|i: int| 0 <= i < ch.len() ==> 1 <= #[trigger] ch@[i] <= MAX_DIM,
        forall|i: int| 0 <= i < ck.len() ==> 1 <= #[trigger] ck@[i] <= MAX_DIM,
        forall|c: (i64, i64, i64)|
            #[trigger] is_candidate(*subgraph, *dev, c) ==> peak_spec(*subgraph, c.0, c.1, c.2) <= i64::MAX,
        forall|c: (i64, i64, i64)|
            #[trigger] is_feasible(*subgraph, *dev, retained@, c) ==> traffic_fits(
                *subgraph,
                c.0,
                c.1,
                c.2,
                retained@,
            ),
    ensures
        match r {
            Some(c) => is_best(*subgraph, *dev, retained@, c),
            None => forall|c: (i64, i64, i64)| !is_feasible(*subgraph, *dev, retained@, c),
        },
{
    let ghost sg = *subgraph;
    let ghost ret = retained@;
    let mut best: Option<(i64, i64, i64)> = None;
    let mut best_traffic: i64 = i64::MAX;
    for a in 0..cw.len()
        invariant
            best matches Some(b) ==> best_traffic == traffic_spec(sg, b.0, b.1, b.2, ret),
            best_so_far(sg, *dev, ret, best, |x: (i64, i64, i64)| cw@.take(a as int).contains(x.0)),
    {
        let w = cw[a];
        for b in 0..ch.len()
            invariant
                w == cw@[a as int],
                best matches Some(bb) ==> best_traffic == traffic_spec(sg, bb.0, bb.1, bb.2, ret),
                best_so_far(
                    sg,
                    *dev,
                    ret,
                    best,
                    |x: (i64, i64, i64)| examined(cw@, a as int, ch@, b as int, ck@, 0, w, 0, x),
                ),
        {
            let h = ch[b];
            for c in 0..ck.len()
                invariant
                    w == cw@[a as int],
                    h == ch@[b as int],
                    best matches Some(bb) ==> best_traffic == traffic_spec(sg, bb.0, bb.1, bb.2, ret),
                    best_so_far(
                        sg,
                        *dev,
                        ret,
                        best,
                        |x: (i64, i64, i64)| examined(cw@, a as int, ch@, b as int, ck@, c as int, w, h, x),
                    ),
            {
                let k = ck[c];
                let ghost cand = (w, h, k);
                assert(cw@.contains(w));
                assert(ch@.contains(h));
                assert(ck@.contains(k));
                assert(is_candidate(sg, *dev, cand));
                let ghost best0 = best;
                if mixed_fusion_valid(subgraph, w, h, k) {
                    let peak = peak_working_set(subgraph, w, h, k);
                    if peak <= capacity {
                        assert(is_feasible(sg, *dev, ret, cand));
                        let traffic = memory_traffic(subgraph, w, h, k, retained);
                        let better = match best {
                            None => true,
                            Some((bw, bh, bk)) => traffic < best_traffic || (traffic == best_traffic && (w > bw || (
                            w == bw && (h > bh || (h == bh && k > bk))))),
                        };
                        if better {
                            best = Some((w, h, k));
                            best_traffic = traffic;
                        }
                    }
                }
                proof {
                    let seen0 = |x: (i64, i64, i64)| examined(cw@, a as int, ch@, b as int, ck@, c as int, w, h, x);
                    let seen1 = |x: (i64, i64, i64)| examined(cw@, a as int, ch@, b as int, ck@, c + 1, w, h, x);
                    assert forall|x: (i64, i64, i64)|
                        #[trigger] is_feasible(sg, *dev, ret, x) && seen1(x) implies (best matches Some(bb)
                            && no_worse(sg, ret, bb, x)) by {
                        lemma_take_step(ck@, c as int, x.2);
                        if seen0(x) {
                            assert(best0 matches Some(b0) && no_worse(sg, ret, b0, x));
                        } else {
                            assert(x == cand);
                        }
                    }
                }
            }
            proof {
                assert(ck@.take(ck.len() as int) =~= ck@);
                assert forall|x: (i64, i64, i64)|
                    #[trigger] is_feasible(sg, *dev, ret, x) && examined(cw@, a as int, ch@, b + 1, ck@, 0, w, 0, x)
                        implies (best matches Some(bb) && no_worse(sg, ret, bb, x)) by {
                    lemma_take_step(ch@, b as int, x.1);
                    if x.0 == w && x.1 == h {
                        assert(ck@.contains(x.2));
                        assert(examined(cw@, a as int, ch@, b as int, ck@, ck.len() as int, w, h, x));
                    } else {
                        assert(examined(cw@, a as int, ch@, b as int, ck@, ck.len() as int, w, h, x));
                    }
                }
            }
        }
        proof {
            assert(ch@.take(ch.len() as int) =~= ch@);
            assert forall|x: (i64, i64, i64)|
                #[trigger] is_feasible(sg, *dev, ret, x) && cw@.take(a + 1).contains(x.0) implies (best matches Some(
                bb,
            ) && no_worse(sg, ret, bb, x)) by {
                lemma_take_step(cw@, a as int, x.0);
                if x.0 == w {
                    assert(ch@.contains(x.1));
                }
                assert(examined(cw@, a as int, ch@, ch.len() as int, ck@, 0, w, 0, x));
            }
        }
    }
    proof {
        assert(cw@.take(cw.len() as int) =~= cw@);
        assert forall|x: (i64, i64, i64)| #[trigger] is_feasible(sg, *dev, ret, x) implies (best matches Some(bb)
            && no_worse(sg, ret, bb, x)) by {
            assert(cw@.contains(x.0));
        }
    }
    best
}

/// Chooses the granule `(w, h, k)` for a subgraph: among the candidates (tile
/// extents dividing every output's width and height up to the native
/// granularity, reduction steps dividing every matrix multiplication's
/// `K_op`), those that obey the fusion rule and whose peak working set fits in
/// fast memory beside the retained tensors; of them the one with the least
/// memory traffic, and the lexicographically largest among equals.
pub fn search_tile_values(
    subgraph: &Subgraph,
    device_params: &DeviceParameters,
    retained_tensor_ids: &[TensorId],
) -> (r: Result<(i64, i64, i64), SearchError>)
    requires
        subgraph.wf(),
        subgraph.graph().is_acyclic(),
        shaped(*subgraph),
        dims_bounded(subgraph.graph()),
        forall|i: int|
            0 <= i < retained_tensor_ids.len() ==> (#[trigger] retained_tensor_ids@[i]).0
                < subgraph.graph().num_tensors(),
        forall|c: (i64, i64, i64)|
            #[trigger] is_candidate(*subgraph, *device_params, c) ==> peak_spec(*subgraph, c.0, c.1, c.2)
                <= i64::MAX,
        forall|c: (i64, i64, i64)|
            #[trigger] is_feasible(*subgraph, *device_params, retained_tensor_ids@, c) ==> traffic_fits(
                *subgraph,
                c.0,
                c.1,
                c.2,
                retained_tensor_ids@,
            ),
    ensures
        (r == Err::<(i64, i64, i64), SearchError>(SearchError::Inconsistent)) <==> subgraph.output_seq().len() == 0,
        r matches Ok(c) ==> is_best(*subgraph, *device_params, retained_tensor_ids@, c),
        r matches Ok(c) ==> 1 <= c.0 <= device_params.native_granularity.0 && 1 <= c.1
            <= device_params.native_granularity.1 && 1 <= c.2 && c.2 <= device_params.native_granularity.0 && c.2
            <= device_params.native_granularity.1,
        r == Err::<(i64, i64, i64), SearchError>(SearchError::NotFound) ==> forall|c: (i64, i64, i64)|
            !is_feasible(*subgraph, *device_params, retained_tensor_ids@, c),
{
    let graph = subgraph.parent();
    let outputs = subgraph.output_tensor_ids();
    if outputs.len() == 0 {
        return Err(SearchError::Inconsistent);
    }
    let (native_w, native_h) = device_params.native_granularity;
    let native_k = if native_w < native_h { native_w } else { native_h };
    let candidate_w = spatial_candidates(subgraph, &outputs, native_w, true);
    let candidate_h = spatial_candidates(subgraph, &outputs, native_h, false);
    let candidate_k = k_candidates(subgraph, native_k);
    if candidate_w.len() == 0 || candidate_h.len() == 0 || candidate_k.len() == 0 {
        proof {
            assert forall|c: (i64, i64, i64)| !is_feasible(*subgraph, *device_params, retained_tensor_ids@, c) by {
                if is_feasible(*subgraph, *device_params, retained_tensor_ids@, c) {
                    assert(candidate_w@.contains(c.0));
                    assert(candidate_h@.contains(c.1));
                    assert(candidate_k@.contains(c.2));
                }
            }
        }
        return Err(SearchError::NotFound);
    }
    let capacity = match remaining_capacity(graph, device_params.fast_memory_capacity, retained_tensor_ids) {
        Some(c) => c,
        None => {
            return Err(SearchError::NotFound);
        },
    };
    match best_granule(subgraph, device_params, retained_tensor_ids, &candidate_w, &candidate_h, &candidate_k, capacity) {
        Some(c) => Ok(c),
        None => Err(SearchError::NotFound),
    }
}

/// There is at most one best granule: ties in traffic go to the
/// lexicographically largest, so the tile search's answer is determined by
/// the subgraph, the device and the retained tensors.
pub proof fn lemma_best_unique(
    sg: Subgraph,
    dev: DeviceParameters,
    retained: Seq<TensorId>,
    c: (i64, i64, i64),
    d: (i64, i64, i64),
)
    requires
        is_best(sg, dev, retained, c),
        is_best(sg, dev, retained, d),
    ensures
        c == d,
{
    assert(no_worse(sg, retained, c, d));
    assert(no_worse(sg, retained, d, c));
}

/// The chosen granule never exceeds the native granularity: its width and
/// height are at most the native ones, and its reduction step at most the
/// smaller of the two.
pub proof fn lemma_best_within_native(sg: Subgraph, dev: DeviceParameters, retained: Seq<TensorId>, c: (i64, i64, i64))
    requires
        is_best(sg, dev, retained, c),
    ensures
        1 <= c.0 <= dev.native_granularity.0,
        1 <= c.1 <= dev.native_granularity.1,
        1 <= c.2 <= native_k_of(dev),
        c.2 <= dev.native_granularity.0,
        c.2 <= dev.native_granularity.1,
{
}

/// The chosen reduction step divides the reduction length `K_op` of every
/// matrix multiplication of the subgraph, so it is at most the smallest one.
pub proof fn lemma_best_k_divides(
    sg: Subgraph,
    dev: DeviceParameters,
    retained: Seq<TensorId>,
    c: (i64, i64, i64),
    op: OperationId,
)
    requires
        is_best(sg, dev, retained, c),
        sg.has(op),
        kind_of(sg.graph(), op) == OperationType::MatMul,
    ensures
        c.2 <= k_op_of(sg.graph(), op),
        k_op_of(sg.graph(), op) % c.2 == 0,
{
    assert(is_matmul_node(sg, op));
}

/// When the chosen granule splits the reduction of a matrix multiplication
/// (`k < K_op`), an operand produced by a pointwise operation of the subgraph
/// is covered whole: the tile width reaches `K_op` for the left operand, the
/// tile height for the right one.
pub proof fn lemma_best_prologue_covers_reduction(
    sg: Subgraph,
    dev: DeviceParameters,
    retained: Seq<TensorId>,
    c: (i64, i64, i64),
    op: OperationId,
    side: int,
)
    requires
        is_best(sg, dev, retained, c),
        sg.has(op),
        kind_of(sg.graph(), op) == OperationType::MatMul,
        c.2 < k_op_of(sg.graph(), op),
        side == 0 || side == 1,
        sg.graph().producer_spec(sg.graph().ins()[op.0 as int][side]) matches Some(p) && sg.has(p) && kind_of(
            sg.graph(),
            p,
        ) == OperationType::Pointwise,
    ensures
        side == 0 ==> c.0 >= k_op_of(sg.graph(), op),
        side == 1 ==> c.1 >= k_op_of(sg.graph(), op),
{
    assert(side_ok(sg, op, side, c.0, c.1));
}

} // verus!
