use vstd::prelude::*;

use crate::graph::{OperationId, OperationType, Subgraph, TensorId};
use crate::rational::{
    fraction_add, fraction_from_int, frac_add, frac_le, lemma_reduced, rational_max, Rational,
};
use crate::graph::Tensor;
use crate::input_format::DeviceParameters;
use crate::rational::{fraction_div_int, fraction_mul_int, frac_div, frac_mul, reduced};
use crate::tiling::{
    ceil_div, dims_bounded, k_op, kind_of, lemma_reduction_bounded, op_kind, reduction_of, shaped, spec_ceil_div,
    walk_depth, MAX_DIM,
};

use vstd::arithmetic::div_mod::{lemma_fundamental_div_mod, lemma_fundamental_div_mod_converse};

verus! {

/// Compute and memory latency of one iteration; the iteration takes as long
/// as the larger of the two.
#[derive(Clone, Copy, Debug, PartialEq, Eq, Structural)]
pub struct PerformanceMetric {
    pub compute_cost: Rational,
    pub memory_cost: Rational,
}

/// The fraction `0 / 1`.
pub open spec fn zero_pair() -> (nat, nat) {
    (0nat, 1nat)
}

impl PerformanceMetric {
    /// Compute cost and memory cost, as fractions.
    pub open spec fn costs(self) -> ((nat, nat), (nat, nat)) {
        (self.compute_cost.pair(), self.memory_cost.pair())
    }

    /// Both costs have a positive denominator.
    pub open spec fn wf(self) -> bool {
        self.compute_cost.denom > 0 && self.memory_cost.denom > 0
    }

    pub fn zero() -> (r: Self)
        ensures
            r.costs() == (zero_pair(), zero_pair()),
    {
        Self { compute_cost: fraction_from_int(0), memory_cost: fraction_from_int(0) }
    }

    pub fn from_compute_cost(cost: Rational) -> (r: Self)
        ensures
            r.costs() == (cost.pair(), zero_pair()),
    {
        Self { compute_cost: cost, memory_cost: fraction_from_int(0) }
    }

    pub fn from_memory_cost(cost: Rational) -> (r: Self)
        ensures
            r.costs() == (zero_pair(), cost.pair()),
    {
        Self { compute_cost: fraction_from_int(0), memory_cost: cost }
    }

    /// The larger of the memory and the compute cost (the compute cost when
    /// they are equal).
    pub fn latency(&self) -> (r: Rational)
        requires
            self.wf(),
        ensures
            r.pair() == crate::rational::frac_max(self.memory_cost.pair(), self.compute_cost.pair()),
    {
        rational_max(self.memory_cost, self.compute_cost)
    }

    /// Adds the costs field by field.
    pub fn combine(self, rhs: Self) -> (r: Self)
        requires
            self.wf(),
            rhs.wf(),
            self.compute_cost.numer * rhs.compute_cost.denom + rhs.compute_cost.numer * self.compute_cost.denom
                <= u64::MAX,
            self.compute_cost.denom * rhs.compute_cost.denom <= u64::MAX,
            self.memory_cost.numer * rhs.memory_cost.denom + rhs.memory_cost.numer * self.memory_cost.denom
                <= u64::MAX,
            self.memory_cost.denom * rhs.memory_cost.denom <= u64::MAX,
        ensures
            r.costs() == (
                frac_add(self.compute_cost.pair(), rhs.compute_cost.pair()),
                frac_add(self.memory_cost.pair(), rhs.memory_cost.pair()),
            ),
    {
        Self {
            compute_cost: fraction_add(self.compute_cost, rhs.compute_cost),
            memory_cost: fraction_add(self.memory_cost, rhs.memory_cost),
        }
    }
}

/// A rectangle of a tensor: top-left `(row, column)` and `(rows, columns)`.
#[derive(Clone, Copy, Debug, PartialEq, Eq)]
pub struct TensorSlice {
    pub position: (i64, i64),
    pub shape: (i64, i64),
}

impl TensorSlice {
    pub open spec fn spec_size(self) -> int {
        self.shape.0 * self.shape.1
    }

    /// Number of elements of the slice.
    pub fn size(&self) -> (r: i64)
        requires
            0 <= self.shape.0 <= MAX_DIM,
            0 <= self.shape.1 <= MAX_DIM,
        ensures
            r == self.spec_size(),
    {
        assert(0 <= self.shape.0 * self.shape.1 <= MAX_DIM * MAX_DIM) by (nonlinear_arith)
            requires
                0 <= self.shape.0 <= MAX_DIM,
                0 <= self.shape.1 <= MAX_DIM,
        ;
        self.shape.0 * self.shape.1
    }
}

/// The smaller of two integers.
pub open spec fn min_i64(a: i64, b: i64) -> i64 {
    if a <= b {
        a
    } else {
        b
    }
}

/// The slices of subgraph inputs read to produce slice `s` of `t`, walking back
/// from output `out` through the producers inside the subgraph. A pointwise
/// operation reads the same slice of each operand. A matrix multiplication
/// reads rows `s` of its left operand and columns `s` of its right operand
/// over the reduction range: at `out` itself the range starts at `ridx` and
/// spans at most `rk`; further back it is the whole reduction.
pub open spec fn tile_leaves(
    sg: Subgraph,
    out: TensorId,
    t: TensorId,
    s: TensorSlice,
    ridx: i64,
    rk: i64,
    depth: nat,
) -> Seq<(TensorId, TensorSlice)>
    decreases depth, 0nat,
{
    let g = sg.graph();
    if depth == 0 {
        Seq::empty()
    } else if sg.is_input_tensor(t) {
        seq![(t, s)]
    } else {
        match g.producer_spec(t) {
            None => Seq::empty(),
            Some(p) => if !sg.has(p) {
                Seq::empty()
            } else if kind_of(g, p) == OperationType::Pointwise {
                tile_leaves_list(sg, out, g.ins()[p.0 as int], s, ridx, rk, (depth - 1) as nat)
            } else {
                let lhs = g.ins()[p.0 as int][0];
                let rhs = g.ins()[p.0 as int][1];
                let width = g.tensor_seq()[lhs.0 as int].width;
                let (ri, rs) = if t == out {
                    (ridx, min_i64(rk, (width - ridx) as i64))
                } else {
                    (0i64, width)
                };
                tile_leaves(
                    sg,
                    out,
                    lhs,
                    TensorSlice { position: (s.position.0, ri), shape: (s.shape.0, rs) },
                    ridx,
                    rk,
                    (depth - 1) as nat,
                ) + tile_leaves(
                    sg,
                    out,
                    rhs,
                    TensorSlice { position: (ri, s.position.1), shape: (rs, s.shape.1) },
                    ridx,
                    rk,
                    (depth - 1) as nat,
                )
            },
        }
    }
}

/// `tile_leaves` of each tensor of `ts`, concatenated.
pub open spec fn tile_leaves_list(
    sg: Subgraph,
    out: TensorId,
    ts: Seq<TensorId>,
    s: TensorSlice,
    ridx: i64,
    rk: i64,
    depth: nat,
) -> Seq<(TensorId, TensorSlice)>
    decreases depth, ts.len(),
{
    if ts.len() == 0 {
        Seq::empty()
    } else {
        tile_leaves_list(sg, out, ts.drop_last(), s, ridx, rk, depth) + tile_leaves(
            sg,
            out,
            ts.last(),
            s,
            ridx,
            rk,
            depth,
        )
    }
}

/// The reduction range at `out` is inside its left operand when `out` is
/// produced by a matrix multiplication.
pub open spec fn reduction_start_ok(sg: Subgraph, out: TensorId, ridx: i64) -> bool {
    let g = sg.graph();
    &&& 0 <= ridx <= 2 * MAX_DIM
    &&& match g.producer_spec(out) {
        Some(p) => kind_of(g, p) == OperationType::MatMul && sg.has(p) ==> ridx
            < g.tensor_seq()[g.ins()[p.0 as int][0].0 as int].width,
        None => true,
    }
}

/// Every slice of `ls` has both extents in `0..=MAX_DIM`.
pub open spec fn shapes_bounded(ls: Seq<(TensorId, TensorSlice)>) -> bool {
    forall|i: int|
        0 <= i < ls.len() ==> 0 <= (#[trigger] ls[i]).1.shape.0 <= MAX_DIM && 0 <= ls[i].1.shape.1 <= MAX_DIM
}

proof fn lemma_leaves_bounded(
    sg: Subgraph,
    out: TensorId,
    t: TensorId,
    s: TensorSlice,
    ridx: i64,
    rk: i64,
    depth: nat,
)
    requires
        sg.wf(),
        shaped(sg),
        dims_bounded(sg.graph()),
        0 <= s.shape.0 <= MAX_DIM,
        0 <= s.shape.1 <= MAX_DIM,
        1 <= rk <= MAX_DIM,
        reduction_start_ok(sg, out, ridx),
    ensures
        shapes_bounded(tile_leaves(sg, out, t, s, ridx, rk, depth)),
    decreases depth, 0nat,
{
    let g = sg.graph();
    if depth > 0 && !sg.is_input_tensor(t) {
        match g.producer_spec(t) {
            None => {},
            Some(p) => if sg.has(p) {
                assert(p.0 < g.num_ops());
                if kind_of(g, p) == OperationType::Pointwise {
                    lemma_leaves_list_bounded(sg, out, g.ins()[p.0 as int], s, ridx, rk, (depth - 1) as nat);
                } else {
                    assert(g.outs()[p.0 as int].len() >= 1);
                    let lhs = g.ins()[p.0 as int][0];
                    let rhs = g.ins()[p.0 as int][1];
                    assert(lhs.0 < g.num_tensors());
                    let width = g.tensor_seq()[lhs.0 as int].width;
                    let (ri, rs) = if t == out {
                        (ridx, min_i64(rk, (width - ridx) as i64))
                    } else {
                        (0i64, width)
                    };
                    assert(0 <= rs <= MAX_DIM);
                    lemma_leaves_bounded(
                        sg,
                        out,
                        lhs,
                        TensorSlice { position: (s.position.0, ri), shape: (s.shape.0, rs) },
                        ridx,
                        rk,
                        (depth - 1) as nat,
                    );
                    lemma_leaves_bounded(
                        sg,
                        out,
                        rhs,
                        TensorSlice { position: (ri, s.position.1), shape: (rs, s.shape.1) },
                        ridx,
                        rk,
                        (depth - 1) as nat,
                    );
                }
            },
        }
    }
}

proof fn lemma_leaves_list_bounded(
    sg: Subgraph,
    out: TensorId,
    ts: Seq<TensorId>,
    s: TensorSlice,
    ridx: i64,
    rk: i64,
    depth: nat,
)
    requires
        sg.wf(),
        shaped(sg),
        dims_bounded(sg.graph()),
        0 <= s.shape.0 <= MAX_DIM,
        0 <= s.shape.1 <= MAX_DIM,
        1 <= rk <= MAX_DIM,
        reduction_start_ok(sg, out, ridx),
    ensures
        shapes_bounded(tile_leaves_list(sg, out, ts, s, ridx, rk, depth)),
    decreases depth, ts.len(),
{
    if ts.len() > 0 {
        lemma_leaves_list_bounded(sg, out, ts.drop_last(), s, ridx, rk, depth);
        lemma_leaves_bounded(sg, out, ts.last(), s, ridx, rk, depth);
    }
}

/// Appends the slices that `tile_leaves` describes to `acc`.
fn collect_tile_leaves(
    subgraph: &Subgraph,
    inputs: &Vec<TensorId>,
    out: TensorId,
    t: TensorId,
    s: TensorSlice,
    ridx: i64,
    rk: i64,
    depth: usize,
    acc: &mut Vec<(TensorId, TensorSlice)>,
)
    requires
        subgraph.wf(),
        shaped(*subgraph),
        dims_bounded(subgraph.graph()),
        forall|x: TensorId| inputs@.contains(x) <==> subgraph.is_input_tensor(x),
        0 <= ridx <= 2 * MAX_DIM,
    ensures
        final(acc)@ == old(acc)@ + tile_leaves(*subgraph, out, t, s, ridx, rk, depth as nat),
    decreases depth,
{
    let graph = subgraph.parent();
    let ghost sg = *subgraph;
    let ghost g = subgraph.graph();
    if depth == 0 {
        assert(old(acc)@ + Seq::<(TensorId, TensorSlice)>::empty() =~= old(acc)@);
        return;
    }
    if crate::subgraph::contains_tensor(inputs, t) {
        acc.push((t, s));
        return;
    }
    let producer_id = match graph.producer_id_of(t) {
        Some(id) => id,
        None => {
            assert(old(acc)@ + Seq::<(TensorId, TensorSlice)>::empty() =~= old(acc)@);
            return;
        },
    };
    if !subgraph.contains(producer_id) {
        assert(old(acc)@ + Seq::<(TensorId, TensorSlice)>::empty() =~= old(acc)@);
        return;
    }
    assert(g.outs()[producer_id.0 as int].len() >= 1);
    let kind = crate::tiling::op_kind(graph, producer_id);
    let op_inputs = graph.input_ids_for(producer_id);
    match kind {
        OperationType::Pointwise => {
            let ghost ts = op_inputs@;
            let ghost acc0 = old(acc)@;
            assert(ts.take(0) =~= Seq::<TensorId>::empty());
            assert(acc0 + Seq::<(TensorId, TensorSlice)>::empty() =~= acc0);
            for q in 0..op_inputs.len()
                invariant
                    subgraph.wf(),
                    shaped(sg),
                    dims_bounded(g),
                    sg == *subgraph,
                    g == sg.graph(),
                    ts == op_inputs@,
                    depth > 0,
                    0 <= ridx <= 2 * MAX_DIM,
                    forall|x: TensorId| inputs@.contains(x) <==> sg.is_input_tensor(x),
                    acc@ == acc0 + tile_leaves_list(sg, out, ts.take(q as int), s, ridx, rk, (depth - 1) as nat),
            {
                proof {
                    assert(ts.take(q + 1).drop_last() =~= ts.take(q as int));
                    assert(ts.take(q + 1).last() == ts[q as int]);
                }
                collect_tile_leaves(subgraph, inputs, out, op_inputs[q], s, ridx, rk, depth - 1, acc);
                proof {
                    assert(acc@ =~= acc0 + tile_leaves_list(
                        sg,
                        out,
                        ts.take(q + 1),
                        s,
                        ridx,
                        rk,
                        (depth - 1) as nat,
                    ));
                }
            }
            assert(ts.take(ts.len() as int) =~= ts);
        },
        OperationType::MatMul => {
            let lhs = op_inputs[0];
            let rhs = op_inputs[1];
            assert(g.ins()[producer_id.0 as int][0].0 < g.num_tensors());
            let width = graph.tensors()[lhs.0].width;
            let (ri, rs) = if t == out {
                let rest = width - ridx;
                (ridx, if rk <= rest {
                    rk
                } else {
                    rest
                })
            } else {
                (0i64, width)
            };
            let ghost acc0 = old(acc)@;
            let ls = TensorSlice { position: (s.position.0, ri), shape: (s.shape.0, rs) };
            let rsl = TensorSlice { position: (ri, s.position.1), shape: (rs, s.shape.1) };
            collect_tile_leaves(subgraph, inputs, out, lhs, ls, ridx, rk, depth - 1, acc);
            collect_tile_leaves(subgraph, inputs, out, rhs, rsl, ridx, rk, depth - 1, acc);
            proof {
                assert(acc@ =~= acc0 + tile_leaves(sg, out, t, s, ridx, rk, depth as nat));
            }
        },
    }
}

/// The output slice of tile `(i, j)` of a tensor: it starts at
/// `(i * rows, j * cols)` and is clipped to the tensor.
pub open spec fn output_slice(height: i64, width: i64, tile_size: (i64, i64, i64), tile_index: (i64, i64, i64)) -> TensorSlice {
    let r0 = (tile_index.0 * tile_size.0) as i64;
    let c0 = (tile_index.1 * tile_size.1) as i64;
    TensorSlice {
        position: (r0, c0),
        shape: (min_i64(tile_size.0, (height - r0) as i64), min_i64(tile_size.1, (width - c0) as i64)),
    }
}

/// The input slices that tile `tile_index` of `output_id` reads, for tiles of
/// `tile_size = (rows, columns, reduction)`.
fn input_tiles_for_output(
    subgraph: &Subgraph,
    inputs: &Vec<TensorId>,
    output_id: TensorId,
    tile_size: (i64, i64, i64),
    tile_index: (i64, i64, i64),
) -> (r: Vec<(TensorId, TensorSlice)>)
    requires
        subgraph.wf(),
        shaped(*subgraph),
        dims_bounded(subgraph.graph()),
        forall|x: TensorId| inputs@.contains(x) <==> subgraph.is_input_tensor(x),
        output_id.0 < subgraph.graph().num_tensors(),
        0 <= tile_index.0 * tile_size.0 <= 2 * MAX_DIM,
        0 <= tile_index.1 * tile_size.1 <= 2 * MAX_DIM,
        0 <= tile_index.2 * tile_size.2 <= 2 * MAX_DIM,
    ensures
        r@ == tile_leaves(
            *subgraph,
            output_id,
            output_id,
            output_slice(
                subgraph.graph().tensor_seq()[output_id.0 as int].height,
                subgraph.graph().tensor_seq()[output_id.0 as int].width,
                tile_size,
                tile_index,
            ),
            (tile_index.2 * tile_size.2) as i64,
            tile_size.2,
            walk_depth(*subgraph),
        ),
{
    let graph = subgraph.parent();
    let out_t = graph.tensors()[output_id.0];
    let r0 = tile_index.0 * tile_size.0;
    let c0 = tile_index.1 * tile_size.1;
    let rows_left = out_t.height - r0;
    let cols_left = out_t.width - c0;
    let s = TensorSlice {
        position: (r0, c0),
        shape: (if tile_size.0 <= rows_left {
            tile_size.0
        } else {
            rows_left
        }, if tile_size.1 <= cols_left {
            tile_size.1
        } else {
            cols_left
        }),
    };
    let ridx = tile_index.2 * tile_size.2;
    let mut acc: Vec<(TensorId, TensorSlice)> = Vec::new();
    proof {
        subgraph.lemma_len_bound();
    }
    collect_tile_leaves(subgraph, inputs, output_id, output_id, s, ridx, tile_size.2, subgraph.nodes().len() + 1, &mut acc);
    assert(Seq::<(TensorId, TensorSlice)>::empty() + tile_leaves(
        *subgraph,
        output_id,
        output_id,
        s,
        ridx,
        tile_size.2,
        walk_depth(*subgraph),
    ) =~= acc@);
    acc
}

/// The walk back from output `o` passes through `t`: `t` is produced inside
/// the subgraph and is neither one of its inputs nor another of its outputs.
pub open spec fn walks_through(sg: Subgraph, o: TensorId, t: TensorId) -> bool {
    &&& !sg.is_input_tensor(t)
    &&& !(t != o && sg.is_output_tensor(t))
    &&& sg.graph().producer_spec(t) matches Some(p) && sg.has(p)
}

/// The operations reached within `d` steps walking back from output `o`
/// through the producers inside the subgraph, stopping at the subgraph's
/// inputs and at its other outputs.
pub open spec fn cone_set(sg: Subgraph, o: TensorId, d: nat) -> Set<OperationId>
    decreases d,
{
    if d == 0 {
        Set::empty()
    } else {
        let prev = cone_set(sg, o, (d - 1) as nat);
        Set::new(
            |x: OperationId|
                (walks_through(sg, o, o) && sg.graph().producer_spec(o) == Some(x)) || prev.contains(x) || exists|
                    y: OperationId,
                    t: TensorId,
                |
                    #![trigger prev.contains(y), sg.graph().ins()[y.0 as int].contains(t)]
                    prev.contains(y) && sg.graph().ins()[y.0 as int].contains(t) && walks_through(sg, o, t)
                        && sg.graph().producer_spec(t) == Some(x),
        )
    }
}

/// Operation `x` is reached within `d` steps walking back from output `o`.
pub open spec fn in_cone(sg: Subgraph, o: TensorId, x: OperationId, d: nat) -> bool {
    cone_set(sg, o, d).contains(x)
}

/// Base cost of the operations of `ops` that compute a tile of output `o`
/// (see `in_cone`); each is counted once, however many paths reach it.
pub open spec fn cone_cost(sg: Subgraph, o: TensorId, ops: Seq<OperationId>) -> int
    decreases ops.len(),
{
    if ops.len() == 0 {
        0
    } else {
        cone_cost(sg, o, ops.drop_last()) + if in_cone(sg, o, ops.last(), walk_depth(sg)) {
            sg.graph().ops()[ops.last().0 as int].base_cost
        } else {
            0
        }
    }
}

/// Every operation of the subgraph has a non-negative base cost.
pub open spec fn costs_nonneg(sg: Subgraph) -> bool {
    forall|op: crate::graph::OperationId| #[trigger] sg.has(op) ==> sg.graph().ops()[op.0 as int].base_cost >= 0
}

/// Operations in the cone belong to the subgraph.
proof fn lemma_cone_inside(sg: Subgraph, o: TensorId, x: OperationId, d: nat)
    requires
        in_cone(sg, o, x, d),
    ensures
        sg.has(x),
    decreases d,
{
    if d > 0 {
        let p = (d - 1) as nat;
        if in_cone(sg, o, x, p) {
            lemma_cone_inside(sg, o, x, p);
        }
    }
}

/// The cone cost of a list of operations of the subgraph is not negative.
proof fn lemma_cone_cost_nonneg(sg: Subgraph, o: TensorId, ops: Seq<OperationId>)
    requires
        costs_nonneg(sg),
        forall|i: int| 0 <= i < ops.len() ==> sg.has(#[trigger] ops[i]),
    ensures
        0 <= cone_cost(sg, o, ops),
    decreases ops.len(),
{
    if ops.len() > 0 {
        let d = ops.drop_last();
        assert forall|i: int| 0 <= i < d.len() implies sg.has(#[trigger] d[i]) by {
            assert(d[i] == ops[i]);
        }
        lemma_cone_cost_nonneg(sg, o, d);
        let x = ops.last();
        assert(x == ops[ops.len() - 1]);
        assert(sg.has(x));
    }
}

/// The cone cost of a prefix of `ops` is between zero and that of `ops`.
proof fn lemma_cone_cost_prefix(sg: Subgraph, o: TensorId, ops: Seq<OperationId>, q: int)
    requires
        costs_nonneg(sg),
        forall|i: int| 0 <= i < ops.len() ==> sg.has(#[trigger] ops[i]),
        0 <= q <= ops.len(),
    ensures
        0 <= cone_cost(sg, o, ops.take(q)) <= cone_cost(sg, o, ops),
    decreases ops.len(),
{
    let tq = ops.take(q);
    assert forall|i: int| 0 <= i < tq.len() implies sg.has(#[trigger] tq[i]) by {
        assert(tq[i] == ops[i]);
    }
    lemma_cone_cost_nonneg(sg, o, tq);
    if q == ops.len() {
        assert(tq =~= ops);
    } else {
        let d = ops.drop_last();
        assert forall|i: int| 0 <= i < d.len() implies sg.has(#[trigger] d[i]) by {
            assert(d[i] == ops[i]);
        }
        lemma_cone_cost_prefix(sg, o, d, q);
        assert(d.take(q) =~= tq);
        let x = ops.last();
        assert(x == ops[ops.len() - 1]);
        assert(sg.has(x));
    }
}

/// Whether `ts` contains `t`.
fn tensor_in(ts: &Vec<TensorId>, t: TensorId) -> (r: bool)
    ensures
        r == ts@.contains(t),
{
    crate::subgraph::contains_tensor(ts, t)
}

/// Whether the walk back from `o` passes through `t`, with the producer of `t`.
fn walk_step(subgraph: &Subgraph, inputs: &Vec<TensorId>, outputs: &Vec<TensorId>, o: TensorId, t: TensorId) -> (r: Option<
    OperationId,
>)
    requires
        subgraph.wf(),
        forall|x: TensorId| inputs@.contains(x) <==> subgraph.is_input_tensor(x),
        forall|x: TensorId| outputs@.contains(x) <==> subgraph.is_output_tensor(x),
    ensures
        r is Some <==> walks_through(*subgraph, o, t),
        r matches Some(p) ==> subgraph.graph().producer_spec(t) == Some(p) && p.0 < subgraph.graph().num_ops(),
{
    if tensor_in(inputs, t) || (t != o && tensor_in(outputs, t)) {
        return None;
    }
    match subgraph.parent().producer_id_of(t) {
        Some(p) => if subgraph.contains(p) {
            Some(p)
        } else {
            None
        },
        None => None,
    }
}

/// Some operation `z` below `y` in the cone within `d` steps has an input
/// that the walk passes through and that `x` produces.
#[verifier::opaque]
spec fn fed_below(sg: Subgraph, o: TensorId, d: nat, x: OperationId, y: int) -> bool {
    exists|z: OperationId, t: TensorId|
        #![trigger in_cone(sg, o, z, d), sg.graph().ins()[z.0 as int].contains(t)]
        z.0 < y && in_cone(sg, o, z, d) && sg.graph().ins()[z.0 as int].contains(t) && walks_through(sg, o, t)
            && sg.graph().producer_spec(t) == Some(x)
}

/// One of the first `q` inputs of `z` is walked through and produced by `x`.
#[verifier::opaque]
spec fn fed_by_input(sg: Subgraph, o: TensorId, z: OperationId, x: OperationId, q: int) -> bool {
    exists|m: int|
        0 <= m < q && walks_through(sg, o, #[trigger] sg.graph().ins()[z.0 as int][m]) && sg.graph().producer_spec(
            sg.graph().ins()[z.0 as int][m],
        ) == Some(x)
}

proof fn lemma_fed_by_input_step(sg: Subgraph, o: TensorId, z: OperationId, x: OperationId, q: int)
    requires
        0 <= q < sg.graph().ins()[z.0 as int].len(),
    ensures
        fed_by_input(sg, o, z, x, q + 1) <==> fed_by_input(sg, o, z, x, q) || (walks_through(
            sg,
            o,
            sg.graph().ins()[z.0 as int][q],
        ) && sg.graph().producer_spec(sg.graph().ins()[z.0 as int][q]) == Some(x)),
{
    reveal(fed_by_input);
}

proof fn lemma_fed_by_input_zero(sg: Subgraph, o: TensorId, z: OperationId, x: OperationId)
    ensures
        !fed_by_input(sg, o, z, x, 0),
{
    reveal(fed_by_input);
}

proof fn lemma_fed_below_zero(sg: Subgraph, o: TensorId, d: nat, x: OperationId)
    ensures
        !fed_below(sg, o, d, x, 0),
{
    reveal(fed_below);
}

proof fn lemma_fed_below_step(sg: Subgraph, o: TensorId, d: nat, x: OperationId, y: int)
    requires
        0 <= y <= usize::MAX,
    ensures
        fed_below(sg, o, d, x, y + 1) <==> fed_below(sg, o, d, x, y) || (in_cone(sg, o, OperationId(y as usize), d)
            && fed_by_input(sg, o, OperationId(y as usize), x, sg.graph().ins()[y].len() as int)),
{
    reveal(fed_below);
    reveal(fed_by_input);
    let g = sg.graph();
    let yop = OperationId(y as usize);
    if fed_below(sg, o, d, x, y + 1) && !fed_below(sg, o, d, x, y) {
        let (z, t) = choose|z: OperationId, t: TensorId|
            #![trigger in_cone(sg, o, z, d), g.ins()[z.0 as int].contains(t)]
            z.0 < y + 1 && in_cone(sg, o, z, d) && g.ins()[z.0 as int].contains(t) && walks_through(sg, o, t)
                && g.producer_spec(t) == Some(x);
        assert(z.0 == y);
        assert(z == yop);
        assert(yop.0 as int == y);
        let m = choose|m: int| 0 <= m < g.ins()[y].len() && g.ins()[y][m] == t;
        assert(g.ins()[yop.0 as int][m] == t);
    }
    if in_cone(sg, o, yop, d) && fed_by_input(sg, o, yop, x, g.ins()[y].len() as int) {
        let m = choose|m: int|
            0 <= m < g.ins()[y].len() && walks_through(sg, o, #[trigger] g.ins()[yop.0 as int][m]) && g.producer_spec(
                g.ins()[yop.0 as int][m],
            ) == Some(x);
        assert(yop.0 as int == y);
        let t = g.ins()[yop.0 as int][m];
        assert(g.ins()[yop.0 as int].contains(t));
        assert(yop.0 < y + 1);
    }
}

/// The cone one step further is the cone so far and what it is fed by.
proof fn lemma_cone_next(sg: Subgraph, o: TensorId, d: nat, x: OperationId)
    requires
        sg.wf(),
        d >= 1,
    ensures
        in_cone(sg, o, x, d + 1) <==> in_cone(sg, o, x, d) || fed_below(sg, o, d, x, sg.graph().num_ops() as int),
{
    reveal(fed_below);
    let g = sg.graph();
    let e = (d + 1) as nat;
    assert((e - 1) as nat == d);
    let prev = cone_set(sg, o, d);
    if exists|y: OperationId, t: TensorId|
        #![trigger prev.contains(y), g.ins()[y.0 as int].contains(t)]
        prev.contains(y) && g.ins()[y.0 as int].contains(t) && walks_through(sg, o, t) && g.producer_spec(t) == Some(x) {
        let (z, t) = choose|y: OperationId, t: TensorId|
            #![trigger prev.contains(y), g.ins()[y.0 as int].contains(t)]
            prev.contains(y) && g.ins()[y.0 as int].contains(t) && walks_through(sg, o, t) && g.producer_spec(t) == Some(x);
        assert(in_cone(sg, o, z, d));
        lemma_cone_inside(sg, o, z, d);
        let i = choose|i: int| 0 <= i < sg.node_seq().len() && sg.node_seq()[i] == z;
        assert(z.0 < g.num_ops());
        assert(fed_below(sg, o, d, x, g.num_ops() as int));
    }
    if fed_below(sg, o, d, x, g.num_ops() as int) {
        let (z, t) = choose|z: OperationId, t: TensorId|
            #![trigger in_cone(sg, o, z, d), g.ins()[z.0 as int].contains(t)]
            z.0 < g.num_ops() as int && in_cone(sg, o, z, d) && g.ins()[z.0 as int].contains(t) && walks_through(sg, o, t)
                && g.producer_spec(t) == Some(x);
        assert(prev.contains(z));
        assert(cone_set(sg, o, e).contains(x));
    }
    if walks_through(sg, o, o) && g.producer_spec(o) == Some(x) {
        assert(in_cone(sg, o, x, 1));
        lemma_cone_mono(sg, o, x, 1, d);
    }
}

/// The cone only grows with the number of steps.
proof fn lemma_cone_mono(sg: Subgraph, o: TensorId, x: OperationId, a: nat, b: nat)
    requires
        in_cone(sg, o, x, a),
        a <= b,
    ensures
        in_cone(sg, o, x, b),
    decreases b - a,
{
    if a < b {
        lemma_cone_mono(sg, o, x, a, (b - 1) as nat);
        assert(in_cone(sg, o, x, b));
    }
}

/// Whether `x` is in the cone one step further than the cone `marked` holds.
fn cone_next_has(
    subgraph: &Subgraph,
    inputs: &Vec<TensorId>,
    outputs: &Vec<TensorId>,
    o: TensorId,
    marked: &Vec<bool>,
    d: Ghost<nat>,
    x: OperationId,
) -> (r: bool)
    requires
        subgraph.wf(),
        d@ >= 1,
        forall|z: TensorId| inputs@.contains(z) <==> subgraph.is_input_tensor(z),
        forall|z: TensorId| outputs@.contains(z) <==> subgraph.is_output_tensor(z),
        marked.len() == subgraph.graph().num_ops(),
        x.0 < marked.len(),
        forall|z: OperationId| z.0 < marked.len() ==> (marked@[z.0 as int] <==> #[trigger] in_cone(*subgraph, o, z, d@)),
    ensures
        r == in_cone(*subgraph, o, x, d@ + 1),
{
    let ghost sg = *subgraph;
    let ghost g = sg.graph();
    let ghost dd = d@;
    let graph = subgraph.parent();
    let n = marked.len();
    let mut found = marked[x.0];
    proof {
        lemma_fed_below_zero(sg, o, dd, x);
    }
    let mut y: usize = 0;
    while y < n
        invariant
            subgraph.wf(),
            sg == *subgraph,
            g == sg.graph(),
            *graph == g,
            n == g.num_ops(),
            n == marked.len(),
            0 <= y <= n,
            dd == d@,
            forall|z: TensorId| inputs@.contains(z) <==> sg.is_input_tensor(z),
            forall|z: TensorId| outputs@.contains(z) <==> sg.is_output_tensor(z),
            forall|z: OperationId| z.0 < n ==> (marked@[z.0 as int] <==> #[trigger] in_cone(sg, o, z, dd)),
            x.0 < n,
            found == (in_cone(sg, o, x, dd) || fed_below(sg, o, dd, x, y as int)),
        decreases n - y,
    {
        let yop = OperationId(y);
        let ghost f_y = found;
        proof {
            lemma_fed_below_step(sg, o, dd, x, y as int);
            assert(marked@[y as int] == in_cone(sg, o, yop, dd));
        }
        if marked[y] {
            let ins = graph.input_ids_for(yop);
            proof {
                lemma_fed_by_input_zero(sg, o, yop, x);
            }
            for q in 0..ins.len()
                invariant
                    subgraph.wf(),
                    sg == *subgraph,
                    g == sg.graph(),
                    *graph == g,
                    yop == OperationId(y),
                    y < n,
                    n == g.num_ops(),
                    ins@ == g.ins()[y as int],
                    forall|z: TensorId| inputs@.contains(z) <==> sg.is_input_tensor(z),
                    forall|z: TensorId| outputs@.contains(z) <==> sg.is_output_tensor(z),
                    found == (f_y || fed_by_input(sg, o, yop, x, q as int)),
            {
                proof {
                    lemma_fed_by_input_step(sg, o, yop, x, q as int);
                }
                match walk_step(subgraph, inputs, outputs, o, ins[q]) {
                    Some(p) => {
                        if p == x {
                            found = true;
                        }
                    },
                    None => {},
                }
            }
        } else {
            proof {
                assert(!in_cone(sg, o, yop, dd));
            }
        }
        y = y + 1;
    }
    proof {
        lemma_cone_next(sg, o, dd, x);
        assert((dd + 1) as nat == d@ + 1);
    }
    found
}

/// Base cost of one tile of output `o`, as `cone_cost` describes it: the
/// operations reached walking back from `o` are marked level by level, then
/// their base costs are summed once each.
fn cone_cost_of(subgraph: &Subgraph, inputs: &Vec<TensorId>, outputs: &Vec<TensorId>, o: TensorId) -> (r: i64)
    requires
        subgraph.wf(),
        costs_nonneg(*subgraph),
        forall|x: TensorId| inputs@.contains(x) <==> subgraph.is_input_tensor(x),
        forall|x: TensorId| outputs@.contains(x) <==> subgraph.is_output_tensor(x),
        cone_cost(*subgraph, o, subgraph.node_seq()) <= i64::MAX,
    ensures
        r == cone_cost(*subgraph, o, subgraph.node_seq()),
        r >= 0,
{
    let graph = subgraph.parent();
    let ghost sg = *subgraph;
    let ghost g = sg.graph();
    let n = graph.num_operations();
    let nodes = subgraph.nodes();
    let mut marked: Vec<bool> = Vec::new();
    for i in 0..n
        invariant
            marked.len() == i,
            forall|k: int| 0 <= k < i ==> !marked@[k],
    {
        marked.push(false);
    }
    match walk_step(subgraph, inputs, outputs, o, o) {
        Some(p) => {
            marked.set(p.0, true);
        },
        None => {},
    }
    proof {
        assert forall|x: OperationId| x.0 < n implies (marked@[x.0 as int] <==> #[trigger] in_cone(sg, o, x, 1)) by {
            assert(cone_set(sg, o, 0) =~= Set::<OperationId>::empty());
        }
    }
    let mut k: usize = 0;
    while k < nodes.len()
        invariant
            subgraph.wf(),
            sg == *subgraph,
            g == sg.graph(),
            *graph == g,
            n == g.num_ops(),
            nodes@ == sg.node_seq(),
            0 <= k <= nodes.len(),
            marked.len() == n,
            forall|x: TensorId| inputs@.contains(x) <==> sg.is_input_tensor(x),
            forall|x: TensorId| outputs@.contains(x) <==> sg.is_output_tensor(x),
            forall|x: OperationId| x.0 < n ==> (marked@[x.0 as int] <==> #[trigger] in_cone(sg, o, x, (k + 1) as nat)),
        decreases nodes.len() - k,
    {
        let mut next: Vec<bool> = Vec::new();
        for xi in 0..n
            invariant
                subgraph.wf(),
                sg == *subgraph,
                g == sg.graph(),
                n == g.num_ops(),
                marked.len() == n,
                next.len() == xi,
                forall|x: TensorId| inputs@.contains(x) <==> sg.is_input_tensor(x),
                forall|x: TensorId| outputs@.contains(x) <==> sg.is_output_tensor(x),
                forall|x: OperationId| x.0 < n ==> (marked@[x.0 as int] <==> #[trigger] in_cone(sg, o, x, (k + 1) as nat)),
                forall|j: int| 0 <= j < xi ==> next@[j] == in_cone(sg, o, OperationId(j as usize), (k + 2) as nat),
        {
            let b = cone_next_has(subgraph, inputs, outputs, o, &marked, Ghost((k + 1) as nat), OperationId(xi));
            next.push(b);
        }
        marked = next;
        proof {
            assert forall|x: OperationId| x.0 < n implies (marked@[x.0 as int] <==> #[trigger] in_cone(
                sg,
                o,
                x,
                (k + 2) as nat,
            )) by {
                assert(OperationId(x.0 as usize) == x);
            }
        }
        k = k + 1;
    }
    let mut total: i64 = 0;
    proof {
        assert forall|i: int| 0 <= i < nodes@.len() implies sg.has(#[trigger] nodes@[i]) by {}
        lemma_cone_cost_prefix(sg, o, nodes@, 0);
        assert(nodes@.take(0) =~= Seq::<OperationId>::empty());
    }
    for i in 0..nodes.len()
        invariant
            subgraph.wf(),
            sg == *subgraph,
            g == sg.graph(),
            *graph == g,
            n == g.num_ops(),
            nodes@ == sg.node_seq(),
            marked.len() == n,
            costs_nonneg(sg),
            cone_cost(sg, o, sg.node_seq()) <= i64::MAX,
            forall|x: OperationId| x.0 < n ==> (marked@[x.0 as int] <==> #[trigger] in_cone(sg, o, x, walk_depth(sg))),
            total == cone_cost(sg, o, nodes@.take(i as int)),
            total >= 0,
    {
        let x = nodes[i];
        proof {
            let t1 = nodes@.take(i + 1);
            assert(t1.drop_last() =~= nodes@.take(i as int));
            assert(t1.last() == x);
            assert(sg.has(x));
            assert(x.0 < n);
            assert forall|k: int| 0 <= k < nodes@.len() implies sg.has(#[trigger] nodes@[k]) by {}
            lemma_cone_cost_prefix(sg, o, nodes@, i + 1);
            assert(marked@[x.0 as int] <==> in_cone(sg, o, x, walk_depth(sg)));
        }
        if marked[x.0] {
            total = total + graph.operation(x).base_cost;
        }
    }
    assert(nodes@.take(nodes.len() as int) =~= nodes@);
    total
}

/// Elements of a leaf that must be loaded: none when its tensor is retained
/// or the same slice was loaded by the previous iteration.
pub open spec fn leaf_cost(
    l: (TensorId, TensorSlice),
    retained: Seq<TensorId>,
    cached: Seq<(TensorId, TensorSlice)>,
) -> int {
    if retained.contains(l.0) || cached.contains(l) {
        0
    } else {
        l.1.spec_size()
    }
}

/// `leaf_cost` summed over the distinct slices of `ls`: a slice read along
/// several paths is loaded once.
pub open spec fn leaves_cost(
    ls: Seq<(TensorId, TensorSlice)>,
    retained: Seq<TensorId>,
    cached: Seq<(TensorId, TensorSlice)>,
) -> int
    decreases ls.len(),
{
    if ls.len() == 0 {
        0
    } else {
        leaves_cost(ls.drop_last(), retained, cached) + if ls.drop_last().contains(ls.last()) {
            0
        } else {
            leaf_cost(ls.last(), retained, cached)
        }
    }
}

/// Elements of all the slices of `ls`.
pub open spec fn leaves_total(ls: Seq<(TensorId, TensorSlice)>) -> int
    decreases ls.len(),
{
    if ls.len() == 0 {
        0
    } else {
        leaves_total(ls.drop_last()) + ls.last().1.spec_size()
    }
}

proof fn lemma_leaves_cost_bounds(
    ls: Seq<(TensorId, TensorSlice)>,
    retained: Seq<TensorId>,
    cached: Seq<(TensorId, TensorSlice)>,
    q: int,
)
    requires
        shapes_bounded(ls),
        0 <= q <= ls.len(),
    ensures
        0 <= leaves_cost(ls.take(q), retained, cached) <= leaves_total(ls.take(q)) <= leaves_total(ls),
    decreases ls.len() - q, 0nat,
{
    if q < ls.len() {
        lemma_leaves_cost_bounds(ls, retained, cached, q + 1);
        let t1 = ls.take(q + 1);
        assert(t1.drop_last() =~= ls.take(q));
        assert(t1.last() == ls[q]);
        let sh = ls[q].1.shape;
        assert(0 <= sh.0 * sh.1) by (nonlinear_arith)
            requires
                0 <= sh.0,
                0 <= sh.1,
        ;
        assert(shapes_bounded(ls.take(q))) by {
            assert forall|i: int| 0 <= i < ls.take(q).len() implies 0 <= (#[trigger] ls.take(q)[i]).1.shape.0
                <= MAX_DIM && 0 <= ls.take(q)[i].1.shape.1 <= MAX_DIM by {
                assert(ls.take(q)[i] == ls[i]);
            }
        }
        lemma_leaves_cost_nonneg(ls.take(q), retained, cached);
        lemma_leaves_cost_le_total(ls.take(q), retained, cached);
    } else {
        assert(ls.take(q) =~= ls);
        lemma_leaves_cost_nonneg(ls, retained, cached);
        lemma_leaves_cost_le_total(ls, retained, cached);
    }
}

proof fn lemma_leaves_cost_nonneg(
    ls: Seq<(TensorId, TensorSlice)>,
    retained: Seq<TensorId>,
    cached: Seq<(TensorId, TensorSlice)>,
)
    requires
        shapes_bounded(ls),
    ensures
        leaves_cost(ls, retained, cached) >= 0,
    decreases ls.len(),
{
    if ls.len() > 0 {
        let sh = ls.last().1.shape;
        assert(ls.last() == ls[ls.len() - 1]);
        assert(0 <= sh.0 * sh.1) by (nonlinear_arith)
            requires
                0 <= sh.0,
                0 <= sh.1,
        ;
        assert(shapes_bounded(ls.drop_last())) by {
            assert forall|i: int| 0 <= i < ls.drop_last().len() implies 0 <= (#[trigger] ls.drop_last()[i]).1.shape.0
                <= MAX_DIM && 0 <= ls.drop_last()[i].1.shape.1 <= MAX_DIM by {
                assert(ls.drop_last()[i] == ls[i]);
            }
        }
        lemma_leaves_cost_nonneg(ls.drop_last(), retained, cached);
    }
}

proof fn lemma_leaves_cost_le_total(
    ls: Seq<(TensorId, TensorSlice)>,
    retained: Seq<TensorId>,
    cached: Seq<(TensorId, TensorSlice)>,
)
    requires
        shapes_bounded(ls),
    ensures
        leaves_cost(ls, retained, cached) <= leaves_total(ls),
    decreases ls.len(),
{
    if ls.len() > 0 {
        let sh = ls.last().1.shape;
        assert(ls.last() == ls[ls.len() - 1]);
        assert(0 <= sh.0 * sh.1) by (nonlinear_arith)
            requires
                0 <= sh.0,
                0 <= sh.1,
        ;
        assert(shapes_bounded(ls.drop_last())) by {
            assert forall|i: int| 0 <= i < ls.drop_last().len() implies 0 <= (#[trigger] ls.drop_last()[i]).1.shape.0
                <= MAX_DIM && 0 <= ls.drop_last()[i].1.shape.1 <= MAX_DIM by {
                assert(ls.drop_last()[i] == ls[i]);
            }
        }
        lemma_leaves_cost_le_total(ls.drop_last(), retained, cached);
    }
}

/// Whether `ls` holds the leaf `l`.
fn leaf_in(ls: &Vec<(TensorId, TensorSlice)>, l: (TensorId, TensorSlice)) -> (r: bool)
    ensures
        r == ls@.contains(l),
{
    for i in 0..ls.len()
        invariant
            forall|k: int| 0 <= k < i ==> ls@[k] != l,
    {
        let x = ls[i];
        if x.0 == l.0 && x.1.position.0 == l.1.position.0 && x.1.position.1 == l.1.position.1 && x.1.shape.0
            == l.1.shape.0 && x.1.shape.1 == l.1.shape.1 {
            assert(ls@[i as int] == l);
            return true;
        }
    }
    false
}

/// Whether the first `upto` leaves of `ls` hold the leaf `l`.
fn leaf_in_prefix(ls: &Vec<(TensorId, TensorSlice)>, upto: usize, l: (TensorId, TensorSlice)) -> (r: bool)
    requires
        upto <= ls.len(),
    ensures
        r == ls@.take(upto as int).contains(l),
{
    for i in 0..upto
        invariant
            upto <= ls.len(),
            forall|k: int| 0 <= k < i ==> ls@[k] != l,
    {
        let x = ls[i];
        if x.0 == l.0 && x.1.position.0 == l.1.position.0 && x.1.position.1 == l.1.position.1 && x.1.shape.0
            == l.1.shape.0 && x.1.shape.1 == l.1.shape.1 {
            assert(ls@.take(upto as int)[i as int] == l);
            return true;
        }
    }
    proof {
        assert forall|k: int| 0 <= k < upto implies ls@.take(upto as int)[k] != l by {
            assert(ls@.take(upto as int)[k] == ls@[k]);
        }
    }
    false
}

/// Elements the leaves `ls` load from slow memory.
fn input_traffic(
    ls: &Vec<(TensorId, TensorSlice)>,
    retained: &[TensorId],
    cached: &Vec<(TensorId, TensorSlice)>,
) -> (r: i64)
    requires
        shapes_bounded(ls@),
        leaves_total(ls@) <= i64::MAX,
    ensures
        r == leaves_cost(ls@, retained@, cached@),
{
    let mut total: i64 = 0;
    for i in 0..ls.len()
        invariant
            shapes_bounded(ls@),
            leaves_total(ls@) <= i64::MAX,
            total == leaves_cost(ls@.take(i as int), retained@, cached@),
    {
        proof {
            lemma_leaves_cost_bounds(ls@, retained@, cached@, i + 1);
            assert(ls@.take(i + 1).drop_last() =~= ls@.take(i as int));
            assert(ls@.take(i + 1).last() == ls@[i as int]);
        }
        let l = ls[i];
        if !(crate::tiling::contains_id(retained, l.0) || leaf_in(cached, l) || leaf_in_prefix(ls, i, l)) {
            total = total + l.1.size();
        }
    }
    assert(ls@.take(ls.len() as int) =~= ls@);
    total
}

/// Output `i` of the subgraph, in increasing id order.
pub open spec fn out_tensor(sg: Subgraph, i: int) -> Tensor {
    sg.graph().tensor_seq()[sg.output_seq()[i].0 as int]
}

/// Rows of the tile grid, taken from the first output, for tiles
/// `tile = (width, height, reduction)`.
pub open spec fn grid_rows(sg: Subgraph, tile: (i64, i64, i64)) -> int {
    spec_ceil_div(out_tensor(sg, 0).height as int, tile.1 as int)
}

/// Columns of the tile grid, taken from the first output.
pub open spec fn grid_cols(sg: Subgraph, tile: (i64, i64, i64)) -> int {
    spec_ceil_div(out_tensor(sg, 0).width as int, tile.0 as int)
}

/// Reduction length of output `i`.
pub open spec fn red_len(sg: Subgraph, i: int) -> int {
    reduction_of(sg, sg.output_seq()[i])
}

/// Reduction steps per spatial tile of output `i`.
pub open spec fn k_steps(sg: Subgraph, tile: (i64, i64, i64), i: int) -> int {
    spec_ceil_div(red_len(sg, i), tile.2 as int)
}

/// Iterations for output `i`: every reduction step of every grid tile.
pub open spec fn iter_count(sg: Subgraph, tile: (i64, i64, i64), i: int) -> int {
    grid_rows(sg, tile) * grid_cols(sg, tile) * k_steps(sg, tile, i)
}

/// Grid row, grid column and reduction step of iteration `j` of output `i`,
/// in row-major order with the reduction innermost.
pub open spec fn iter_pos(sg: Subgraph, tile: (i64, i64, i64), i: int, j: int) -> (int, int, int) {
    let kc = k_steps(sg, tile, i);
    let cols = grid_cols(sg, tile);
    (j / (cols * kc), (j / kc) % cols, j % kc)
}

/// The input slices read by iteration `j` of output `i`.
pub open spec fn iter_leaves(sg: Subgraph, tile: (i64, i64, i64), i: int, j: int) -> Seq<(TensorId, TensorSlice)> {
    let (m, n, kk) = iter_pos(sg, tile, i, j);
    let o = sg.output_seq()[i];
    let t = out_tensor(sg, i);
    tile_leaves(
        sg,
        o,
        o,
        output_slice(t.height, t.width, (tile.1, tile.0, tile.2), (m as i64, n as i64, kk as i64)),
        (kk * tile.2) as i64,
        tile.2,
        walk_depth(sg),
    )
}

/// The slices read by the last iteration before output `i` starts.
pub open spec fn last_leaves(sg: Subgraph, tile: (i64, i64, i64), i: int) -> Seq<(TensorId, TensorSlice)>
    decreases i,
{
    if i <= 0 {
        Seq::empty()
    } else if iter_count(sg, tile, i - 1) > 0 {
        iter_leaves(sg, tile, i - 1, iter_count(sg, tile, i - 1) - 1)
    } else {
        last_leaves(sg, tile, i - 1)
    }
}

/// The slices read by the iteration just before iteration `j` of output `i`:
/// they are still in fast memory.
pub open spec fn prev_leaves(sg: Subgraph, tile: (i64, i64, i64), i: int, j: int) -> Seq<(TensorId, TensorSlice)> {
    if j > 0 {
        iter_leaves(sg, tile, i, j - 1)
    } else {
        last_leaves(sg, tile, i)
    }
}

/// Base cost of the operations computing one spatial tile of output `i`.
pub closed spec fn compute_of(sg: Subgraph, i: int) -> int {
    cone_cost(sg, sg.output_seq()[i], sg.node_seq())
}

/// What `compute_of` is: the base costs of the operations in the cone of
/// output `i` (see `cone_cost`).
pub proof fn lemma_compute_of(sg: Subgraph, i: int)
    ensures
        compute_of(sg, i) == cone_cost(sg, sg.output_seq()[i], sg.node_seq()),
{
}

/// Elements of grid tile `(m, n)` of output `i`, clipped to the output.
pub open spec fn out_tile_elems(sg: Subgraph, tile: (i64, i64, i64), i: int, m: int, n: int) -> int {
    let t = out_tensor(sg, i);
    min_i64(tile.1, (t.height - m * tile.1) as i64) * min_i64(tile.0, (t.width - n * tile.0) as i64)
}

/// Compute and memory cost of iteration `j` of output `i`: the compute cost of
/// a spatial tile shared out over the reduction steps by their lengths; the
/// memory cost of the input slices not retained and not read by the previous
/// iteration, plus, at a tile's last reduction step, the write back of the
/// output tile unless the output is retained; both over the bandwidth.
pub open spec fn metric_spec(
    sg: Subgraph,
    dev: DeviceParameters,
    tile: (i64, i64, i64),
    retained: Seq<TensorId>,
    i: int,
    j: int,
) -> ((nat, nat), (nat, nat)) {
    let (m, n, kk) = iter_pos(sg, tile, i, j);
    let bw = dev.slow_memory_bandwidth as nat;
    let traffic = leaves_cost(iter_leaves(sg, tile, i, j), retained, prev_leaves(sg, tile, i, j));
    let mem = frac_div((traffic as nat, 1nat), bw);
    let red = red_len(sg, i);
    let step = min_i64(tile.2, (red - kk * tile.2) as i64);
    let comp = frac_mul(frac_div((compute_of(sg, i) as nat, 1nat), red as nat), step as nat);
    let base = (frac_add(zero_pair(), comp), frac_add(mem, zero_pair()));
    if kk == k_steps(sg, tile, i) - 1 {
        let out_mem = if retained.contains(sg.output_seq()[i]) {
            zero_pair()
        } else {
            frac_div((out_tile_elems(sg, tile, i, m, n) as nat, 1nat), bw)
        };
        (frac_add(base.0, zero_pair()), frac_add(base.1, out_mem))
    } else {
        base
    }
}

/// No output is so small that the first output's tile grid leaves a tile
/// of negative extent.
pub open spec fn grid_fits(sg: Subgraph, tile: (i64, i64, i64)) -> bool {
    forall|i: int|
        0 <= i < sg.output_seq().len() ==> (#[trigger] out_tensor(sg, i)).height >= (grid_rows(sg, tile) - 1)
            * tile.1 && out_tensor(sg, i).width >= (grid_cols(sg, tile) - 1) * tile.0
}

/// The sums and products of the latency model fit in `i64` and in the
/// `u64` fractions.
pub open spec fn latency_fits(sg: Subgraph, dev: DeviceParameters, tile: (i64, i64, i64)) -> bool {
    let bw = dev.slow_memory_bandwidth;
    &&& bw * bw <= u64::MAX
    &&& forall|i: int|
        0 <= i < sg.output_seq().len() ==> #[trigger] compute_of(sg, i) <= i64::MAX && compute_of(sg, i) * red_len(
            sg,
            i,
        ) <= u64::MAX
    &&& forall|i: int, j: int|
        0 <= i < sg.output_seq().len() && 0 <= j < iter_count(sg, tile, i) ==> leaves_total(
            #[trigger] iter_leaves(sg, tile, i, j),
        ) <= i64::MAX && (leaves_total(iter_leaves(sg, tile, i, j)) + tile.0 * tile.1) * bw <= u64::MAX
}

/// Iteration `(m, n, kk)` is number `(m * cols + n) * kc + kk`.
proof fn lemma_iter_pos(m: int, n: int, kk: int, cols: int, kc: int)
    requires
        0 <= m,
        0 <= n < cols,
        0 <= kk < kc,
    ensures
        ((m * cols + n) * kc + kk) / (cols * kc) == m,
        (((m * cols + n) * kc + kk) / kc) % cols == n,
        ((m * cols + n) * kc + kk) % kc == kk,
{
    let j = (m * cols + n) * kc + kk;
    lemma_fundamental_div_mod_converse(j, kc, m * cols + n, kk);
    lemma_fundamental_div_mod_converse(m * cols + n, cols, m, n);
    assert(j == m * (cols * kc) + (n * kc + kk)) by (nonlinear_arith)
        requires
            j == (m * cols + n) * kc + kk,
    ;
    assert(0 <= n * kc + kk < cols * kc) by (nonlinear_arith)
        requires
            0 <= n < cols,
            0 <= kk < kc,
    ;
    lemma_fundamental_div_mod_converse(j, cols * kc, m, n * kc + kk);
}

/// A grid index below `ceil(x / y)` starts inside `x`.
proof fn lemma_below_ceil(m: int, x: int, y: int)
    requires
        0 <= m < spec_ceil_div(x, y),
        0 <= x,
        0 < y,
    ensures
        0 <= m * y < x,
{
    lemma_fundamental_div_mod(x + y - 1, y);
    let q = (x + y - 1) / y;
    let r = (x + y - 1) % y;
    assert(0 <= r < y) by {
        vstd::arithmetic::div_mod::lemma_mod_pos_bound(x + y - 1, y);
    }
    assert(0 <= m * y < x) by (nonlinear_arith)
        requires
            0 <= m < q,
            x + y - 1 == y * q + r,
            0 <= r < y,
            0 < y,
    ;
}

/// `l` lists, for each output of the subgraph in increasing id order, the
/// cost of each of its iterations as `metric_spec` gives it.
pub open spec fn latency_result(
    l: Seq<(TensorId, Vec<PerformanceMetric>)>,
    sg: Subgraph,
    dev: DeviceParameters,
    tile: (i64, i64, i64),
    retained: Seq<TensorId>,
) -> bool {
    &&& l.len() == sg.output_seq().len()
    &&& forall|i: int|
        0 <= i < l.len() ==> (#[trigger] l[i]).0 == sg.output_seq()[i] && l[i].1.len() == iter_count(sg, tile, i)
    &&& forall|i: int, j: int|
        0 <= i < l.len() && 0 <= j < l[i].1.len() ==> (#[trigger] l[i].1@[j]).costs() == metric_spec(
            sg,
            dev,
            tile,
            retained,
            i,
            j,
        ) && l[i].1@[j].wf()
}

/// The cost of one iteration: its compute cost and its memory cost as
/// `metric_spec` describes them, built from the already computed parts.
#[verifier::spinoff_prover]
#[verifier::rlimit(40)]
fn iteration_metric(
    traffic: i64,
    compute_frac: Rational,
    red: i64,
    step: i64,
    bw: i64,
    last_step: bool,
    retained_out: bool,
    out_elems: i64,
    total_bound: Ghost<int>,
    tile_elems: i64,
) -> (r: PerformanceMetric)
    requires
        0 <= traffic <= total_bound@,
        compute_frac.denom == 1,
        1 <= step <= red,
        compute_frac.numer * red <= u64::MAX,
        1 <= bw,
        bw * bw <= u64::MAX,
        0 <= out_elems <= tile_elems,
        (total_bound@ + tile_elems) * bw <= u64::MAX,
    ensures
        r.wf(),
        ({
            let mem = frac_div((traffic as nat, 1nat), bw as nat);
            let comp = frac_mul(frac_div(compute_frac.pair(), red as nat), step as nat);
            let base = (frac_add(zero_pair(), comp), frac_add(mem, zero_pair()));
            r.costs() == if last_step {
                let out_mem = if retained_out {
                    zero_pair()
                } else {
                    frac_div((out_elems as nat, 1nat), bw as nat)
                };
                (frac_add(base.0, zero_pair()), frac_add(base.1, out_mem))
            } else {
                base
            }
        }),
{
    let t = fraction_from_int(traffic);
    let mem = fraction_div_int(t, bw);
    proof {
        lemma_reduced(traffic as nat, bw as nat);
        lemma_reduced(compute_frac.numer as nat, red as nat);
    }
    let c1 = fraction_div_int(compute_frac, red);
    assert(c1.numer * step <= u64::MAX) by (nonlinear_arith)
        requires
            c1.numer <= compute_frac.numer,
            1 <= step <= red,
            compute_frac.numer * red <= u64::MAX,
    ;
    let comp = fraction_mul_int(c1, step);
    proof {
        lemma_reduced((c1.numer * step) as nat, c1.denom as nat);
    }
    let z1 = PerformanceMetric::from_memory_cost(mem);
    let z2 = PerformanceMetric::from_compute_cost(comp);
    assert(z1.compute_cost.numer == 0 && z1.compute_cost.denom == 1);
    assert(z2.memory_cost.numer == 0 && z2.memory_cost.denom == 1);
    assert(z1.compute_cost.numer * z2.compute_cost.denom + z2.compute_cost.numer * z1.compute_cost.denom
        == comp.numer) by (nonlinear_arith)
        requires
            z1.compute_cost.numer == 0,
            z1.compute_cost.denom == 1,
            z2.compute_cost.numer == comp.numer,
    ;
    assert(z1.memory_cost.numer * z2.memory_cost.denom + z2.memory_cost.numer * z1.memory_cost.denom
        == mem.numer) by (nonlinear_arith)
        requires
            z2.memory_cost.numer == 0,
            z2.memory_cost.denom == 1,
            z1.memory_cost.numer == mem.numer,
    ;
    let base = z1.combine(z2);
    proof {
        lemma_reduced(comp.numer as nat, comp.denom as nat);
        lemma_reduced(mem.numer as nat, mem.denom as nat);
    }
    if last_step {
        let out_mem = if retained_out {
            fraction_from_int(0)
        } else {
            let e = fraction_from_int(out_elems);
            let om = fraction_div_int(e, bw);
            proof {
                lemma_reduced(out_elems as nat, bw as nat);
            }
            om
        };
        let z3 = PerformanceMetric::from_memory_cost(out_mem);
        assert(base.memory_cost.numer * z3.memory_cost.denom + z3.memory_cost.numer * base.memory_cost.denom
            <= u64::MAX) by (nonlinear_arith)
            requires
                base.memory_cost.numer <= traffic,
                base.memory_cost.denom <= bw,
                z3.memory_cost.numer <= out_elems,
                z3.memory_cost.denom <= bw,
                0 <= traffic <= total_bound@,
                0 <= out_elems <= tile_elems,
                (total_bound@ + tile_elems) * bw <= u64::MAX,
        ;
        assert(base.memory_cost.denom * z3.memory_cost.denom <= u64::MAX) by (nonlinear_arith)
            requires
                1 <= base.memory_cost.denom <= bw,
                1 <= z3.memory_cost.denom <= bw,
                bw * bw <= u64::MAX,
        ;
        assert(z3.compute_cost.numer == 0 && z3.compute_cost.denom == 1);
        assert(base.compute_cost.numer * z3.compute_cost.denom + z3.compute_cost.numer * base.compute_cost.denom
            == base.compute_cost.numer) by (nonlinear_arith)
            requires
                z3.compute_cost.numer == 0,
                z3.compute_cost.denom == 1,
        ;
        let r = base.combine(z3);
        proof {
            lemma_reduced(base.compute_cost.numer as nat, base.compute_cost.denom as nat);
            let a = base.memory_cost.pair();
            let b = z3.memory_cost.pair();
            assert(a.1 * b.1 > 0) by (nonlinear_arith)
                requires
                    a.1 > 0,
                    b.1 > 0,
            ;
            lemma_reduced(a.0 * b.1 + b.0 * a.1, a.1 * b.1);
        }
        r
    } else {
        base
    }
}

/// Latency of the subgraph at tiles `tile_size = (width, height, reduction)`:
/// for each output, in increasing id order, the cost of every iteration. The
/// iterations go over the tile grid of the first output in row-major order
/// and, within a tile, over the reduction steps; an input slice read by the
/// previous iteration is not loaded again.
#[verifier::loop_isolation(false)]
#[verifier::spinoff_prover]
#[verifier::rlimit(60)]
pub fn subgraph_latency(
    device_params: &DeviceParameters,
    subgraph: &Subgraph,
    tile_size: (i64, i64, i64),
    retained_tensor_ids: &[TensorId],
) -> (r: Vec<(TensorId, Vec<PerformanceMetric>)>)
    requires
        subgraph.wf(),
        shaped(*subgraph),
        dims_bounded(subgraph.graph()),
        costs_nonneg(*subgraph),
        subgraph.output_seq().len() > 0,
        1 <= tile_size.0 <= MAX_DIM,
        1 <= tile_size.1 <= MAX_DIM,
        1 <= tile_size.2 <= MAX_DIM,
        device_params.slow_memory_bandwidth >= 1,
        grid_fits(*subgraph, tile_size),
        forall|i: int|
            0 <= i < subgraph.output_seq().len() && grid_rows(*subgraph, tile_size) > 0 && grid_cols(
                *subgraph,
                tile_size,
            ) > 0 ==> #[trigger] red_len(*subgraph, i) >= 1,
        latency_fits(*subgraph, *device_params, tile_size),
    ensures
        latency_result(r@, *subgraph, *device_params, tile_size, retained_tensor_ids@),
{
    let graph = subgraph.parent();
    let ghost sg = *subgraph;
    let ghost g = sg.graph();
    let ghost ret = retained_tensor_ids@;
    let inputs = subgraph.input_tensor_ids();
    let outputs = subgraph.output_tensor_ids();
    let ghost outs = outputs@;
    let (tile_w, tile_h, tile_k) = tile_size;
    assert(outs.contains(outs[0]));
    let first = graph.tensors()[outputs[0].0];
    assert(first == out_tensor(sg, 0));
    let rows = ceil_div(first.height, tile_h);
    let cols = ceil_div(first.width, tile_w);
    let bw = device_params.slow_memory_bandwidth;
    let mut cached: Vec<(TensorId, TensorSlice)> = Vec::new();
    let mut latencies: Vec<(TensorId, Vec<PerformanceMetric>)> = Vec::new();
    let mut i: usize = 0;
    while i < outputs.len()
        invariant
            0 <= i <= outputs.len(),
            latencies.len() == i,
            cached@ == last_leaves(sg, tile_size, i as int),
            forall|a: int|
                0 <= a < i ==> (#[trigger] latencies@[a]).0 == outs[a] && latencies@[a].1.len() == iter_count(
                    sg,
                    tile_size,
                    a,
                ),
            forall|a: int, j: int|
                0 <= a < i && 0 <= j < latencies@[a].1.len() ==> (#[trigger] latencies@[a].1@[j]).costs()
                    == metric_spec(sg, *device_params, tile_size, ret, a, j) && latencies@[a].1@[j].wf(),
        decreases outputs.len() - i,
    {
        let output_id = outputs[i];
        proof {
            assert(outs.contains(output_id));
            lemma_reduction_bounded(sg, output_id);
        }
        let producer_id = graph.producer_id_of(output_id).unwrap();
        assert(g.outs()[producer_id.0 as int].len() >= 1);
        let red = match op_kind(graph, producer_id) {
            OperationType::MatMul => k_op(graph, producer_id),
            OperationType::Pointwise => 1,
        };
        assert(red == red_len(sg, i as int));
        let kc = ceil_div(red, tile_k);
        proof {
            subgraph.lemma_len_bound();
            assert(compute_of(sg, i as int) <= i64::MAX);
        }
        let compute_total = cone_cost_of(subgraph, &inputs, &outputs, output_id);
        let compute_frac = fraction_from_int(compute_total);
        let out_t = graph.tensors()[output_id.0];
        assert(out_t == out_tensor(sg, i as int));
        let retained_out = crate::tiling::contains_id(retained_tensor_ids, output_id);
        let mut per: Vec<PerformanceMetric> = Vec::new();
        let mut m: i64 = 0;
        while m < rows
            invariant
                0 <= m <= rows,
                per.len() == m * cols * kc,
                cached@ == prev_leaves(sg, tile_size, i as int, per.len() as int),
                forall|j: int|
                    0 <= j < per.len() ==> (#[trigger] per@[j]).costs() == metric_spec(
                        sg,
                        *device_params,
                        tile_size,
                        ret,
                        i as int,
                        j,
                    ) && per@[j].wf(),
            decreases rows - m,
        {
            let mut n: i64 = 0;
            while n < cols
                invariant
                    0 <= m < rows,
                    0 <= n <= cols,
                    per.len() == (m * cols + n) * kc,
                    cached@ == prev_leaves(sg, tile_size, i as int, per.len() as int),
                    forall|j: int|
                        0 <= j < per.len() ==> (#[trigger] per@[j]).costs() == metric_spec(
                            sg,
                            *device_params,
                            tile_size,
                            ret,
                            i as int,
                            j,
                        ) && per@[j].wf(),
                decreases cols - n,
            {
                let mut kk: i64 = 0;
                while kk < kc
                    invariant
                        0 <= m < rows,
                        0 <= n < cols,
                        0 <= kk <= kc,
                        per.len() == (m * cols + n) * kc + kk,
                        cached@ == prev_leaves(sg, tile_size, i as int, per.len() as int),
                        forall|j: int|
                            0 <= j < per.len() ==> (#[trigger] per@[j]).costs() == metric_spec(
                                sg,
                                *device_params,
                                tile_size,
                                ret,
                                i as int,
                                j,
                            ) && per@[j].wf(),
                    decreases kc - kk,
                {
                    let ghost j = per.len() as int;
                    proof {
                        lemma_iter_pos(m as int, n as int, kk as int, cols as int, kc as int);
                        lemma_below_ceil(m as int, first.height as int, tile_h as int);
                        lemma_below_ceil(n as int, first.width as int, tile_w as int);
                        lemma_below_ceil(kk as int, red as int, tile_k as int);
                    }
                    assert(iter_pos(sg, tile_size, i as int, j) == (m as int, n as int, kk as int));
                    let leaves = input_tiles_for_output(
                        subgraph,
                        &inputs,
                        output_id,
                        (tile_h, tile_w, tile_k),
                        (m, n, kk),
                    );
                    assert(leaves@ == iter_leaves(sg, tile_size, i as int, j));
                    proof {
                        assert(m * tile_h <= (rows - 1) * tile_h) by (nonlinear_arith)
                            requires
                                0 <= m < rows,
                                tile_h >= 1,
                        ;
                        assert(n * tile_w <= (cols - 1) * tile_w) by (nonlinear_arith)
                            requires
                                0 <= n < cols,
                                tile_w >= 1,
                        ;
                        assert(out_tensor(sg, i as int).height >= (grid_rows(sg, tile_size) - 1) * tile_h);
                        let s = output_slice(out_t.height, out_t.width, (tile_h, tile_w, tile_k), (m, n, kk));
                        lemma_leaves_bounded(sg, output_id, output_id, s, (kk * tile_k) as i64, tile_k, walk_depth(sg));
                        assert((m * cols + n) * kc + kk < rows * cols * kc) by (nonlinear_arith)
                            requires
                                0 <= m < rows,
                                0 <= n < cols,
                                0 <= kk < kc,
                        ;
                        assert(j < iter_count(sg, tile_size, i as int));
                        assert(leaves_total(iter_leaves(sg, tile_size, i as int, j)) <= i64::MAX);
                        lemma_leaves_cost_bounds(leaves@, ret, cached@, leaves@.len() as int);
                        assert(leaves@.take(leaves@.len() as int) =~= leaves@);
                    }
                    let traffic = input_traffic(&leaves, retained_tensor_ids, &cached);
                    let rest = red - kk * tile_k;
                    let step = if tile_k <= rest {
                        tile_k
                    } else {
                        rest
                    };
                    let last_step = kk == kc - 1;
                    let h_left = out_t.height - m * tile_h;
                    let w_left = out_t.width - n * tile_w;
                    assert(h_left >= 0 && w_left >= 0);
                    let eh = if tile_h <= h_left {
                        tile_h
                    } else {
                        h_left
                    };
                    let ew = if tile_w <= w_left {
                        tile_w
                    } else {
                        w_left
                    };
                    assert(0 <= eh * ew <= tile_w * tile_h) by (nonlinear_arith)
                        requires
                            0 <= eh <= tile_h,
                            0 <= ew <= tile_w,
                    ;
                    assert(tile_w * tile_h <= MAX_DIM * MAX_DIM) by (nonlinear_arith)
                        requires
                            1 <= tile_w <= MAX_DIM,
                            1 <= tile_h <= MAX_DIM,
                    ;
                    let out_elems = eh * ew;
                    assert(out_elems == out_tile_elems(sg, tile_size, i as int, m as int, n as int));
                    let ghost total_bound = leaves_total(leaves@);
                    let metric = iteration_metric(
                        traffic,
                        compute_frac,
                        red,
                        step,
                        bw,
                        last_step,
                        retained_out,
                        out_elems,
                        Ghost(total_bound),
                        tile_w * tile_h,
                    );
                    assert(metric.costs() == metric_spec(sg, *device_params, tile_size, ret, i as int, j));
                    cached = leaves;
                    per.push(metric);
                    proof {
                        assert(per@[j] == metric);
                    }
                    kk = kk + 1;
                }
                assert((m * cols + n) * kc + kc == (m * cols + n + 1) * kc) by (nonlinear_arith);
                n = n + 1;
            }
            assert((m * cols + cols) * kc == (m + 1) * cols * kc) by (nonlinear_arith);
            m = m + 1;
        }
        proof {
            assert(per.len() == iter_count(sg, tile_size, i as int));
        }
        latencies.push((output_id, per));
        i = i + 1;
    }
    latencies
}

/// Latency of one iteration: the larger of its memory and compute costs.
pub open spec fn metric_latency(m: PerformanceMetric) -> (nat, nat) {
    crate::rational::frac_max(m.memory_cost.pair(), m.compute_cost.pair())
}

/// Roofline latency of combined metrics: the latency of metrics added field
/// by field is at most the sum of their latencies; a metric built from a
/// compute cost and a memory cost takes the larger of the two; the zero
/// metric takes no time.
pub proof fn lemma_latency_laws(m1: PerformanceMetric, m2: PerformanceMetric, a: (nat, nat), b: (nat, nat))
    requires
        m1.wf(),
        m2.wf(),
        a.1 > 0,
        b.1 > 0,
    ensures
        frac_le(
            pair_latency((
                frac_add(m1.compute_cost.pair(), m2.compute_cost.pair()),
                frac_add(m1.memory_cost.pair(), m2.memory_cost.pair()),
            )),
            frac_add(metric_latency(m1), metric_latency(m2)),
        ),
        crate::rational::same_value(
            pair_latency((frac_add(a, zero_pair()), frac_add(zero_pair(), b))),
            crate::rational::frac_max(b, a),
        ),
        pair_latency((zero_pair(), zero_pair())) == zero_pair(),
{
    let (c1, c2, e1, e2) = (m1.compute_cost.pair(), m2.compute_cost.pair(), m1.memory_cost.pair(), m2.memory_cost.pair());
    crate::rational::lemma_le_max(e1, c1);
    crate::rational::lemma_le_max(e2, c2);
    let l1 = metric_latency(m1);
    let l2 = metric_latency(m2);
    crate::rational::lemma_add_mono(c1, c2, l1, l2);
    crate::rational::lemma_add_mono(e1, e2, l1, l2);
    assert(c1.1 * c2.1 > 0 && e1.1 * e2.1 > 0) by (nonlinear_arith)
        requires
            c1.1 > 0,
            c2.1 > 0,
            e1.1 > 0,
            e2.1 > 0,
    ;
    lemma_reduced(c1.0 * c2.1 + c2.0 * c1.1, c1.1 * c2.1);
    lemma_reduced(e1.0 * e2.1 + e2.0 * e1.1, e1.1 * e2.1);
    crate::rational::lemma_le_max(frac_add(e1, e2), frac_add(c1, c2));
    crate::rational::lemma_add_zero(a);
    crate::rational::lemma_add_zero(b);
    let x = frac_add(a, zero_pair());
    let y = frac_add(zero_pair(), b);
    crate::rational::lemma_le_same_value(x, a, y, b);
    crate::rational::lemma_le_same_value(y, b, x, a);
    crate::rational::lemma_frac_le_refl(a);
    crate::rational::lemma_frac_le_refl(b);
}

/// `acc` plus the latencies of `ms`, added left to right.
pub open spec fn fold_metrics(acc: (nat, nat), ms: Seq<PerformanceMetric>) -> (nat, nat)
    decreases ms.len(),
{
    if ms.len() == 0 {
        acc
    } else {
        frac_add(fold_metrics(acc, ms.drop_last()), metric_latency(ms.last()))
    }
}

/// Sum of the latencies of every iteration of every output, in order.
pub open spec fn latency_sum(l: Seq<(TensorId, Vec<PerformanceMetric>)>) -> (nat, nat)
    decreases l.len(),
{
    if l.len() == 0 {
        zero_pair()
    } else {
        fold_metrics(latency_sum(l.drop_last()), l.last().1@)
    }
}

/// Adding `a` and `b` stays within the `u64` products of fraction addition.
pub open spec fn add_fits(a: (nat, nat), b: (nat, nat)) -> bool {
    a.0 * b.1 + b.0 * a.1 <= u64::MAX && a.1 * b.1 <= u64::MAX
}

/// Every addition of `fold_metrics(acc, ms)` fits.
pub open spec fn fold_fits(acc: (nat, nat), ms: Seq<PerformanceMetric>) -> bool
    decreases ms.len(),
{
    ms.len() == 0 || (fold_fits(acc, ms.drop_last()) && add_fits(
        fold_metrics(acc, ms.drop_last()),
        metric_latency(ms.last()),
    ))
}

/// Every addition of `latency_sum(l)` fits.
pub open spec fn sum_fits(l: Seq<(TensorId, Vec<PerformanceMetric>)>) -> bool
    decreases l.len(),
{
    l.len() == 0 || (sum_fits(l.drop_last()) && fold_fits(latency_sum(l.drop_last()), l.last().1@))
}

/// Every metric of `l` has positive denominators.
pub open spec fn all_wf(l: Seq<(TensorId, Vec<PerformanceMetric>)>) -> bool {
    forall|i: int, j: int| 0 <= i < l.len() && 0 <= j < l[i].1.len() ==> (#[trigger] l[i].1@[j]).wf()
}

/// The sum of the latencies of all iterations.
pub fn total_latency(latencies: &Vec<(TensorId, Vec<PerformanceMetric>)>) -> (r: Rational)
    requires
        all_wf(latencies@),
        sum_fits(latencies@),
    ensures
        r.pair() == latency_sum(latencies@),
        r.denom > 0,
{
    let ghost l = latencies@;
    let mut acc = fraction_from_int(0);
    assert(l.take(0) =~= Seq::<(TensorId, Vec<PerformanceMetric>)>::empty());
    for i in 0..latencies.len()
        invariant
            l == latencies@,
            all_wf(l),
            sum_fits(l),
            acc.pair() == latency_sum(l.take(i as int)),
            acc.denom > 0,
    {
        let ms = &latencies[i].1;
        let ghost base = latency_sum(l.take(i as int));
        proof {
            let t1 = l.take(i + 1);
            assert(t1.drop_last() =~= l.take(i as int));
            assert(t1.last() == l[i as int]);
            lemma_sum_fits_prefix(l, i + 1);
            assert(ms@.take(0) =~= Seq::<PerformanceMetric>::empty());
        }
        for j in 0..ms.len()
            invariant
                l == latencies@,
                all_wf(l),
                0 <= i < l.len(),
                *ms == l[i as int].1,
                fold_fits(base, ms@),
                acc.pair() == fold_metrics(base, ms@.take(j as int)),
                acc.denom > 0,
        {
            proof {
                let t1 = ms@.take(j + 1);
                assert(t1.drop_last() =~= ms@.take(j as int));
                assert(t1.last() == ms@[j as int]);
                lemma_fold_fits_prefix(base, ms@, j + 1);
                assert(l[i as int].1@[j as int].wf());
            }
            let lat = ms[j].latency();
            proof {
                assert(lat.denom > 0);
                assert(acc.denom * lat.denom > 0) by (nonlinear_arith)
                    requires
                        acc.denom > 0,
                        lat.denom > 0,
                ;
                lemma_reduced(
                    (acc.numer * lat.denom + lat.numer * acc.denom) as nat,
                    (acc.denom * lat.denom) as nat,
                );
            }
            acc = fraction_add(acc, lat);
        }
        proof {
            assert(ms@.take(ms.len() as int) =~= ms@);
        }
    }
    assert(l.take(l.len() as int) =~= l);
    acc
}

pub(crate) proof fn lemma_fold_fits_prefix(acc: (nat, nat), ms: Seq<PerformanceMetric>, q: int)
    requires
        fold_fits(acc, ms),
        0 <= q <= ms.len(),
    ensures
        fold_fits(acc, ms.take(q)),
        q > 0 ==> add_fits(fold_metrics(acc, ms.take(q - 1)), metric_latency(ms[q - 1])),
    decreases ms.len() - q,
{
    if q < ms.len() {
        assert(ms.drop_last().len() == ms.len() - 1);
        lemma_fold_fits_prefix(acc, ms.drop_last(), q);
        assert(ms.drop_last().take(q) =~= ms.take(q));
        if q > 0 {
            assert(ms.drop_last().take(q - 1) =~= ms.take(q - 1));
            assert(ms.drop_last()[q - 1] == ms[q - 1]);
        }
    } else {
        assert(ms.take(q) =~= ms);
        if q > 0 {
            assert(ms.drop_last() =~= ms.take(q - 1));
        }
    }
}

pub(crate) proof fn lemma_sum_fits_prefix(l: Seq<(TensorId, Vec<PerformanceMetric>)>, q: int)
    requires
        sum_fits(l),
        0 <= q <= l.len(),
    ensures
        sum_fits(l.take(q)),
        q > 0 ==> fold_fits(latency_sum(l.take(q - 1)), l[q - 1].1@),
    decreases l.len() - q,
{
    if q < l.len() {
        lemma_sum_fits_prefix(l.drop_last(), q);
        assert(l.drop_last().take(q) =~= l.take(q));
        if q > 0 {
            assert(l.drop_last().take(q - 1) =~= l.take(q - 1));
            assert(l.drop_last()[q - 1] == l[q - 1]);
        }
    } else {
        assert(l.take(q) =~= l);
        if q > 0 {
            assert(l.drop_last() =~= l.take(q - 1));
        }
    }
}

/// Latency of an iteration from its compute and memory costs.
pub open spec fn pair_latency(c: ((nat, nat), (nat, nat))) -> (nat, nat) {
    crate::rational::frac_max(c.1, c.0)
}

/// `acc` plus the latencies of the first `j` iterations of output `i`.
pub open spec fn fold_output(
    acc: (nat, nat),
    sg: Subgraph,
    dev: DeviceParameters,
    tile: (i64, i64, i64),
    retained: Seq<TensorId>,
    i: int,
    j: int,
) -> (nat, nat)
    decreases j,
{
    if j <= 0 {
        acc
    } else {
        frac_add(
            fold_output(acc, sg, dev, tile, retained, i, j - 1),
            pair_latency(metric_spec(sg, dev, tile, retained, i, j - 1)),
        )
    }
}

/// Sum of the latencies of every iteration of the first `i` outputs.
pub open spec fn latency_total_upto(
    sg: Subgraph,
    dev: DeviceParameters,
    tile: (i64, i64, i64),
    retained: Seq<TensorId>,
    i: int,
) -> (nat, nat)
    decreases i,
{
    if i <= 0 {
        zero_pair()
    } else {
        fold_output(
            latency_total_upto(sg, dev, tile, retained, i - 1),
            sg,
            dev,
            tile,
            retained,
            i - 1,
            iter_count(sg, tile, i - 1),
        )
    }
}

/// Latency of the subgraph at `tile` with `retained` kept in fast memory: the
/// sum, over its outputs and their iterations, of each iteration's latency.
pub open spec fn stage_cost(sg: Subgraph, dev: DeviceParameters, tile: (i64, i64, i64), retained: Seq<TensorId>) -> (
    nat,
    nat,
) {
    latency_total_upto(sg, dev, tile, retained, sg.output_seq().len() as int)
}

/// What `total_latency` gives for a result of `subgraph_latency`.
pub proof fn lemma_latency_sum_is_stage_cost(
    l: Seq<(TensorId, Vec<PerformanceMetric>)>,
    sg: Subgraph,
    dev: DeviceParameters,
    tile: (i64, i64, i64),
    retained: Seq<TensorId>,
)
    requires
        latency_result(l, sg, dev, tile, retained),
    ensures
        latency_sum(l) == stage_cost(sg, dev, tile, retained),
        all_wf(l),
{
    lemma_latency_sum_upto(l, sg, dev, tile, retained, l.len() as int);
    assert(l.take(l.len() as int) =~= l);
}

proof fn lemma_latency_sum_upto(
    l: Seq<(TensorId, Vec<PerformanceMetric>)>,
    sg: Subgraph,
    dev: DeviceParameters,
    tile: (i64, i64, i64),
    retained: Seq<TensorId>,
    i: int,
)
    requires
        latency_result(l, sg, dev, tile, retained),
        0 <= i <= l.len(),
    ensures
        latency_sum(l.take(i)) == latency_total_upto(sg, dev, tile, retained, i),
    decreases i,
{
    if i > 0 {
        lemma_latency_sum_upto(l, sg, dev, tile, retained, i - 1);
        let t = l.take(i);
        assert(t.drop_last() =~= l.take(i - 1));
        assert(t.last() == l[i - 1]);
        let ms = l[i - 1].1@;
        lemma_fold_metrics_output(l, sg, dev, tile, retained, i - 1, ms.len() as int, latency_sum(l.take(i - 1)));
        assert(ms.take(ms.len() as int) =~= ms);
    }
}

proof fn lemma_fold_metrics_output(
    l: Seq<(TensorId, Vec<PerformanceMetric>)>,
    sg: Subgraph,
    dev: DeviceParameters,
    tile: (i64, i64, i64),
    retained: Seq<TensorId>,
    i: int,
    j: int,
    acc: (nat, nat),
)
    requires
        latency_result(l, sg, dev, tile, retained),
        0 <= i < l.len(),
        0 <= j <= l[i].1.len(),
    ensures
        fold_metrics(acc, l[i].1@.take(j)) == fold_output(acc, sg, dev, tile, retained, i, j),
    decreases j,
{
    if j > 0 {
        lemma_fold_metrics_output(l, sg, dev, tile, retained, i, j - 1, acc);
        let ms = l[i].1@;
        assert(ms.take(j).drop_last() =~= ms.take(j - 1));
        assert(ms.take(j).last() == ms[j - 1]);
        assert(ms[j - 1].costs() == metric_spec(sg, dev, tile, retained, i, j - 1));
    }
}


/// `a` and `b` are subgraphs of one graph listing the same operations.
pub open spec fn same_rep(a: Subgraph, b: Subgraph) -> bool {
    a.graph() == b.graph() && a.node_seq() == b.node_seq()
}

proof fn lemma_cone_set_rep(a: Subgraph, b: Subgraph, o: TensorId, d: nat)
    requires
        same_rep(a, b),
    ensures
        cone_set(a, o, d) == cone_set(b, o, d),
    decreases d,
{
    if d > 0 {
        lemma_cone_set_rep(a, b, o, (d - 1) as nat);
        a.lemma_same_nodes_same_tensors(&b);
        assert forall|t: TensorId| walks_through(a, o, t) == walks_through(b, o, t) by {}
        assert(cone_set(a, o, d) =~= cone_set(b, o, d));
    }
}

proof fn lemma_cone_cost_rep(a: Subgraph, b: Subgraph, o: TensorId, ops: Seq<OperationId>)
    requires
        same_rep(a, b),
    ensures
        cone_cost(a, o, ops) == cone_cost(b, o, ops),
    decreases ops.len(),
{
    if ops.len() > 0 {
        lemma_cone_cost_rep(a, b, o, ops.drop_last());
        lemma_cone_set_rep(a, b, o, walk_depth(a));
    }
}

proof fn lemma_tile_leaves_rep(
    a: Subgraph,
    b: Subgraph,
    out: TensorId,
    t: TensorId,
    s: TensorSlice,
    ridx: i64,
    rk: i64,
    depth: nat,
)
    requires
        same_rep(a, b),
    ensures
        tile_leaves(a, out, t, s, ridx, rk, depth) == tile_leaves(b, out, t, s, ridx, rk, depth),
    decreases depth, 0nat,
{
    a.lemma_same_nodes_same_tensors(&b);
    if depth > 0 {
        let g = a.graph();
        match g.producer_spec(t) {
            None => {},
            Some(p) => {
                if kind_of(g, p) == OperationType::Pointwise {
                    lemma_tile_leaves_list_rep(a, b, out, g.ins()[p.0 as int], s, ridx, rk, (depth - 1) as nat);
                } else {
                    let lhs = g.ins()[p.0 as int][0];
                    let rhs = g.ins()[p.0 as int][1];
                    let width = g.tensor_seq()[lhs.0 as int].width;
                    let (ri, rs) = if t == out {
                        (ridx, min_i64(rk, (width - ridx) as i64))
                    } else {
                        (0i64, width)
                    };
                    lemma_tile_leaves_rep(
                        a,
                        b,
                        out,
                        lhs,
                        TensorSlice { position: (s.position.0, ri), shape: (s.shape.0, rs) },
                        ridx,
                        rk,
                        (depth - 1) as nat,
                    );
                    lemma_tile_leaves_rep(
                        a,
                        b,
                        out,
                        rhs,
                        TensorSlice { position: (ri, s.position.1), shape: (rs, s.shape.1) },
                        ridx,
                        rk,
                        (depth - 1) as nat,
                    );
                }
            },
        }
    }
}

proof fn lemma_tile_leaves_list_rep(
    a: Subgraph,
    b: Subgraph,
    out: TensorId,
    ts: Seq<TensorId>,
    s: TensorSlice,
    ridx: i64,
    rk: i64,
    depth: nat,
)
    requires
        same_rep(a, b),
    ensures
        tile_leaves_list(a, out, ts, s, ridx, rk, depth) == tile_leaves_list(b, out, ts, s, ridx, rk, depth),
    decreases depth, ts.len(),
{
    if ts.len() > 0 {
        lemma_tile_leaves_list_rep(a, b, out, ts.drop_last(), s, ridx, rk, depth);
        lemma_tile_leaves_rep(a, b, out, ts.last(), s, ridx, rk, depth);
    }
}

proof fn lemma_iter_leaves_rep(a: Subgraph, b: Subgraph, tile: (i64, i64, i64), i: int, j: int)
    requires
        same_rep(a, b),
    ensures
        iter_leaves(a, tile, i, j) == iter_leaves(b, tile, i, j),
{
    a.lemma_same_nodes_same_tensors(&b);
    let (m, n, kk) = iter_pos(a, tile, i, j);
    let o = a.output_seq()[i];
    let t = out_tensor(a, i);
    lemma_tile_leaves_rep(
        a,
        b,
        o,
        o,
        output_slice(t.height, t.width, (tile.1, tile.0, tile.2), (m as i64, n as i64, kk as i64)),
        (kk * tile.2) as i64,
        tile.2,
        walk_depth(a),
    );
}

proof fn lemma_last_leaves_rep(a: Subgraph, b: Subgraph, tile: (i64, i64, i64), i: int)
    requires
        same_rep(a, b),
    ensures
        last_leaves(a, tile, i) == last_leaves(b, tile, i),
    decreases i,
{
    a.lemma_same_nodes_same_tensors(&b);
    if i > 0 {
        lemma_last_leaves_rep(a, b, tile, i - 1);
        lemma_iter_leaves_rep(a, b, tile, i - 1, iter_count(a, tile, i - 1) - 1);
    }
}

proof fn lemma_metric_rep(
    a: Subgraph,
    b: Subgraph,
    dev: DeviceParameters,
    tile: (i64, i64, i64),
    retained: Seq<TensorId>,
    i: int,
    j: int,
)
    requires
        same_rep(a, b),
    ensures
        metric_spec(a, dev, tile, retained, i, j) == metric_spec(b, dev, tile, retained, i, j),
{
    a.lemma_same_nodes_same_tensors(&b);
    lemma_iter_leaves_rep(a, b, tile, i, j);
    lemma_iter_leaves_rep(a, b, tile, i, j - 1);
    lemma_last_leaves_rep(a, b, tile, i);
    lemma_cone_cost_rep(a, b, a.output_seq()[i], a.node_seq());
}

proof fn lemma_fold_output_rep(
    acc: (nat, nat),
    a: Subgraph,
    b: Subgraph,
    dev: DeviceParameters,
    tile: (i64, i64, i64),
    retained: Seq<TensorId>,
    i: int,
    j: int,
)
    requires
        same_rep(a, b),
    ensures
        fold_output(acc, a, dev, tile, retained, i, j) == fold_output(acc, b, dev, tile, retained, i, j),
    decreases j,
{
    if j > 0 {
        lemma_fold_output_rep(acc, a, b, dev, tile, retained, i, j - 1);
        lemma_metric_rep(a, b, dev, tile, retained, i, j - 1);
    }
}

proof fn lemma_total_upto_rep(
    a: Subgraph,
    b: Subgraph,
    dev: DeviceParameters,
    tile: (i64, i64, i64),
    retained: Seq<TensorId>,
    i: int,
)
    requires
        same_rep(a, b),
    ensures
        latency_total_upto(a, dev, tile, retained, i) == latency_total_upto(b, dev, tile, retained, i),
    decreases i,
{
    a.lemma_same_nodes_same_tensors(&b);
    if i > 0 {
        lemma_total_upto_rep(a, b, dev, tile, retained, i - 1);
        lemma_fold_output_rep(latency_total_upto(a, dev, tile, retained, i - 1), a, b, dev, tile, retained, i - 1, iter_count(a, tile, i - 1));
    }
}

/// A stage's latency depends only on its graph and its operations.
pub proof fn lemma_stage_cost_rep(a: Subgraph, b: Subgraph, dev: DeviceParameters, tile: (i64, i64, i64), retained: Seq<TensorId>)
    requires
        same_rep(a, b),
    ensures
        stage_cost(a, dev, tile, retained) == stage_cost(b, dev, tile, retained),
{
    a.lemma_same_nodes_same_tensors(&b);
    lemma_total_upto_rep(a, b, dev, tile, retained, a.output_seq().len() as int);
}

} // verus!
